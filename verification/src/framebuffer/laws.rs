//! What the console shows of a text that is written to it.

use vstd::prelude::*;
use vstd::arithmetic::div_mod::{lemma_fundamental_div_mod, lemma_fundamental_div_mod_converse};
use crate::framebuffer::{empty_cell, painting_only_draws, Cell, ConsoleView};

verus! {

/// The cell in row `row` and column `col` of the scrollback.
pub open spec fn cell_at(s: ConsoleView, row: int, col: int) -> Cell {
    s.cells[row * 256 + col]
}

/// The number of places in front of the cursor, counted row by row.
pub open spec fn written_so_far(s: ConsoleView) -> int {
    if s.rows == 0 {
        0
    } else {
        (s.rows - 1) * s.cols + s.curs_col
    }
}

/// The console follows its end, and an empty one has the cursor at its start.
pub open spec fn at_end(s: ConsoleView) -> bool {
    &&& s.wf()
    &&& s.view == 0
    &&& s.rows == 0 ==> s.curs_col == 0
}

/// The sizes of a console.
spec fn shaped(s: ConsoleView) -> bool {
    &&& 1 <= s.cols <= 256
    &&& s.cells.len() == 256 * 2000
    &&& 0 <= s.rows <= 2000
    &&& 0 <= s.curs_col <= s.cols
    &&& s.view == 0
    &&& s.rows == 0 ==> s.curs_col == 0
}

proof fn place_is(cols: int, row: int, col: int)
    requires
        0 <= col < cols,
        0 <= row,
    ensures
        (row * cols + col) / cols == row,
        (row * cols + col) % cols == col,
{
    lemma_fundamental_div_mod_converse(row * cols + col, cols, row, col);
}

proof fn place_of(cols: int, q: int)
    requires
        0 < cols,
        0 <= q,
    ensures
        q == (q / cols) * cols + q % cols,
        0 <= q % cols < cols,
        0 <= q / cols,
{
    lemma_fundamental_div_mod(q, cols);
    assert((q / cols) * cols == cols * (q / cols)) by (nonlinear_arith);
    assert(0 <= q / cols) by (nonlinear_arith)
        requires
            0 <= q,
            0 < cols,
    ;
}

/// What one character does to the cells.
proof fn char_goes_to_the_cursor(s: ConsoleView, c: char)
    requires
        shaped(s),
        c != '\n',
        c != '\r',
        written_so_far(s) < s.cols * 2000,
    ensures
        ({
            let t = s.written(c);
            let q = written_so_far(s);
            &&& shaped(t)
            &&& t.cols == s.cols && t.fg == s.fg && t.bg == s.bg && t.vis == s.vis
            &&& t.rows >= 1
            &&& written_so_far(t) == q + 1
            &&& cell_at(t, q / s.cols, q % s.cols) == (Cell { c, fg: s.fg })
            &&& forall|p: int|
                #![trigger p / s.cols]
                0 <= p < q ==> cell_at(t, p / s.cols, p % s.cols) == cell_at(
                    s,
                    p / s.cols,
                    p % s.cols,
                )
        }),
{
    let t = s.written(c);
    let q = written_so_far(s);
    let cols = s.cols;
    assert(s.followed() == s);
    if s.rows == 0 {
        place_is(cols, 0, 0);
        assert(0 * cols == 0) by (nonlinear_arith);
    } else if s.curs_col >= cols {
        assert(s.rows < 2000) by (nonlinear_arith)
            requires
                (s.rows - 1) * cols + cols < cols * 2000,
                cols >= 1,
        ;
        assert((s.rows - 1) * cols + cols == s.rows * cols) by (nonlinear_arith);
        place_is(cols, s.rows, 0);
    } else {
        place_is(cols, s.rows - 1, s.curs_col);
    }
    let (row, col) = (q / cols, q % cols);
    assert(t.rows == row + 1);
    assert(t.curs_col == col + 1);
    assert(cell_at(t, row, col) == (Cell { c, fg: s.fg }));
    assert forall|p: int|
        #![trigger p / s.cols]
        0 <= p < q implies cell_at(t, p / s.cols, p % s.cols) == cell_at(
        s,
        p / s.cols,
        p % s.cols,
    ) by {
        place_of(cols, p);
        place_of(cols, q);
        let (r, k) = (p / cols, p % cols);
        assert(r <= row) by (nonlinear_arith)
            requires
                r * cols + k < row * cols + col,
                0 <= k,
                0 <= col < cols,
        ;
        assert(r == row ==> k < col);
        assert(0 <= r * 256 + k < row * 256 + col);
    }
}

/// A text without control characters that is written behind what the console
/// holds goes on from the cursor: counted row by row, each character stands in
/// the place behind the one before it, and nothing that stood before the cursor
/// changes. This holds while the rows fit.
pub proof fn text_goes_on_from_the_cursor(s: ConsoleView, text: Seq<char>)
    requires
        at_end(s),
        forall|k: int| 0 <= k < text.len() ==> #[trigger] text[k] != '\n' && text[k] != '\r',
        written_so_far(s) + text.len() <= s.cols * 2000,
    ensures
        ({
            let t = s.all_written(text);
            let q = written_so_far(s);
            &&& written_so_far(t) == q + text.len()
            &&& t.cols == s.cols && t.fg == s.fg && t.bg == s.bg && t.vis == s.vis && t.view == 0
            &&& forall|k: int|
                0 <= k < text.len() ==> cell_at(t, (q + k) / s.cols, (q + k) % s.cols) == (Cell {
                    c: #[trigger] text[k],
                    fg: s.fg,
                })
            &&& forall|p: int|
                #![trigger p / s.cols]
                0 <= p < q ==> cell_at(t, p / s.cols, p % s.cols) == cell_at(
                    s,
                    p / s.cols,
                    p % s.cols,
                )
        }),
{
    text_goes_on(s, text);
}

proof fn text_goes_on(s: ConsoleView, text: Seq<char>)
    requires
        shaped(s),
        forall|k: int| 0 <= k < text.len() ==> #[trigger] text[k] != '\n' && text[k] != '\r',
        written_so_far(s) + text.len() <= s.cols * 2000,
    ensures
        ({
            let t = s.all_written(text);
            let q = written_so_far(s);
            &&& shaped(t)
            &&& written_so_far(t) == q + text.len()
            &&& t.cols == s.cols && t.fg == s.fg && t.bg == s.bg && t.vis == s.vis
            &&& forall|k: int|
                0 <= k < text.len() ==> cell_at(t, (q + k) / s.cols, (q + k) % s.cols) == (Cell {
                    c: #[trigger] text[k],
                    fg: s.fg,
                })
            &&& forall|p: int|
                #![trigger p / s.cols]
                0 <= p < q ==> cell_at(t, p / s.cols, p % s.cols) == cell_at(
                    s,
                    p / s.cols,
                    p % s.cols,
                )
        }),
    decreases text.len(),
{
    if text.len() > 0 {
        let u = s.all_written(text.drop_last());
        let q = written_so_far(s);
        assert forall|k: int| 0 <= k < text.drop_last().len() implies #[trigger] text.drop_last()[k]
            != '\n' && text.drop_last()[k] != '\r' by {
            assert(text[k] != '\n');
        }
        text_goes_on(s, text.drop_last());
        char_goes_to_the_cursor(u, text.last());
        let t = s.all_written(text);
        assert(t == u.written(text.last()));
        assert forall|k: int| 0 <= k < text.len() implies cell_at(
            t,
            (q + k) / s.cols,
            (q + k) % s.cols,
        ) == (Cell { c: #[trigger] text[k], fg: s.fg }) by {
            if k < text.len() - 1 {
                assert(text.drop_last()[k] == text[k]);
            }
        }
    }
}

/// A text without control characters on an empty console: its character `k`
/// stands in row `k / cols` and column `k % cols`, and the rows that it takes are
/// the rows of the console.
pub proof fn text_fills_the_rows(s: ConsoleView, text: Seq<char>)
    requires
        at_end(s),
        s.rows == 0,
        forall|k: int| 0 <= k < text.len() ==> #[trigger] text[k] != '\n' && text[k] != '\r',
        text.len() <= s.cols * 2000,
    ensures
        ({
            let t = s.all_written(text);
            &&& forall|k: int|
                0 <= k < text.len() ==> cell_at(t, k / s.cols, k % s.cols) == (Cell {
                    c: #[trigger] text[k],
                    fg: s.fg,
                })
            &&& (t.rows - 1) * s.cols < text.len() <= t.rows * s.cols
        }),
{
    text_goes_on(s, text);
    let t = s.all_written(text);
    assert forall|k: int| 0 <= k < text.len() implies cell_at(t, k / s.cols, k % s.cols) == (Cell {
        c: #[trigger] text[k],
        fg: s.fg,
    }) by {
        assert(cell_at(t, (0 + k) / s.cols, (0 + k) % s.cols) == (Cell { c: text[k], fg: s.fg }));
    }
    rows_are_used(s, text);
    assert((t.rows - 1) * s.cols + s.cols == t.rows * s.cols) by (nonlinear_arith);
    if text.len() == 0 {
        assert((0 - 1) * s.cols == -s.cols) by (nonlinear_arith);
        assert(0 * s.cols == 0) by (nonlinear_arith);
    }
}

proof fn rows_are_used(s: ConsoleView, text: Seq<char>)
    requires
        shaped(s),
        s.rows == 0,
        forall|k: int| 0 <= k < text.len() ==> #[trigger] text[k] != '\n' && text[k] != '\r',
        text.len() <= s.cols * 2000,
    ensures
        text.len() == 0 ==> s.all_written(text).rows == 0,
        text.len() > 0 ==> s.all_written(text).rows >= 1 && s.all_written(text).curs_col >= 1,
{
    if text.len() > 0 {
        let u = s.all_written(text.drop_last());
        assert forall|k: int| 0 <= k < text.drop_last().len() implies #[trigger] text.drop_last()[k]
            != '\n' && text.drop_last()[k] != '\r' by {
            assert(text[k] != '\n');
        }
        text_goes_on(s, text.drop_last());
        assert(u.followed() == u);
    }
}

/// The end of a line starts an empty row and leaves the rows above it as they
/// are; where the scrollback is full, they all move up by one and the oldest is
/// lost. On an empty console it starts the first row.
pub proof fn newline_starts_a_row(s: ConsoleView, row: int, col: int)
    requires
        at_end(s),
        0 <= row < 2000,
        0 <= col < s.cols,
    ensures
        ({
            let t = s.written('\n');
            &&& t.curs_col == 0
            &&& t.rows == (if s.rows < 2000 {
                s.rows + 1
            } else {
                2000
            })
            &&& s.rows > 0 && row == t.rows - 1 ==> cell_at(t, row, col) == (Cell {
                c: ' ',
                ..empty_cell()
            })
            &&& s.rows < 2000 && row < t.rows - 1 ==> cell_at(t, row, col) == cell_at(s, row, col)
            &&& s.rows == 2000 && row < 1999 ==> cell_at(t, row, col) == cell_at(s, row + 1, col)
        }),
{
    assert(s.followed() == s);
}

/// A carriage return goes back to the start of the row and changes no cell.
pub proof fn return_goes_back(s: ConsoleView)
    requires
        at_end(s),
    ensures
        s.written('\r') == (ConsoleView { curs_col: 0, ..s }),
{
    assert(s.followed() == s);
}

/// Erasing takes back the character that was written last, where its place was
/// empty.
pub proof fn erasing_takes_back(s: ConsoleView, c: char)
    requires
        at_end(s),
        s.rows > 0,
        c != '\n',
        c != '\r',
        s.curs_col < s.cols,
        cell_at(s, s.rows - 1, s.curs_col) == empty_cell(),
    ensures
        ({
            let t = s.written(c).erased();
            &&& t.cells == s.cells
            &&& t.rows == s.rows
            &&& t.curs_col == s.curs_col
        }),
{
    assert(s.followed() == s);
    assert(s.written(c).erased().cells =~= s.cells);
}

/// Writing while the view is scrolled back returns to the end first.
pub proof fn writing_follows_the_end(s: ConsoleView, c: char)
    requires
        s.wf(),
    ensures
        s.written(c).cells == (ConsoleView { view: 0, ..s }).written(c).cells,
        s.written(c).rows == (ConsoleView { view: 0, ..s }).written(c).rows,
        s.written(c).curs_col == (ConsoleView { view: 0, ..s }).written(c).curs_col,
        s.written(c).view == 0,
{
    painting_only_draws(ConsoleView { view: 0, ..s });
}

} // verus!
