//! What stands on the screen: the picture shows the rows of the scrollback that
//! the view is on, and follows what is written.

use vstd::prelude::*;
use crate::framebuffer::{
    cell_drawn, empty_cell, filled, filled_line, glyph_drawn, glyph_row, lifted, lifted_line, lit,
    pixel, pixel_in_buffer, put, row_drawn, scrolled, Cell, ConsoleView, FrameBufferInfo,
    PixelFormat, Rgb,
};

verus! {

// ---------- pixels ----------

/// The colour of a pixel, from its three bytes in the order of the format.
pub open spec fn color_at(buf: Seq<u8>, i: FrameBufferInfo, x: int, y: int) -> Rgb {
    let o = (y * i.stride + x) * i.bytes_per_pixel;
    if i.pixel_format == PixelFormat::Rgb {
        Rgb(buf[o], buf[o + 1], buf[o + 2])
    } else {
        Rgb(buf[o + 2], buf[o + 1], buf[o])
    }
}

/// The pixel is on the screen.
pub open spec fn on_screen(i: FrameBufferInfo, x: int, y: int) -> bool {
    0 <= x < i.width && 0 <= y < i.height
}

/// A screen that is drawn on.
pub open spec fn screen(i: FrameBufferInfo, len: nat) -> bool {
    i.fits(len) && (i.pixel_format == PixelFormat::Rgb || i.pixel_format == PixelFormat::Bgr)
}

proof fn offsets(i: FrameBufferInfo, len: nat, x: int, y: int, x2: int, y2: int)
    requires
        screen(i, len),
        on_screen(i, x, y),
        on_screen(i, x2, y2),
    ensures
        i.offset(x, y) == (y * i.stride + x) * i.bytes_per_pixel,
        0 <= i.offset(x, y),
        i.offset(x, y) + 3 <= len,
        !(x == x2 && y == y2) ==> i.offset(x, y) + 3 <= i.offset(x2, y2) || i.offset(x2, y2) + 3
            <= i.offset(x, y),
{
    let (s, b) = (i.stride as int, i.bytes_per_pixel as int);
    pixel_in_buffer(i, len, x, y);
    assert(y * s * b + x * b == (y * s + x) * b) by (nonlinear_arith);
    assert(y2 * s * b + x2 * b == (y2 * s + x2) * b) by (nonlinear_arith);
    let (p, q) = (y * s + x, y2 * s + x2);
    if y < y2 {
        assert(p < q) by (nonlinear_arith)
            requires
                y + 1 <= y2,
                0 <= x < s,
                0 <= x2,
                p == y * s + x,
                q == y2 * s + x2,
        ;
    } else if y2 < y {
        assert(q < p) by (nonlinear_arith)
            requires
                y2 + 1 <= y,
                0 <= x2 < s,
                0 <= x,
                p == y * s + x,
                q == y2 * s + x2,
        ;
    }
    if p < q {
        assert(p * b + 3 <= q * b) by (nonlinear_arith)
            requires
                p + 1 <= q,
                b >= 3,
        ;
    } else if q < p {
        assert(q * b + 3 <= p * b) by (nonlinear_arith)
            requires
                q + 1 <= p,
                b >= 3,
        ;
    }
}

/// Setting a pixel sets that pixel, and no other.
pub proof fn put_sets_one_pixel(buf: Seq<u8>, i: FrameBufferInfo, x: int, y: int, c: Rgb)
    requires
        screen(i, buf.len()),
        0 <= x,
        0 <= y,
    ensures
        put(buf, i, x, y, c).len() == buf.len(),
        forall|x2: int, y2: int|
            on_screen(i, x2, y2) ==> #[trigger] color_at(put(buf, i, x, y, c), i, x2, y2) == if x2
                == x && y2 == y {
                c
            } else {
                color_at(buf, i, x2, y2)
            },
{
    if x < i.width && y < i.height {
        offsets(i, buf.len(), x, y, x, y);
    }
    assert forall|x2: int, y2: int| on_screen(i, x2, y2) implies #[trigger] color_at(
        put(buf, i, x, y, c),
        i,
        x2,
        y2,
    ) == if x2 == x && y2 == y {
        c
    } else {
        color_at(buf, i, x2, y2)
    } by {
        if x < i.width && y < i.height {
            offsets(i, buf.len(), x, y, x2, y2);
            offsets(i, buf.len(), x2, y2, x, y);
        }
    }
}

/// A pixel is read as the colour that it shows.
proof fn pixel_is_color(buf: Seq<u8>, i: FrameBufferInfo, x: int, y: int, bg: Rgb)
    requires
        screen(i, buf.len()),
        on_screen(i, x, y),
    ensures
        pixel(buf, i, x, y, bg) == color_at(buf, i, x, y),
{
    offsets(i, buf.len(), x, y, x, y);
}

proof fn line_is_filled(buf: Seq<u8>, i: FrameBufferInfo, x: int, x1: int, y: int, c: Rgb)
    requires
        screen(i, buf.len()),
        0 <= x,
        0 <= y,
    ensures
        filled_line(buf, i, x, x1, y, c).len() == buf.len(),
        forall|x2: int, y2: int|
            on_screen(i, x2, y2) ==> #[trigger] color_at(
                filled_line(buf, i, x, x1, y, c),
                i,
                x2,
                y2,
            ) == if x <= x2 < x1 && y2 == y {
                c
            } else {
                color_at(buf, i, x2, y2)
            },
    decreases x1 - x,
{
    if x < x1 {
        put_sets_one_pixel(buf, i, x, y, c);
        line_is_filled(put(buf, i, x, y, c), i, x + 1, x1, y, c);
    }
}

/// Filling a rectangle gives its pixels the colour, and no other pixel.
pub proof fn rectangle_is_filled(
    buf: Seq<u8>,
    i: FrameBufferInfo,
    x0: int,
    y: int,
    x1: int,
    y1: int,
    c: Rgb,
)
    requires
        screen(i, buf.len()),
        0 <= x0,
        0 <= y,
    ensures
        filled(buf, i, x0, y, x1, y1, c).len() == buf.len(),
        forall|x2: int, y2: int|
            on_screen(i, x2, y2) ==> #[trigger] color_at(
                filled(buf, i, x0, y, x1, y1, c),
                i,
                x2,
                y2,
            ) == if x0 <= x2 < x1 && y <= y2 < y1 {
                c
            } else {
                color_at(buf, i, x2, y2)
            },
    decreases y1 - y,
{
    if y < y1 {
        line_is_filled(buf, i, x0, x1, y, c);
        rectangle_is_filled(filled_line(buf, i, x0, x1, y, c), i, x0, y + 1, x1, y1, c);
    }
}

// ---------- glyphs ----------

/// The glyph of a character has a dot in column `px` and row `py`: a bit of the
/// font, the highest one for the leftmost column; a character that the font does
/// not have is a block.
pub open spec fn has_dot(font: Seq<u8>, c: char, px: int, py: int) -> bool {
    if (c as int) * 16 + 16 <= font.len() {
        font[(c as int) * 16 + py] & (0x80u8 >> (px as u8)) != 0
    } else {
        true
    }
}

proof fn lit_is_bit(row: u8, col: int)
    requires
        0 <= col < 8,
    ensures
        lit(row, col) == (row & (0x80u8 >> (col as u8)) != 0),
        0xFFu8 & (0x80u8 >> (col as u8)) != 0,
{
    assert((row / 128 % 2 == 1 <==> row & (0x80u8 >> 0u8) != 0) && (row / 64 % 2 == 1 <==> row & (
    0x80u8 >> 1u8) != 0) && (row / 32 % 2 == 1 <==> row & (0x80u8 >> 2u8) != 0) && (row / 16 % 2 == 1
        <==> row & (0x80u8 >> 3u8) != 0) && (row / 8 % 2 == 1 <==> row & (0x80u8 >> 4u8) != 0) && (row
        / 4 % 2 == 1 <==> row & (0x80u8 >> 5u8) != 0) && (row / 2 % 2 == 1 <==> row & (0x80u8 >> 6u8)
        != 0) && (row % 2 == 1 <==> row & (0x80u8 >> 7u8) != 0)) by (bit_vector);
    let k = col as u8;
    assert(0xFFu8 & (0x80u8 >> k) != 0) by (bit_vector)
        requires
            k < 8,
    ;
}

proof fn row_is_drawn(
    buf: Seq<u8>,
    i: FrameBufferInfo,
    x: int,
    y: int,
    row: u8,
    col: int,
    fg: Rgb,
)
    requires
        screen(i, buf.len()),
        0 <= x,
        0 <= y,
        0 <= col,
    ensures
        row_drawn(buf, i, x, y, row, col, fg).len() == buf.len(),
        forall|x2: int, y2: int|
            on_screen(i, x2, y2) ==> #[trigger] color_at(
                row_drawn(buf, i, x, y, row, col, fg),
                i,
                x2,
                y2,
            ) == if y2 == y && x + col <= x2 < x + 8 && lit(row, x2 - x) {
                fg
            } else {
                color_at(buf, i, x2, y2)
            },
    decreases 8 - col,
{
    if col < 8 {
        put_sets_one_pixel(buf, i, x + col, y, fg);
        let b = if lit(row, col) {
            put(buf, i, x + col, y, fg)
        } else {
            buf
        };
        row_is_drawn(b, i, x, y, row, col + 1, fg);
    }
}

proof fn glyph_is_drawn(
    buf: Seq<u8>,
    i: FrameBufferInfo,
    font: Seq<u8>,
    x: int,
    y: int,
    cell: Cell,
    r: int,
)
    requires
        screen(i, buf.len()),
        0 <= x,
        0 <= y,
        0 <= r,
    ensures
        glyph_drawn(buf, i, font, x, y, cell, r).len() == buf.len(),
        forall|x2: int, y2: int|
            on_screen(i, x2, y2) ==> #[trigger] color_at(
                glyph_drawn(buf, i, font, x, y, cell, r),
                i,
                x2,
                y2,
            ) == if y + r <= y2 < y + 16 && x <= x2 < x + 8 && lit(
                glyph_row(font, cell.c, y2 - y),
                x2 - x,
            ) {
                cell.fg
            } else {
                color_at(buf, i, x2, y2)
            },
    decreases 16 - r,
{
    if r < 16 {
        let row = glyph_row(font, cell.c, r);
        row_is_drawn(buf, i, x, y + r, row, 0, cell.fg);
        glyph_is_drawn(row_drawn(buf, i, x, y + r, row, 0, cell.fg), i, font, x, y, cell, r + 1);
    }
}

/// A cell with the character shows a dot at the pixel.
pub open spec fn inked(font: Seq<u8>, cell: Cell, px: int, py: int) -> bool {
    cell.c != ' ' && has_dot(font, cell.c, px, py)
}

/// Drawing a cell shows its character in its place, in the colour of the cell on
/// the background, and changes no other pixel.
pub proof fn cell_is_drawn(
    buf: Seq<u8>,
    i: FrameBufferInfo,
    font: Seq<u8>,
    bg: Rgb,
    sx: int,
    sy: int,
    cell: Cell,
)
    requires
        screen(i, buf.len()),
        0 <= sx,
        0 <= sy,
    ensures
        cell_drawn(buf, i, font, bg, sx, sy, cell).len() == buf.len(),
        forall|x: int, y: int|
            on_screen(i, x, y) ==> #[trigger] color_at(
                cell_drawn(buf, i, font, bg, sx, sy, cell),
                i,
                x,
                y,
            ) == if x / 8 == sx && y / 16 == sy {
                if inked(font, cell, x % 8, y % 16) {
                    cell.fg
                } else {
                    bg
                }
            } else {
                color_at(buf, i, x, y)
            },
{
    reveal(cell_drawn);
    let (x0, y0) = (sx * 8, sy * 16);
    rectangle_is_filled(buf, i, x0, y0, x0 + 8, y0 + 16, bg);
    let cleared = filled(buf, i, x0, y0, x0 + 8, y0 + 16, bg);
    glyph_is_drawn(cleared, i, font, x0, y0, cell, 0);
    assert forall|x: int, y: int| on_screen(i, x, y) implies #[trigger] color_at(
        cell_drawn(buf, i, font, bg, sx, sy, cell),
        i,
        x,
        y,
    ) == if x / 8 == sx && y / 16 == sy {
        if inked(font, cell, x % 8, y % 16) {
            cell.fg
        } else {
            bg
        }
    } else {
        color_at(buf, i, x, y)
    } by {
        if x / 8 == sx && y / 16 == sy {
            assert(x - x0 == x % 8 && y - y0 == y % 16);
            lit_is_bit(glyph_row(font, cell.c, y % 16), x % 8);
        }
    }
}

// ---------- scrolling ----------

proof fn line_is_lifted(buf: Seq<u8>, i: FrameBufferInfo, x: int, y: int, bg: Rgb)
    requires
        screen(i, buf.len()),
        0 <= x,
        16 <= y < i.height,
    ensures
        lifted_line(buf, i, x, y, bg).len() == buf.len(),
        forall|x2: int, y2: int|
            on_screen(i, x2, y2) ==> #[trigger] color_at(
                lifted_line(buf, i, x, y, bg),
                i,
                x2,
                y2,
            ) == if x <= x2 && y2 == y - 16 {
                color_at(buf, i, x2, y)
            } else {
                color_at(buf, i, x2, y2)
            },
    decreases i.width - x,
{
    if x < i.width {
        let c = pixel(buf, i, x, y, bg);
        pixel_is_color(buf, i, x, y, bg);
        put_sets_one_pixel(buf, i, x, y - 16, c);
        let b = put(buf, i, x, y - 16, c);
        line_is_lifted(b, i, x + 1, y, bg);
        assert forall|x2: int, y2: int| on_screen(i, x2, y2) implies #[trigger] color_at(
            lifted_line(buf, i, x, y, bg),
            i,
            x2,
            y2,
        ) == if x <= x2 && y2 == y - 16 {
            color_at(buf, i, x2, y)
        } else {
            color_at(buf, i, x2, y2)
        } by {
            assert(color_at(b, i, x2, y) == color_at(buf, i, x2, y));
        }
    }
}

proof fn lines_are_lifted(buf: Seq<u8>, i: FrameBufferInfo, y: int, bg: Rgb)
    requires
        screen(i, buf.len()),
        16 <= y,
    ensures
        lifted(buf, i, y, bg).len() == buf.len(),
        forall|x2: int, y2: int|
            on_screen(i, x2, y2) ==> #[trigger] color_at(lifted(buf, i, y, bg), i, x2, y2) == if y
                - 16 <= y2 && y2 + 16 < i.height {
                color_at(buf, i, x2, y2 + 16)
            } else {
                color_at(buf, i, x2, y2)
            },
    decreases i.height - y,
{
    if y < i.height {
        line_is_lifted(buf, i, 0, y, bg);
        let b = lifted_line(buf, i, 0, y, bg);
        lines_are_lifted(b, i, y + 1, bg);
        assert forall|x2: int, y2: int| on_screen(i, x2, y2) implies #[trigger] color_at(
            lifted(buf, i, y, bg),
            i,
            x2,
            y2,
        ) == if y - 16 <= y2 && y2 + 16 < i.height {
            color_at(buf, i, x2, y2 + 16)
        } else {
            color_at(buf, i, x2, y2)
        } by {
            if y2 + 16 < i.height {
                assert(on_screen(i, x2, y2 + 16));
                assert(color_at(b, i, x2, y2 + 16) == color_at(buf, i, x2, y2 + 16) || y2 + 16 == y
                    - 16);
            }
            assert(color_at(b, i, x2, y2) == if y2 == y - 16 {
                color_at(buf, i, x2, y)
            } else {
                color_at(buf, i, x2, y2)
            });
        }
    }
}

/// Scrolling moves the picture up by the height of a row of cells; what it
/// uncovers at the bottom shows the background.
pub proof fn picture_moves_up(buf: Seq<u8>, i: FrameBufferInfo, bg: Rgb)
    requires
        screen(i, buf.len()),
    ensures
        scrolled(buf, i, bg).len() == buf.len(),
        forall|x: int, y: int|
            on_screen(i, x, y) ==> #[trigger] color_at(scrolled(buf, i, bg), i, x, y) == if y + 16
                < i.height {
                color_at(buf, i, x, y + 16)
            } else {
                bg
            },
{
    lines_are_lifted(buf, i, 16, bg);
    rectangle_is_filled(
        lifted(buf, i, 16, bg),
        i,
        0,
        i.height - 16,
        i.width as int,
        i.height as int,
        bg,
    );
}

// ---------- the screen ----------

/// The row of the scrollback that stands at the top of the screen: the screen
/// shows the last rows, or as many rows further up as the view is scrolled back.
pub open spec fn top_row(s: ConsoleView) -> int {
    if s.rows <= s.vis {
        0
    } else if s.view <= s.rows - s.vis {
        s.rows - s.vis - s.view
    } else {
        0
    }
}

/// The colour that a pixel is to have: that of the character in the cell that it
/// belongs to, where the glyph has a dot, else the background.
pub open spec fn wanted(s: ConsoleView, x: int, y: int) -> Rgb {
    let (sx, sy) = (x / 8, y / 16);
    let row = top_row(s) + sy;
    let cell = s.cells[row * 256 + sx];
    if sx < s.cols && sy < s.vis && row < s.rows && inked(s.font, cell, x % 8, y % 16) {
        cell.fg
    } else {
        s.bg
    }
}

/// A console with a screen that is drawn on, whose rows fit the screen.
pub open spec fn has_screen(s: ConsoleView) -> bool {
    &&& s.wf()
    &&& s.info is Some
    &&& screen(s.info->0, s.buffer.len())
    &&& 16 * s.vis <= s.info->0.height
}

/// The picture shows the rows of the scrollback that the view is on; the first
/// row of an empty console is blank.
pub open spec fn shows(s: ConsoleView) -> bool {
    &&& has_screen(s)
    &&& forall|x: int, y: int|
        on_screen(s.info->0, x, y) ==> #[trigger] color_at(s.buffer, s.info->0, x, y) == wanted(
            s,
            x,
            y,
        )
    &&& s.rows == 0 ==> s.curs_col == 0 && forall|k: int|
        0 <= k < 256 ==> (#[trigger] s.cells[k]).c == ' '
}

/// A cell that is put into the scrollback and drawn in its place.
proof fn cell_shows(s: ConsoleView, row: int, col: int, sy: int, cell: Cell)
    requires
        shows(s),
        0 <= col < s.cols,
        0 <= sy < s.vis,
        row == top_row(s) + sy,
        row < s.rows,
    ensures
        shows(s.with_cell(row * 256 + col, cell).drawn(col, sy, cell)),
{
    let i = s.info->0;
    let u = s.with_cell(row * 256 + col, cell);
    let t = u.drawn(col, sy, cell);
    cell_is_drawn(s.buffer, i, s.font, s.bg, col, sy, cell);
    assert forall|x: int, y: int| on_screen(i, x, y) implies #[trigger] color_at(t.buffer, i, x, y)
        == wanted(t, x, y) by {
        assert(color_at(s.buffer, i, x, y) == wanted(s, x, y));
        let (cx, cy) = (x / 8, y / 16);
        if cx == col && cy == sy {
            assert(t.cells[row * 256 + col] == cell);
        } else if cx < s.cols && cy < s.vis && top_row(s) + cy < s.rows {
            let at = (top_row(s) + cy) * 256 + cx;
            assert(at != row * 256 + col);
            assert(t.cells[at] == s.cells[at]);
        }
    }
}

/// A new row at the end shows the picture moved up, or a blank row.
#[verifier::spinoff_prover]
proof fn new_line_shows(s: ConsoleView)
    requires
        shows(s),
        s.view == 0,
    ensures
        shows(s.new_line()),
        s.new_line().rows > 0,
        s.new_line().curs_col == 0,
        s.new_line().view == 0,
{
    let i = s.info->0;
    let t = s.new_line();
    if s.rows == 0 {
        assert forall|x: int, y: int| on_screen(i, x, y) implies #[trigger] color_at(
            t.buffer,
            i,
            x,
            y,
        ) == wanted(t, x, y) by {
            assert(color_at(s.buffer, i, x, y) == wanted(s, x, y));
            if x / 8 < t.cols && y / 16 == 0 {
                assert(t.cells[0 * 256 + x / 8].c == ' ');
            }
        }
    } else {
        let u = s.row_added();
        assert(u.cells.len() == s.cells.len());
        picture_moves_up(s.buffer, i, s.bg);
        assert forall|x: int, y: int| on_screen(i, x, y) implies #[trigger] color_at(
            t.buffer,
            i,
            x,
            y,
        ) == wanted(t, x, y) by {
            let (cx, cy) = (x / 8, y / 16);
            let row = top_row(t) + cy;
            assert(color_at(s.buffer, i, x, y) == wanted(s, x, y));
            if s.rows >= s.vis {
                if y + 16 < i.height {
                    assert(color_at(s.buffer, i, x, y + 16) == wanted(s, x, y + 16));
                    assert((y + 16) / 16 == cy + 1 && (y + 16) % 16 == y % 16);
                }
                if cy < s.vis && cx < s.cols {
                    new_row_cells(s, row, cx);
                }
            } else {
                if cy < s.vis && cx < s.cols && row < t.rows {
                    new_row_cells(s, row, cx);
                }
            }
        }
    }
}

/// The cells behind a new row.
proof fn new_row_cells(s: ConsoleView, row: int, col: int)
    requires
        s.wf(),
        s.rows > 0,
        s.view == 0,
        0 <= col < s.cols,
        0 <= row < s.row_added().rows,
    ensures
        ({
            let t = s.row_added();
            &&& t.rows == (if s.rows < 2000 {
                s.rows + 1
            } else {
                2000
            })
            &&& row == t.rows - 1 ==> t.cells[row * 256 + col].c == ' '
            &&& row < t.rows - 1 && s.rows < 2000 ==> t.cells[row * 256 + col] == s.cells[row * 256
                + col]
            &&& row < t.rows - 1 && s.rows == 2000 ==> t.cells[row * 256 + col] == s.cells[(row + 1)
                * 256 + col]
        }),
{
}

/// The first row is started.
proof fn first_row_shows(s: ConsoleView)
    requires
        shows(s),
        s.view == 0,
        s.rows == 0,
    ensures
        shows(ConsoleView { rows: 1, ..s }),
{
    new_line_shows(s);
    assert(s.new_line() == ConsoleView { rows: 1, ..s });
}

/// A character is placed at the cursor and shows there.
proof fn char_shows(s: ConsoleView, c: char)
    requires
        shows(s),
        s.view == 0,
    ensures
        shows(s.char_placed(c)),
        s.char_placed(c).view == 0,
{
    let s1 = if s.curs_col >= s.cols {
        s.new_line()
    } else {
        s
    };
    if s.curs_col >= s.cols {
        new_line_shows(s);
    }
    let t = if s1.rows == 0 {
        ConsoleView { rows: 1, ..s1 }
    } else {
        s1
    };
    if s1.rows == 0 {
        first_row_shows(s1);
    }
    let cell = Cell { c, fg: t.fg };
    let (sx, sy) = t.cursor();
    assert(sx == t.curs_col);
    assert(t.rows - 1 == top_row(t) + sy);
    cell_shows(t, t.rows - 1, t.curs_col, sy, cell);
    let u = t.with_cell(t.index(t.rows - 1, t.curs_col), cell).drawn(sx, sy, cell);
    let v = s.char_placed(c);
    assert(v == ConsoleView { curs_col: v.curs_col, ..u });
    only_the_cursor(u, v.curs_col);
}

/// The place of the cursor does not show.
proof fn only_the_cursor(s: ConsoleView, col: int)
    requires
        shows(s),
        0 <= col <= s.cols,
        s.rows == 0 ==> col == 0,
    ensures
        shows(ConsoleView { curs_col: col, ..s }),
{
    let t = ConsoleView { curs_col: col, ..s };
    assert forall|x: int, y: int| on_screen(t.info->0, x, y) implies #[trigger] color_at(
        t.buffer,
        t.info->0,
        x,
        y,
    ) == wanted(t, x, y) by {
        assert(color_at(s.buffer, s.info->0, x, y) == wanted(s, x, y));
    }
}

// ---------- painting ----------

/// What a pixel shows once the rows of the screen before `sy`, and those cells
/// of row `sy` before `sx`, are drawn on a blank screen.
spec fn painted_to(s: ConsoleView, sy: int, sx: int, x: int, y: int) -> Rgb {
    if y / 16 < sy || (y / 16 == sy && x / 8 < sx) {
        wanted(s, x, y)
    } else {
        s.bg
    }
}

spec fn painted_so_far(s: ConsoleView, sy: int, sx: int) -> bool {
    &&& has_screen(s)
    &&& forall|x: int, y: int|
        on_screen(s.info->0, x, y) ==> #[trigger] color_at(s.buffer, s.info->0, x, y)
            == painted_to(s, sy, sx, x, y)
}

proof fn row_shows(s: ConsoleView, row: int, sy: int, sx: int)
    requires
        painted_so_far(s, sy, sx),
        0 <= sx <= s.cols,
        0 <= sy < s.vis,
        row == top_row(s) + sy,
        row < s.rows,
    ensures
        painted_so_far(s.row_painted(row, sy, sx), sy + 1, 0),
        s.row_painted(row, sy, sx) == (ConsoleView {
            buffer: s.row_painted(row, sy, sx).buffer,
            ..s
        }),
    decreases s.cols - sx,
{
    let i = s.info->0;
    if sx < s.cols {
        let cell = s.cells[s.index(row, sx)];
        let t = if cell.c != ' ' {
            s.drawn(sx, sy, cell)
        } else {
            s
        };
        cell_is_drawn(s.buffer, i, s.font, s.bg, sx, sy, cell);
        assert forall|x: int, y: int| on_screen(i, x, y) implies #[trigger] color_at(
            t.buffer,
            i,
            x,
            y,
        ) == painted_to(t, sy, sx + 1, x, y) by {
            assert(color_at(s.buffer, i, x, y) == painted_to(s, sy, sx, x, y));
            assert(wanted(t, x, y) == wanted(s, x, y));
        }
        row_shows(t, row, sy, sx + 1);
    } else {
        assert forall|x: int, y: int| on_screen(i, x, y) implies #[trigger] color_at(
            s.buffer,
            i,
            x,
            y,
        ) == painted_to(s, sy + 1, 0, x, y) by {
            assert(color_at(s.buffer, i, x, y) == painted_to(s, sy, sx, x, y));
        }
    }
}

proof fn rows_show(s: ConsoleView, sy: int)
    requires
        painted_so_far(s, sy, 0),
        0 <= sy <= s.vis,
    ensures
        painted_so_far(s.rows_painted(sy), s.vis, 0),
        s.rows_painted(sy) == (ConsoleView { buffer: s.rows_painted(sy).buffer, ..s }),
    decreases s.vis - sy,
{
    let row = s.window_start() + sy;
    assert(s.window_start() == top_row(s));
    if sy < s.vis && row < s.rows {
        row_shows(s, row, sy, 0);
        rows_show(s.row_painted(row, sy, 0), sy + 1);
    } else {
        let i = s.info->0;
        assert forall|x: int, y: int| on_screen(i, x, y) implies #[trigger] color_at(
            s.buffer,
            i,
            x,
            y,
        ) == painted_to(s, s.vis, 0, x, y) by {
            assert(color_at(s.buffer, i, x, y) == painted_to(s, sy, 0, x, y));
        }
    }
}

/// Painting the screen makes the picture show the scrollback, whatever it showed
/// before.
pub proof fn painting_shows(s: ConsoleView)
    requires
        has_screen(s),
        s.rows == 0 ==> s.curs_col == 0 && forall|k: int|
            0 <= k < 256 ==> (#[trigger] s.cells[k]).c == ' ',
    ensures
        shows(s.painted()),
        s.painted() == (ConsoleView { buffer: s.painted().buffer, ..s }),
{
    let i = s.info->0;
    let c = s.picture_cleared();
    rectangle_is_filled(s.buffer, i, 0, 0, i.width as int, i.height as int, s.bg);
    assert forall|x: int, y: int| on_screen(i, x, y) implies #[trigger] color_at(c.buffer, i, x, y)
        == painted_to(c, 0, 0, x, y) by {}
    rows_show(c, 0);
    let t = s.painted();
    assert forall|x: int, y: int| on_screen(i, x, y) implies #[trigger] color_at(t.buffer, i, x, y)
        == wanted(t, x, y) by {
        assert(color_at(t.buffer, i, x, y) == painted_to(t, t.vis, 0, x, y));
    }
}

// ---------- laws ----------

/// Clearing the screen shows the background everywhere.
pub proof fn cleared_screen_shows(s: ConsoleView)
    requires
        has_screen(s),
    ensures
        shows(s.cleared()),
        forall|x: int, y: int|
            on_screen(s.info->0, x, y) ==> #[trigger] color_at(
                s.cleared().buffer,
                s.info->0,
                x,
                y,
            ) == s.bg,
{
    let i = s.info->0;
    rectangle_is_filled(s.buffer, i, 0, 0, i.width as int, i.height as int, s.bg);
}

/// The picture goes on showing the scrollback when a character is written,
/// through wrapping, the ends of lines, scrolling, and the return of the view to
/// the end.
pub proof fn writing_shows(s: ConsoleView, c: char)
    requires
        shows(s),
    ensures
        shows(s.written(c)),
        s.written(c).view == 0,
{
    let f = s.followed();
    if s.view != 0 {
        painting_shows(ConsoleView { view: 0, ..s });
    }
    if c == '\n' {
        new_line_shows(f);
        let t = f.new_line();
        let (sx, sy) = t.cursor();
        assert(sx == 0);
        assert(t.rows - 1 == top_row(t) + sy);
        cell_shows(t, t.rows - 1, 0, sy, empty_cell());
    } else if c == '\r' {
        only_the_cursor(f, 0);
    } else {
        char_shows(f, c);
    }
}

/// The picture shows the scrollback after a whole text too.
pub proof fn text_shows(s: ConsoleView, text: Seq<char>)
    requires
        shows(s),
    ensures
        shows(s.all_written(text)),
    decreases text.len(),
{
    if text.len() > 0 {
        text_shows(s, text.drop_last());
        writing_shows(s.all_written(text.drop_last()), text.last());
    }
}

/// Erasing shows too, where the view is at the end.
pub proof fn erasing_shows(s: ConsoleView)
    requires
        shows(s),
        s.view == 0,
    ensures
        shows(s.erased()),
{
    if s.rows != 0 && s.curs_col != 0 {
        let t = ConsoleView { curs_col: s.curs_col - 1, ..s };
        only_the_cursor(s, s.curs_col - 1);
        let (sx, sy) = t.cursor();
        assert(t.rows - 1 == top_row(t) + sy);
        cell_shows(t, t.rows - 1, t.curs_col, sy, empty_cell());
    }
}

/// Moving the view shows the rows that it moves to.
pub proof fn scrolling_back_shows(s: ConsoleView, view: int)
    requires
        shows(s),
        0 <= view,
        view == 0 || view <= s.rows - s.vis,
    ensures
        shows(s.viewed(view)),
        top_row(s.viewed(view)) == (if s.rows > s.vis {
            s.rows - s.vis - view
        } else {
            0
        }),
{
    painting_shows(ConsoleView { view, ..s });
}

/// A page up shows the rows a screen further up, but does not go beyond the
/// oldest; a page down shows those a screen further down, but does not go beyond
/// the newest; home shows the oldest rows, and end the newest. The picture shows
/// them, and nothing but the view changes.
pub proof fn paging_moves_by_a_screen(s: ConsoleView)
    requires
        shows(s),
    ensures
        ({
            let up = s.paged_up();
            let down = s.paged_down();
            let home = s.viewed(s.view_limit());
            let end = s.viewed(0);
            let last = if s.rows > s.vis {
                s.rows - s.vis
            } else {
                0
            };
            &&& shows(up) && shows(down) && shows(home) && shows(end)
            &&& top_row(up) == (if top_row(s) >= s.vis {
                top_row(s) - s.vis
            } else {
                0
            })
            &&& top_row(down) == (if top_row(s) + s.vis <= last {
                top_row(s) + s.vis
            } else {
                last
            })
            &&& top_row(home) == 0
            &&& top_row(end) == last
            &&& up.cells == s.cells && up.rows == s.rows && up.curs_col == s.curs_col
            &&& down.cells == s.cells && down.rows == s.rows && down.curs_col == s.curs_col
            &&& home.cells == s.cells && home.rows == s.rows && home.curs_col == s.curs_col
            &&& end.cells == s.cells && end.rows == s.rows && end.curs_col == s.curs_col
        }),
{
    let limit = s.view_limit();
    let back = if s.view + s.vis < limit {
        s.view + s.vis
    } else {
        limit
    };
    let on = if s.view > s.vis {
        s.view - s.vis
    } else {
        0
    };
    painting_shows(ConsoleView { view: back, ..s });
    painting_shows(ConsoleView { view: on, ..s });
    painting_shows(ConsoleView { view: limit, ..s });
    painting_shows(ConsoleView { view: 0, ..s });
}

} // verus!
