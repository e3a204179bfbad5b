//! The console on the framebuffer: a grid of character cells with scrollback.

use vstd::prelude::*;

pub mod laws;
pub mod picture;

verus! {

pub const CELL_W: usize = 8;

pub const CELL_H: usize = 16;

/// The number of columns that a row of the scrollback has room for.
pub const COLS_MAX: usize = 256;

/// The number of rows that the scrollback holds.
pub const SCR_ROWS: usize = 2000;

#[derive(Clone, Copy, Debug, PartialEq, Eq, Structural)]
pub struct Rgb(pub u8, pub u8, pub u8);

/// The background.
#[verifier::allow_in_spec]
pub fn bg_color() -> Rgb
    returns
        Rgb(10, 12, 28),
{
    Rgb(10, 12, 28)
}

/// The text.
#[verifier::allow_in_spec]
pub fn fg_color() -> Rgb
    returns
        Rgb(226, 232, 255),
{
    Rgb(226, 232, 255)
}

/// What stands out.
#[verifier::allow_in_spec]
pub fn accent() -> Rgb
    returns
        Rgb(93, 220, 255),
{
    Rgb(93, 220, 255)
}

/// Failures.
#[verifier::allow_in_spec]
pub fn red() -> Rgb
    returns
        Rgb(255, 90, 90),
{
    Rgb(255, 90, 90)
}

#[derive(Clone, Copy, PartialEq, Eq, Debug, Structural)]
pub struct Cell {
    pub c: char,
    pub fg: Rgb,
}

#[verifier::allow_in_spec]
pub fn empty_cell() -> Cell
    returns
        (Cell { c: ' ', fg: fg_color() }),
{
    Cell { c: ' ', fg: fg_color() }
}

/// How a pixel lies in memory.
#[derive(Clone, Copy, PartialEq, Eq, Debug, Structural)]
pub enum PixelFormat {
    Rgb,
    Bgr,
    U8,
    /// The bit offsets of the three colours.
    Unknown { red_position: u8, green_position: u8, blue_position: u8 },
}

/// The shape of the framebuffer.
#[derive(Clone, Copy, PartialEq, Eq, Debug, Structural)]
pub struct FrameBufferInfo {
    pub width: usize,
    pub height: usize,
    pub bytes_per_pixel: usize,
    /// The number of pixels from one line to the next.
    pub stride: usize,
    pub pixel_format: PixelFormat,
}

/// The glyphs: 16 bytes for each character from 0 on.
pub struct Font {
    pub table: Vec<u8>,
}

/// The row `r` of the glyph of a character; a character that has none is
/// shown as a block.
pub open spec fn glyph_row(table: Seq<u8>, c: char, r: int) -> u8 {
    if (c as int) * 16 + 16 <= table.len() {
        table[(c as int) * 16 + r]
    } else {
        0xFF
    }
}

/// The bit of a glyph row for a column; the leftmost column is the highest
/// bit.
pub open spec fn lit(row: u8, col: int) -> bool {
    if col == 0 {
        row / 128 % 2 == 1
    } else if col == 1 {
        row / 64 % 2 == 1
    } else if col == 2 {
        row / 32 % 2 == 1
    } else if col == 3 {
        row / 16 % 2 == 1
    } else if col == 4 {
        row / 8 % 2 == 1
    } else if col == 5 {
        row / 4 % 2 == 1
    } else if col == 6 {
        row / 2 % 2 == 1
    } else {
        row % 2 == 1
    }
}

fn is_lit(row: u8, col: usize) -> (r: bool)
    ensures
        r == lit(row, col as int),
{
    let v: u8 = if col == 0 {
        row / 128
    } else if col == 1 {
        row / 64
    } else if col == 2 {
        row / 32
    } else if col == 3 {
        row / 16
    } else if col == 4 {
        row / 8
    } else if col == 5 {
        row / 4
    } else if col == 6 {
        row / 2
    } else {
        row
    };
    v % 2 == 1
}

impl Font {
    fn row(&self, c: char, r: usize) -> (v: u8)
        requires
            r < 16,
        ensures
            v == glyph_row(self.table@, c, r as int),
    {
        let k: u64 = c as u64;
        if k * 16 + 16 <= self.table.len() as u64 {
            self.table[k as usize * 16 + r]
        } else {
            0xFF
        }
    }
}

// ---------- pixels ----------

impl FrameBufferInfo {
    /// Pixels of this format are drawn.
    pub open spec fn drawn(self) -> bool {
        self.pixel_format == PixelFormat::Rgb || self.pixel_format == PixelFormat::Bgr
    }

    /// The screen has a row of text, and every pixel that is drawn lies in a
    /// buffer of `len` bytes.
    pub open spec fn fits(self, len: nat) -> bool {
        &&& self.height >= CELL_H
        &&& self.drawn() ==> {
            &&& self.width <= self.stride
            &&& self.bytes_per_pixel >= 3
            &&& self.height * self.stride * self.bytes_per_pixel <= len
        }
    }

    /// Where the bytes of a pixel start.
    pub open spec fn offset(self, x: int, y: int) -> int {
        y * self.stride * self.bytes_per_pixel + x * self.bytes_per_pixel
    }
}

/// The bytes of a pixel on the screen lie in the buffer.
pub proof fn pixel_in_buffer(i: FrameBufferInfo, len: nat, x: int, y: int)
    requires
        i.fits(len),
        i.drawn(),
        0 <= x < i.width,
        0 <= y < i.height,
    ensures
        0 <= y * i.stride,
        0 <= y * i.stride * i.bytes_per_pixel,
        0 <= x * i.bytes_per_pixel,
        i.offset(x, y) + 3 <= len,
        y * i.stride <= len,
{
    let (s, b, h) = (i.stride as int, i.bytes_per_pixel as int, i.height as int);
    assert(0 <= y * s) by (nonlinear_arith)
        requires
            y >= 0,
            s >= 0,
    ;
    assert(0 <= y * s * b) by (nonlinear_arith)
        requires
            y * s >= 0,
            b >= 0,
    ;
    assert(0 <= x * b) by (nonlinear_arith)
        requires
            x >= 0,
            b >= 0,
    ;
    assert(x * b + b <= s * b) by (nonlinear_arith)
        requires
            x + 1 <= s,
            b >= 0,
    ;
    assert(y * s * b + s * b == (y + 1) * s * b) by (nonlinear_arith);
    assert((y + 1) * s <= h * s) by (nonlinear_arith)
        requires
            y + 1 <= h,
            s >= 0,
    ;
    assert((y + 1) * s * b <= h * s * b) by (nonlinear_arith)
        requires
            (y + 1) * s <= h * s,
            b >= 0,
    ;
    assert(y * s <= y * s * b) by (nonlinear_arith)
        requires
            y * s >= 0,
            b >= 1,
    ;
}

/// The buffer with one pixel set. A pixel off the screen, or of a format that
/// is not drawn, changes nothing.
pub open spec fn put(buf: Seq<u8>, i: FrameBufferInfo, x: int, y: int, c: Rgb) -> Seq<u8> {
    let o = i.offset(x, y);
    if x >= i.width || y >= i.height {
        buf
    } else if i.pixel_format == PixelFormat::Rgb {
        buf.update(o, c.0).update(o + 1, c.1).update(o + 2, c.2)
    } else if i.pixel_format == PixelFormat::Bgr {
        buf.update(o, c.2).update(o + 1, c.1).update(o + 2, c.0)
    } else {
        buf
    }
}

/// The colour of a pixel; `bg` where there is none.
pub open spec fn pixel(buf: Seq<u8>, i: FrameBufferInfo, x: int, y: int, bg: Rgb) -> Rgb {
    let o = i.offset(x, y);
    if x >= i.width || y >= i.height {
        bg
    } else if i.pixel_format == PixelFormat::Rgb {
        Rgb(buf[o], buf[o + 1], buf[o + 2])
    } else if i.pixel_format == PixelFormat::Bgr {
        Rgb(buf[o + 2], buf[o + 1], buf[o])
    } else {
        bg
    }
}

/// A pixel shows the colour that was put there.
pub proof fn put_then_pixel(buf: Seq<u8>, i: FrameBufferInfo, x: int, y: int, c: Rgb, bg: Rgb)
    requires
        i.fits(buf.len()),
        0 <= x < i.width,
        0 <= y < i.height,
        i.drawn(),
    ensures
        pixel(put(buf, i, x, y, c), i, x, y, bg) == c,
{
    pixel_in_buffer(i, buf.len(), x, y);
}

fn offset_in(i: &FrameBufferInfo, len: usize, x: usize, y: usize) -> (o: usize)
    requires
        i.fits(len as nat),
        i.drawn(),
        x < i.width,
        y < i.height,
    ensures
        o == i.offset(x as int, y as int),
        o + 3 <= len,
{
    proof {
        pixel_in_buffer(*i, len as nat, x as int, y as int);
    }
    let line: usize = y * i.stride;
    line * i.bytes_per_pixel + x * i.bytes_per_pixel
}

fn put_pixel(buf: &mut Vec<u8>, i: &FrameBufferInfo, x: usize, y: usize, c: Rgb)
    requires
        i.fits(old(buf)@.len()),
    ensures
        final(buf)@ == put(old(buf)@, *i, x as int, y as int, c),
        final(buf)@.len() == old(buf)@.len(),
{
    if x >= i.width || y >= i.height {
        return;
    }
    let n: usize = buf.len();
    match i.pixel_format {
        PixelFormat::Rgb => {
            let o: usize = offset_in(i, n, x, y);
            buf.set(o, c.0);
            buf.set(o + 1, c.1);
            buf.set(o + 2, c.2);
        },
        PixelFormat::Bgr => {
            let o: usize = offset_in(i, n, x, y);
            buf.set(o, c.2);
            buf.set(o + 1, c.1);
            buf.set(o + 2, c.0);
        },
        _ => {},
    }
}

fn get_pixel(buf: &Vec<u8>, i: &FrameBufferInfo, x: usize, y: usize, bg: Rgb) -> (c: Rgb)
    requires
        i.fits(buf@.len()),
    ensures
        c == pixel(buf@, *i, x as int, y as int, bg),
{
    if x >= i.width || y >= i.height {
        return bg;
    }
    let n: usize = buf.len();
    match i.pixel_format {
        PixelFormat::Rgb => {
            let o: usize = offset_in(i, n, x, y);
            Rgb(buf[o], buf[o + 1], buf[o + 2])
        },
        PixelFormat::Bgr => {
            let o: usize = offset_in(i, n, x, y);
            Rgb(buf[o + 2], buf[o + 1], buf[o])
        },
        _ => bg,
    }
}

/// The line `y` filled from column `x` to `x1`.
pub open spec fn filled_line(
    buf: Seq<u8>,
    i: FrameBufferInfo,
    x: int,
    x1: int,
    y: int,
    c: Rgb,
) -> Seq<u8>
    decreases x1 - x,
{
    if x >= x1 {
        buf
    } else {
        filled_line(put(buf, i, x, y, c), i, x + 1, x1, y, c)
    }
}

/// The rectangle from `(x0, y)` to `(x1, y1)` filled.
pub open spec fn filled(
    buf: Seq<u8>,
    i: FrameBufferInfo,
    x0: int,
    y: int,
    x1: int,
    y1: int,
    c: Rgb,
) -> Seq<u8>
    decreases y1 - y,
{
    if y >= y1 {
        buf
    } else {
        filled(filled_line(buf, i, x0, x1, y, c), i, x0, y + 1, x1, y1, c)
    }
}

fn fill_line(buf: &mut Vec<u8>, i: &FrameBufferInfo, x0: usize, x1: usize, y: usize, c: Rgb)
    requires
        i.fits(old(buf)@.len()),
    ensures
        final(buf)@ == filled_line(old(buf)@, *i, x0 as int, x1 as int, y as int, c),
        final(buf)@.len() == old(buf)@.len(),
{
    let mut x: usize = x0;
    while x < x1
        invariant
            i.fits(old(buf)@.len()),
            buf@.len() == old(buf)@.len(),
            filled_line(old(buf)@, *i, x0 as int, x1 as int, y as int, c) == filled_line(
                buf@,
                *i,
                x as int,
                x1 as int,
                y as int,
                c,
            ),
        decreases x1 - x,
    {
        put_pixel(buf, i, x, y, c);
        x += 1;
    }
}

fn fill_rect(
    buf: &mut Vec<u8>,
    i: &FrameBufferInfo,
    x0: usize,
    y0: usize,
    x1: usize,
    y1: usize,
    c: Rgb,
)
    requires
        i.fits(old(buf)@.len()),
    ensures
        final(buf)@ == filled(
            old(buf)@,
            *i,
            x0 as int,
            y0 as int,
            x1 as int,
            y1 as int,
            c,
        ),
        final(buf)@.len() == old(buf)@.len(),
{
    let mut y: usize = y0;
    while y < y1
        invariant
            i.fits(old(buf)@.len()),
            buf@.len() == old(buf)@.len(),
            filled(old(buf)@, *i, x0 as int, y0 as int, x1 as int, y1 as int, c) == filled(
                buf@,
                *i,
                x0 as int,
                y as int,
                x1 as int,
                y1 as int,
                c,
            ),
        decreases y1 - y,
    {
        fill_line(buf, i, x0, x1, y, c);
        y += 1;
    }
}

/// The line `y` copied one cell up, from column `x` on.
pub open spec fn lifted_line(buf: Seq<u8>, i: FrameBufferInfo, x: int, y: int, bg: Rgb) -> Seq<u8>
    decreases i.width - x,
{
    if x >= i.width {
        buf
    } else {
        lifted_line(
            put(buf, i, x, y - CELL_H, pixel(buf, i, x, y, bg)),
            i,
            x + 1,
            y,
            bg,
        )
    }
}

/// The lines from `y` on copied one cell up.
pub open spec fn lifted(buf: Seq<u8>, i: FrameBufferInfo, y: int, bg: Rgb) -> Seq<u8>
    decreases i.height - y,
{
    if y >= i.height {
        buf
    } else {
        lifted(lifted_line(buf, i, 0, y, bg), i, y + 1, bg)
    }
}

/// The picture moved up by one row of cells, the bottom row cleared.
pub open spec fn scrolled(buf: Seq<u8>, i: FrameBufferInfo, bg: Rgb) -> Seq<u8> {
    filled(
        lifted(buf, i, CELL_H as int, bg),
        i,
        0,
        i.height - CELL_H,
        i.width as int,
        i.height as int,
        bg,
    )
}

fn lift_line(buf: &mut Vec<u8>, i: &FrameBufferInfo, y: usize, bg: Rgb)
    requires
        i.fits(old(buf)@.len()),
        y >= CELL_H,
    ensures
        final(buf)@ == lifted_line(old(buf)@, *i, 0, y as int, bg),
        final(buf)@.len() == old(buf)@.len(),
{
    let mut x: usize = 0;
    while x < i.width
        invariant
            i.fits(old(buf)@.len()),
            y >= CELL_H,
            buf@.len() == old(buf)@.len(),
            lifted_line(old(buf)@, *i, 0, y as int, bg) == lifted_line(
                buf@,
                *i,
                x as int,
                y as int,
                bg,
            ),
        decreases i.width - x,
    {
        let c = get_pixel(buf, i, x, y, bg);
        put_pixel(buf, i, x, y - CELL_H, c);
        x += 1;
    }
}

/// Shifts the picture up by one row, clearing the bottom row.
fn scroll_px(buf: &mut Vec<u8>, i: &FrameBufferInfo, bg: Rgb)
    requires
        i.fits(old(buf)@.len()),
    ensures
        final(buf)@ == scrolled(old(buf)@, *i, bg),
        final(buf)@.len() == old(buf)@.len(),
{
    let mut y: usize = CELL_H;
    while y < i.height
        invariant
            i.fits(old(buf)@.len()),
            CELL_H <= y,
            buf@.len() == old(buf)@.len(),
            lifted(old(buf)@, *i, CELL_H as int, bg) == lifted(buf@, *i, y as int, bg),
        decreases i.height - y,
    {
        lift_line(buf, i, y, bg);
        y += 1;
    }
    fill_rect(buf, i, 0, i.height - CELL_H, i.width, i.height, bg);
}

/// A glyph row drawn at `(x, y)`, from column `col` on.
pub open spec fn row_drawn(
    buf: Seq<u8>,
    i: FrameBufferInfo,
    x: int,
    y: int,
    row: u8,
    col: int,
    fg: Rgb,
) -> Seq<u8>
    decreases CELL_W - col,
{
    if col >= CELL_W {
        buf
    } else {
        row_drawn(
            if lit(row, col) {
                put(buf, i, x + col, y, fg)
            } else {
                buf
            },
            i,
            x,
            y,
            row,
            col + 1,
            fg,
        )
    }
}

/// A glyph drawn at `(x, y)`, from its row `r` on.
pub open spec fn glyph_drawn(
    buf: Seq<u8>,
    i: FrameBufferInfo,
    font: Seq<u8>,
    x: int,
    y: int,
    cell: Cell,
    r: int,
) -> Seq<u8>
    decreases CELL_H - r,
{
    if r >= CELL_H {
        buf
    } else {
        glyph_drawn(
            row_drawn(buf, i, x, y + r, glyph_row(font, cell.c, r), 0, cell.fg),
            i,
            font,
            x,
            y,
            cell,
            r + 1,
        )
    }
}

/// A cell drawn at its place on the screen.
#[verifier::opaque]
pub open spec fn cell_drawn(
    buf: Seq<u8>,
    i: FrameBufferInfo,
    font: Seq<u8>,
    bg: Rgb,
    sx: int,
    sy: int,
    cell: Cell,
) -> Seq<u8> {
    let x = sx * CELL_W;
    let y = sy * CELL_H;
    let cleared = filled(buf, i, x, y, x + CELL_W, y + CELL_H, bg);
    if cell.c == ' ' {
        cleared
    } else {
        glyph_drawn(cleared, i, font, x, y, cell, 0)
    }
}

fn draw_row(buf: &mut Vec<u8>, i: &FrameBufferInfo, x: usize, y: usize, row: u8, fg: Rgb)
    requires
        i.fits(old(buf)@.len()),
        x <= 0x10_0000,
    ensures
        final(buf)@ == row_drawn(old(buf)@, *i, x as int, y as int, row, 0, fg),
        final(buf)@.len() == old(buf)@.len(),
{
    let mut col: usize = 0;
    while col < CELL_W
        invariant
            i.fits(old(buf)@.len()),
            x <= 0x10_0000,
            buf@.len() == old(buf)@.len(),
            row_drawn(old(buf)@, *i, x as int, y as int, row, 0, fg) == row_drawn(
                buf@,
                *i,
                x as int,
                y as int,
                row,
                col as int,
                fg,
            ),
        decreases CELL_W - col,
    {
        if is_lit(row, col) {
            put_pixel(buf, i, x + col, y, fg);
        }
        col += 1;
    }
}

fn draw_cell(
    buf: &mut Vec<u8>,
    i: &FrameBufferInfo,
    font: &Font,
    bg: Rgb,
    sx: usize,
    sy: usize,
    cell: Cell,
)
    requires
        i.fits(old(buf)@.len()),
        sx <= COLS_MAX,
        sy <= SCR_ROWS,
    ensures
        final(buf)@ == cell_drawn(
            old(buf)@,
            *i,
            font.table@,
            bg,
            sx as int,
            sy as int,
            cell,
        ),
        final(buf)@.len() == old(buf)@.len(),
{
    reveal(cell_drawn);
    let x: usize = sx * CELL_W;
    let y: usize = sy * CELL_H;
    fill_rect(buf, i, x, y, x + CELL_W, y + CELL_H, bg);
    if cell.c != ' ' {
        let ghost cleared = buf@;
        let mut r: usize = 0;
        while r < CELL_H
            invariant
                i.fits(cleared.len()),
                x <= 0x10_0000,
                y <= 0x10_0000,
                buf@.len() == cleared.len(),
                glyph_drawn(cleared, *i, font.table@, x as int, y as int, cell, 0) == glyph_drawn(
                    buf@,
                    *i,
                    font.table@,
                    x as int,
                    y as int,
                    cell,
                    r as int,
                ),
            decreases CELL_H - r,
        {
            let row: u8 = font.row(cell.c, r);
            draw_row(buf, i, x, y + r, row, cell.fg);
            r += 1;
        }
    }
}

// ---------- the console ----------

pub struct Console {
    /// The bytes of the framebuffer.
    pub buffer: Vec<u8>,
    /// The shape of the framebuffer, once there is one.
    pub info: Option<FrameBufferInfo>,
    pub font: Font,
    pub fg: Rgb,
    pub bg: Rgb,
    /// The number of columns on the screen.
    pub cols: usize,
    /// The number of rows on the screen.
    pub vis: usize,
    pub cells: Vec<Cell>,
    /// The number of rows in the scrollback (0: empty).
    pub rows: usize,
    /// The number of rows scrolled back from the end (0: follow).
    pub view: usize,
    pub curs_col: usize,
}

#[verifier::ext_equal]
pub struct ConsoleView {
    pub buffer: Seq<u8>,
    pub info: Option<FrameBufferInfo>,
    pub font: Seq<u8>,
    pub fg: Rgb,
    pub bg: Rgb,
    pub cols: int,
    pub vis: int,
    pub cells: Seq<Cell>,
    pub rows: int,
    pub view: int,
    pub curs_col: int,
}

pub open spec fn lesser(a: int, b: int) -> int {
    if a < b {
        a
    } else {
        b
    }
}

impl ConsoleView {
    pub open spec fn wf(self) -> bool {
        &&& self.info matches Some(i) ==> i.fits(self.buffer.len())
        &&& 1 <= self.cols <= COLS_MAX
        &&& 1 <= self.vis <= SCR_ROWS
        &&& self.cells.len() == COLS_MAX * SCR_ROWS
        &&& 0 <= self.rows <= SCR_ROWS
        &&& 0 <= self.view
        &&& self.view == 0 || self.view <= self.rows - self.vis
        &&& 0 <= self.curs_col <= self.cols
    }

    /// The place of a cell in the scrollback.
    pub open spec fn index(self, row: int, col: int) -> int {
        row * COLS_MAX + col
    }

    /// The first row of the scrollback that is on the screen.
    pub open spec fn window_start(self) -> int {
        if self.rows >= self.vis {
            self.rows - self.vis - lesser(self.view, self.rows - self.vis)
        } else {
            0
        }
    }

    /// Where the cursor is on the screen.
    pub open spec fn cursor(self) -> (int, int) {
        let sx = lesser(self.curs_col, self.cols - 1);
        if self.rows == 0 {
            (sx, 0)
        } else {
            (
                sx,
                if self.rows - 1 >= self.vis {
                    self.vis - 1
                } else {
                    self.rows - 1
                },
            )
        }
    }

    pub open spec fn drawn(self, sx: int, sy: int, cell: Cell) -> ConsoleView {
        match self.info {
            None => self,
            Some(i) => ConsoleView {
                buffer: cell_drawn(self.buffer, i, self.font, self.bg, sx, sy, cell),
                ..self
            },
        }
    }

    pub open spec fn with_cell(self, at: int, cell: Cell) -> ConsoleView {
        ConsoleView { cells: self.cells.update(at, cell), ..self }
    }

    /// The scrollback without its oldest row.
    pub open spec fn oldest_dropped(self) -> ConsoleView {
        ConsoleView {
            cells: Seq::new(
                self.cells.len(),
                |k: int|
                    if k + COLS_MAX < self.cells.len() {
                        self.cells[k + COLS_MAX]
                    } else {
                        self.cells[k]
                    },
            ),
            rows: self.rows - 1,
            view: if self.view > 0 {
                self.view - 1
            } else {
                0
            },
            ..self
        }
    }

    /// One more row, empty; the oldest row goes when there is no place.
    pub open spec fn row_added(self) -> ConsoleView {
        let s = if self.rows >= SCR_ROWS {
            self.oldest_dropped()
        } else {
            self
        };
        let start = s.rows * COLS_MAX;
        ConsoleView {
            rows: s.rows + 1,
            cells: Seq::new(
                s.cells.len(),
                |k: int|
                    if start <= k < start + s.cols {
                        empty_cell()
                    } else {
                        s.cells[k]
                    },
            ),
            curs_col: 0,
            ..s
        }
    }

    pub open spec fn picture_scrolled(self) -> ConsoleView {
        match self.info {
            None => self,
            Some(i) => ConsoleView { buffer: scrolled(self.buffer, i, self.bg), ..self },
        }
    }

    /// The move to a new row: the picture scrolls when it follows the end and
    /// the screen is full.
    pub open spec fn new_line(self) -> ConsoleView {
        if self.rows == 0 {
            ConsoleView { rows: 1, curs_col: 0, ..self }
        } else if self.view == 0 && self.rows >= self.vis {
            self.row_added().picture_scrolled()
        } else {
            self.row_added()
        }
    }

    /// The rows of the screen from `sy` on drawn.
    pub open spec fn rows_painted(self, sy: int) -> ConsoleView
        decreases self.vis - sy,
    {
        let row = self.window_start() + sy;
        if sy < 0 || sy >= self.vis || row >= self.rows {
            self
        } else {
            let s = self.row_painted(row, sy, 0);
            if s.vis == self.vis {
                s.rows_painted(sy + 1)
            } else {
                s
            }
        }
    }

    /// The cells of a row of the screen from column `sx` on drawn.
    pub open spec fn row_painted(self, row: int, sy: int, sx: int) -> ConsoleView
        decreases self.cols - sx,
    {
        if sx < 0 || sx >= self.cols {
            self
        } else {
            let cell = self.cells[self.index(row, sx)];
            let s = if cell.c != ' ' {
                self.drawn(sx, sy, cell)
            } else {
                self
            };
            if s.cols == self.cols {
                s.row_painted(row, sy, sx + 1)
            } else {
                s
            }
        }
    }

    pub open spec fn picture_cleared(self) -> ConsoleView {
        match self.info {
            None => self,
            Some(i) => ConsoleView {
                buffer: filled(
                    self.buffer,
                    i,
                    0,
                    0,
                    i.width as int,
                    i.height as int,
                    self.bg,
                ),
                ..self
            },
        }
    }

    /// The whole screen drawn anew.
    pub open spec fn painted(self) -> ConsoleView {
        if self.info is None {
            self
        } else {
            self.picture_cleared().rows_painted(0)
        }
    }

    /// The screen and the scrollback emptied.
    pub open spec fn cleared(self) -> ConsoleView {
        if self.info is None {
            self
        } else {
            ConsoleView {
                cells: Seq::new(self.cells.len(), |k: int| empty_cell()),
                rows: 0,
                view: 0,
                curs_col: 0,
                ..self.picture_cleared()
            }
        }
    }

    pub open spec fn followed(self) -> ConsoleView {
        if self.view != 0 {
            ConsoleView { view: 0, ..self }.painted()
        } else {
            self
        }
    }

    /// The cell at the cursor of the last row emptied.
    pub open spec fn cursor_cell_cleared(self) -> ConsoleView {
        let (sx, sy) = self.cursor();
        self.with_cell(self.index(self.rows - 1, sx), empty_cell()).drawn(sx, sy, empty_cell())
    }

    /// A character at the cursor.
    pub open spec fn char_placed(self, c: char) -> ConsoleView {
        let s = if self.curs_col >= self.cols {
            self.new_line()
        } else {
            self
        };
        let t = if s.rows == 0 {
            ConsoleView { rows: 1, ..s }
        } else {
            s
        };
        let cell = Cell { c, fg: t.fg };
        let (sx, sy) = t.cursor();
        let u = t.with_cell(t.index(t.rows - 1, t.curs_col), cell).drawn(sx, sy, cell);
        ConsoleView { curs_col: lesser(u.curs_col + 1, u.cols), ..u }
    }

    /// A character written: output returns to the end of the scrollback.
    pub open spec fn written(self, c: char) -> ConsoleView {
        let s = self.followed();
        if c == '\n' {
            s.new_line().cursor_cell_cleared()
        } else if c == '\r' {
            ConsoleView { curs_col: 0, ..s }
        } else {
            s.char_placed(c)
        }
    }

    pub open spec fn all_written(self, text: Seq<char>) -> ConsoleView
        decreases text.len(),
    {
        if text.len() == 0 {
            self
        } else {
            self.all_written(text.drop_last()).written(text.last())
        }
    }

    /// The character before the cursor erased.
    pub open spec fn erased(self) -> ConsoleView {
        if self.rows == 0 || self.curs_col == 0 {
            self
        } else {
            let s = ConsoleView { curs_col: self.curs_col - 1, ..self };
            let (sx, sy) = s.cursor();
            s.with_cell(s.index(s.rows - 1, s.curs_col), empty_cell()).drawn(sx, sy, empty_cell())
        }
    }

    /// The largest number of rows that the view can scroll back.
    pub open spec fn view_limit(self) -> int {
        if self.rows > self.vis {
            self.rows - self.vis
        } else {
            0
        }
    }

    pub open spec fn viewed(self, view: int) -> ConsoleView {
        ConsoleView { view, ..self }.painted()
    }

    /// The view a screen further back.
    pub open spec fn paged_up(self) -> ConsoleView {
        self.viewed(lesser(self.view + self.vis, self.view_limit()))
    }

    /// The view a screen further on.
    pub open spec fn paged_down(self) -> ConsoleView {
        self.viewed(
            if self.view > self.vis {
                self.view - self.vis
            } else {
                0
            },
        )
    }
}

/// The two consoles differ in the picture alone.
pub open spec fn same_but_picture(a: ConsoleView, b: ConsoleView) -> bool {
    b == ConsoleView { buffer: b.buffer, ..a }
}

proof fn row_painted_only_draws(s: ConsoleView, row: int, sy: int, sx: int)
    ensures
        same_but_picture(s, s.row_painted(row, sy, sx)),
    decreases s.cols - sx,
{
    if 0 <= sx && sx < s.cols {
        let cell = s.cells[s.index(row, sx)];
        let t = if cell.c != ' ' {
            s.drawn(sx, sy, cell)
        } else {
            s
        };
        row_painted_only_draws(t, row, sy, sx + 1);
    }
}

proof fn rows_painted_only_draws(s: ConsoleView, sy: int)
    ensures
        same_but_picture(s, s.rows_painted(sy)),
    decreases s.vis - sy,
{
    let row = s.window_start() + sy;
    if 0 <= sy && sy < s.vis && row < s.rows {
        row_painted_only_draws(s, row, sy, 0);
        rows_painted_only_draws(s.row_painted(row, sy, 0), sy + 1);
    }
}

/// Painting changes the picture alone.
pub proof fn painting_only_draws(s: ConsoleView)
    ensures
        same_but_picture(s, s.painted()),
{
    if s.info is Some {
        rows_painted_only_draws(s.picture_cleared(), 0);
    }
}

/// The oldest row is on the screen after scrolling home, and the newest one
/// after scrolling to the end.
pub proof fn home_and_end(s: ConsoleView)
    requires
        s.wf(),
    ensures
        s.viewed(s.view_limit()).window_start() == 0,
        s.viewed(0).window_start() == s.view_limit(),
{
    painting_only_draws(ConsoleView { view: s.view_limit(), ..s });
    painting_only_draws(ConsoleView { view: 0, ..s });
}

/// A page down takes back a page up that did not reach the oldest row.
pub proof fn page_down_undoes_page_up(s: ConsoleView)
    requires
        s.wf(),
        s.view + s.vis <= s.view_limit(),
    ensures
        ({
            let up = s.paged_up();
            let down = up.paged_down();
            &&& up.window_start() == s.window_start() - s.vis
            &&& same_but_picture(s, down)
        }),
{
    let up = s.paged_up();
    painting_only_draws(ConsoleView { view: s.view + s.vis, ..s });
    painting_only_draws(ConsoleView { view: s.view, ..up });
}

impl Console {
    pub open spec fn seen(&self) -> ConsoleView {
        ConsoleView {
            buffer: self.buffer@,
            info: self.info,
            font: self.font.table@,
            fg: self.fg,
            bg: self.bg,
            cols: self.cols as int,
            vis: self.vis as int,
            cells: self.cells@,
            rows: self.rows as int,
            view: self.view as int,
            curs_col: self.curs_col as int,
        }
    }

    pub open spec fn wf(&self) -> bool {
        self.seen().wf()
    }

    /// A console without a screen.
    pub fn empty(font: Font) -> (c: Console)
        ensures
            c.wf(),
            c.seen() == (ConsoleView {
                buffer: Seq::empty(),
                info: None,
                font: font.table@,
                fg: fg_color(),
                bg: bg_color(),
                cols: 80,
                vis: 25,
                cells: Seq::new((COLS_MAX * SCR_ROWS) as nat, |k: int| empty_cell()),
                rows: 0,
                view: 0,
                curs_col: 0,
            }),
    {
        let mut cells: Vec<Cell> = Vec::new();
        let mut k: usize = 0;
        while k < COLS_MAX * SCR_ROWS
            invariant
                k <= COLS_MAX * SCR_ROWS,
                cells@ == Seq::new(k as nat, |j: int| empty_cell()),
            decreases COLS_MAX * SCR_ROWS - k,
        {
            cells.push(empty_cell());
            k += 1;
            assert(cells@ =~= Seq::new(k as nat, |j: int| empty_cell()));
        }
        let c = Console {
            buffer: Vec::new(),
            info: None,
            font,
            fg: fg_color(),
            bg: bg_color(),
            cols: 80,
            vis: 25,
            cells,
            rows: 0,
            view: 0,
            curs_col: 0,
        };
        assert(c.buffer@ =~= Seq::<u8>::empty());
        c
    }

    fn draw_cell_at(&mut self, sx: usize, sy: usize, cell: Cell)
        requires
            old(self).wf(),
            sx <= COLS_MAX,
            sy <= SCR_ROWS,
        ensures
            final(self).wf(),
            final(self).seen() == old(self).seen().drawn(sx as int, sy as int, cell),
    {
        if let Some(i) = self.info {
            draw_cell(&mut self.buffer, &i, &self.font, self.bg, sx, sy, cell);
        }
    }

    fn cursor_location(&self) -> (r: (usize, usize))
        requires
            self.wf(),
        ensures
            (r.0 as int, r.1 as int) == self.seen().cursor(),
            r.0 < self.cols,
            r.1 < SCR_ROWS,
    {
        let sx: usize = if self.curs_col < self.cols - 1 {
            self.curs_col
        } else {
            self.cols - 1
        };
        if self.rows == 0 {
            return (sx, 0);
        }
        let last: usize = self.rows - 1;
        (
            sx,
            if last >= self.vis {
                self.vis - 1
            } else {
                last
            },
        )
    }

    fn drop_oldest(&mut self)
        requires
            old(self).wf(),
            old(self).rows > 0,
            old(self).view == 0,
        ensures
            final(self).wf(),
            final(self).seen() == old(self).seen().oldest_dropped(),
    {
        let n: usize = COLS_MAX * SCR_ROWS;
        let mut k: usize = 0;
        while k < n - COLS_MAX
            invariant
                n == COLS_MAX * SCR_ROWS,
                k <= n - COLS_MAX,
                self.cells@.len() == n,
                old(self).cells@.len() == n,
                self.seen() == (ConsoleView { cells: self.cells@, ..old(self).seen() }),
                forall|j: int| 0 <= j < k ==> #[trigger] self.cells@[j] == old(self).cells@[j
                    + COLS_MAX],
                forall|j: int| k <= j < n ==> #[trigger] self.cells@[j] == old(self).cells@[j],
            decreases n - COLS_MAX - k,
        {
            let c: Cell = self.cells[k + COLS_MAX];
            self.cells.set(k, c);
            k += 1;
        }
        self.rows = self.rows - 1;
        assert(self.cells@ =~= old(self).seen().oldest_dropped().cells);
    }

    fn add_row(&mut self)
        requires
            old(self).wf(),
            old(self).rows > 0,
            old(self).view == 0,
        ensures
            final(self).wf(),
            final(self).seen() == old(self).seen().row_added(),
    {
        if self.rows >= SCR_ROWS {
            self.drop_oldest();
        }
        let ghost s = self.seen();
        let start: usize = self.rows * COLS_MAX;
        let mut k: usize = 0;
        while k < self.cols
            invariant
                s.wf(),
                s.rows < SCR_ROWS,
                start == s.rows * COLS_MAX,
                k <= self.cols,
                self.seen() == (ConsoleView { cells: self.cells@, ..s }),
                self.cells@.len() == s.cells.len(),
                forall|j: int|
                    0 <= j < s.cells.len() ==> #[trigger] self.cells@[j] == if start <= j < start
                        + k {
                        empty_cell()
                    } else {
                        s.cells[j]
                    },
            decreases self.cols - k,
        {
            self.cells.set(start + k, empty_cell());
            k += 1;
        }
        self.rows = self.rows + 1;
        self.curs_col = 0;
        assert(self.seen() =~= old(self).seen().row_added());
    }

    /// Moves to a new row. When the view follows the end and the screen is
    /// full, the picture scrolls up by one row.
    fn new_line(&mut self)
        requires
            old(self).wf(),
            old(self).view == 0,
        ensures
            final(self).wf(),
            final(self).seen() == old(self).seen().new_line(),
            final(self).rows > 0,
            final(self).curs_col == 0,
            final(self).view == 0,
    {
        if self.rows == 0 {
            self.rows = 1;
            self.curs_col = 0;
            return;
        }
        let need_px: bool = self.view == 0 && self.rows >= self.vis;
        self.add_row();
        if need_px {
            if let Some(i) = self.info {
                scroll_px(&mut self.buffer, &i, self.bg);
            }
        }
    }

    fn window_start(&self) -> (a: usize)
        requires
            self.wf(),
        ensures
            a == self.seen().window_start(),
    {
        if self.rows >= self.vis {
            let limit: usize = self.rows - self.vis;
            let back: usize = if self.view < limit {
                self.view
            } else {
                limit
            };
            limit - back
        } else {
            0
        }
    }

    fn paint_row(&mut self, row: usize, sy: usize)
        requires
            old(self).wf(),
            row < old(self).rows,
            sy < old(self).vis,
        ensures
            final(self).wf(),
            final(self).seen() == old(self).seen().row_painted(row as int, sy as int, 0),
            final(self).seen() == (ConsoleView {
                buffer: final(self).buffer@,
                ..old(self).seen()
            }),
    {
        let mut sx: usize = 0;
        while sx < self.cols
            invariant
                self.wf(),
                row < self.rows,
                sy < self.vis,
                self.seen() == (ConsoleView { buffer: self.buffer@, ..old(self).seen() }),
                old(self).seen().row_painted(row as int, sy as int, 0) == self.seen().row_painted(
                    row as int,
                    sy as int,
                    sx as int,
                ),
            decreases self.cols - sx,
        {
            let cell: Cell = self.cells[row * COLS_MAX + sx];
            if cell.c != ' ' {
                self.draw_cell_at(sx, sy, cell);
            }
            sx += 1;
        }
    }

    fn paint(&mut self)
        requires
            old(self).wf(),
        ensures
            final(self).wf(),
            final(self).seen() == old(self).seen().painted(),
            final(self).seen() == (ConsoleView {
                buffer: final(self).buffer@,
                ..old(self).seen()
            }),
    {
        if let Some(i) = self.info {
            fill_rect(&mut self.buffer, &i, 0, 0, i.width, i.height, self.bg);
            let ghost s = self.seen();
            let a: usize = self.window_start();
            let mut sy: usize = 0;
            while sy < self.vis && a + sy < self.rows
                invariant
                    self.wf(),
                    sy <= self.vis,
                    a == self.seen().window_start(),
                    a <= SCR_ROWS,
                    self.seen() == (ConsoleView { buffer: self.buffer@, ..s }),
                    s.rows_painted(0) == self.seen().rows_painted(sy as int),
                decreases self.vis - sy,
            {
                self.paint_row(a + sy, sy);
                sy += 1;
            }
        }
    }

    fn clear_screen(&mut self)
        requires
            old(self).wf(),
        ensures
            final(self).wf(),
            final(self).seen() == old(self).seen().cleared(),
    {
        if let Some(i) = self.info {
            fill_rect(&mut self.buffer, &i, 0, 0, i.width, i.height, self.bg);
            let ghost s = self.seen();
            let n: usize = self.cells.len();
            let mut k: usize = 0;
            while k < n
                invariant
                    k <= n,
                    n == s.cells.len(),
                    self.cells@.len() == n,
                    self.seen() == (ConsoleView { cells: self.cells@, ..s }),
                    forall|j: int| 0 <= j < k ==> #[trigger] self.cells@[j] == empty_cell(),
                decreases n - k,
            {
                self.cells.set(k, empty_cell());
                k += 1;
            }
            self.rows = 0;
            self.view = 0;
            self.curs_col = 0;
            assert(self.seen() =~= old(self).seen().cleared());
        }
    }

    fn put_char(&mut self, c: char)
        requires
            old(self).wf(),
            old(self).view == 0,
        ensures
            final(self).wf(),
            final(self).seen() == old(self).seen().char_placed(c),
    {
        if self.curs_col >= self.cols {
            self.new_line();
        }
        if self.rows == 0 {
            self.rows = 1;
        }
        let ghost t = self.seen();
        let at: usize = (self.rows - 1) * COLS_MAX + self.curs_col;
        let cell = Cell { c, fg: self.fg };
        let (sx, sy) = self.cursor_location();
        self.cells.set(at, cell);
        assert(self.seen() =~= t.with_cell(at as int, cell));
        self.draw_cell_at(sx, sy, cell);
        self.curs_col = if self.curs_col + 1 < self.cols {
            self.curs_col + 1
        } else {
            self.cols
        };
    }

    pub fn write_char(&mut self, c: char)
        requires
            old(self).wf(),
        ensures
            final(self).wf(),
            final(self).seen() == old(self).seen().written(c),
    {
        if self.view != 0 {
            self.view = 0;
            self.paint();
        }
        assert(self.seen() == old(self).seen().followed());
        assert(self.view == 0);
        if c == '\n' {
            self.new_line();
            let (sx, sy) = self.cursor_location();
            let ghost s = self.seen();
            let at: usize = (self.rows - 1) * COLS_MAX + sx;
            self.cells.set(at, empty_cell());
            assert(self.seen() =~= s.with_cell(at as int, empty_cell()));
            self.draw_cell_at(sx, sy, empty_cell());
        } else if c == '\r' {
            self.curs_col = 0;
        } else {
            self.put_char(c);
        }
    }

    /// Writes a text.
    pub fn write_str(&mut self, text: &[char])
        requires
            old(self).wf(),
        ensures
            final(self).wf(),
            final(self).seen() == old(self).seen().all_written(text@),
    {
        let mut k: usize = 0;
        assert(text@.take(0) =~= Seq::<char>::empty());
        while k < text.len()
            invariant
                k <= text@.len(),
                self.wf(),
                self.seen() == old(self).seen().all_written(text@.take(k as int)),
            decreases text@.len() - k,
        {
            self.write_char(text[k]);
            k += 1;
            assert(text@.take(k as int).drop_last() =~= text@.take(k - 1));
        }
        assert(text@.take(k as int) =~= text@);
    }
}

// ---------- the interface ----------

pub open spec fn clamped(v: int, lo: int, hi: int) -> int {
    if v < lo {
        lo
    } else if v > hi {
        hi
    } else {
        v
    }
}

/// Gives the console its screen, and clears it.
pub fn init(con: &mut Console, buffer: Vec<u8>, i: FrameBufferInfo)
    requires
        old(con).wf(),
        i.fits(buffer@.len()),
    ensures
        final(con).wf(),
        final(con).seen() == (ConsoleView {
            buffer: buffer@,
            info: Some(i),
            cols: clamped(i.width as int / 8, 1, 256),
            vis: clamped(i.height as int / 16, 1, 2000),
            rows: 0,
            view: 0,
            curs_col: 0,
            ..old(con).seen()
        }).cleared(),
        8 * final(con).cols <= i.width < 8 * final(con).cols + 8 || (i.width < 8 && final(con).cols == 1)
            || (i.width >= 2048 && final(con).cols == 256),
        16 * final(con).vis <= i.height < 16 * final(con).vis + 16 || (i.height >= 32000
            && final(con).vis == 2000),
        final(con).rows == 0 && final(con).view == 0 && final(con).curs_col == 0,
{
    con.buffer = buffer;
    con.info = Some(i);
    let cols: usize = i.width / CELL_W;
    con.cols = if cols < 1 {
        1
    } else if cols > COLS_MAX {
        COLS_MAX
    } else {
        cols
    };
    let vis: usize = i.height / CELL_H;
    con.vis = if vis < 1 {
        1
    } else if vis > SCR_ROWS {
        SCR_ROWS
    } else {
        vis
    };
    con.rows = 0;
    con.view = 0;
    con.curs_col = 0;
    con.clear_screen();
}

pub fn set_colors(con: &mut Console, fg: Rgb, bg: Rgb)
    requires
        old(con).wf(),
    ensures
        final(con).wf(),
        final(con).seen() == (ConsoleView { fg, bg, ..old(con).seen() }),
{
    con.fg = fg;
    con.bg = bg;
}

pub fn set_fg(con: &mut Console, fg: Rgb)
    requires
        old(con).wf(),
    ensures
        final(con).wf(),
        final(con).seen() == (ConsoleView { fg, ..old(con).seen() }),
{
    con.fg = fg;
}

pub fn info(con: &Console) -> (r: Option<FrameBufferInfo>)
    ensures
        r == con.info,
{
    con.info
}

/// Erases the character before the cursor.
pub fn backspace(con: &mut Console)
    requires
        old(con).wf(),
    ensures
        final(con).wf(),
        final(con).seen() == old(con).seen().erased(),
{
    if con.rows == 0 || con.curs_col == 0 {
        return;
    }
    con.curs_col = con.curs_col - 1;
    let ghost s = con.seen();
    let at: usize = (con.rows - 1) * COLS_MAX + con.curs_col;
    let (sx, sy) = con.cursor_location();
    con.cells.set(at, empty_cell());
    assert(con.seen() =~= s.with_cell(at as int, empty_cell()));
    con.draw_cell_at(sx, sy, empty_cell());
}

pub fn reset_colors(con: &mut Console)
    requires
        old(con).wf(),
    ensures
        final(con).wf(),
        final(con).seen() == (ConsoleView { fg: fg_color(), bg: bg_color(), ..old(con).seen() }),
{
    con.fg = fg_color();
    con.bg = bg_color();
}

pub fn clear(con: &mut Console)
    requires
        old(con).wf(),
    ensures
        final(con).wf(),
        final(con).seen() == old(con).seen().cleared(),
{
    con.clear_screen();
}

/// Scrolls back by a screen.
pub fn tty_page_up(con: &mut Console)
    requires
        old(con).wf(),
    ensures
        final(con).wf(),
        final(con).seen() == old(con).seen().paged_up(),
{
    let limit: usize = if con.rows > con.vis {
        con.rows - con.vis
    } else {
        0
    };
    let up: usize = con.view + con.vis;
    con.view = if up < limit {
        up
    } else {
        limit
    };
    con.paint();
}

/// Scrolls forward by a screen.
pub fn tty_page_down(con: &mut Console)
    requires
        old(con).wf(),
    ensures
        final(con).wf(),
        final(con).seen() == old(con).seen().paged_down(),
{
    con.view = if con.view > con.vis {
        con.view - con.vis
    } else {
        0
    };
    con.paint();
}

/// Scrolls back to the oldest row.
pub fn tty_home(con: &mut Console)
    requires
        old(con).wf(),
    ensures
        final(con).wf(),
        final(con).seen() == old(con).seen().viewed(old(con).seen().view_limit()),
{
    con.view = if con.rows > con.vis {
        con.rows - con.vis
    } else {
        0
    };
    con.paint();
}

/// Scrolls to the end.
pub fn tty_end(con: &mut Console)
    requires
        old(con).wf(),
    ensures
        final(con).wf(),
        final(con).seen() == old(con).seen().viewed(0),
{
    con.view = 0;
    con.paint();
}

} // verus!
