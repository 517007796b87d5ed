//! The terminal: a character-grid cursor, the engine that draws records on
//! the display, and the view that ties the record buffer to the engine.

use crate::display::{
    area_transfers, command_transfers, handed, spec_init_commands, Command, Display, DisplayRotation, Transfer,
    FRAME_COLUMNS, FRAME_ROWS, PIXELS_PER_COLUMN,
};
use crate::interface::DisplayInterface;
use crate::layout::{compose, lemma_screen_rows, screen_cells, MAX_GRID, MAX_RECORD_LEN};
use crate::ringbuffer::{Iter, RingView, Ringbuffer};
use vstd::prelude::*;
use vstd::string::StringSliceAdditionalSpecFns;

verus! {

/// Largest pixel address that the draw window can take.
pub const MAX_ADDRESS: usize = 255;

/// Spaces that a tab stands for unless set otherwise.
pub const DEFAULT_TAB_WIDTH: u8 = 4;

/// Bytes of text that a terminal keeps.
pub const TERMINAL_BUFFER_SIZE: usize = 512;

/// Contains the new row that the cursor has wrapped around to
#[derive(Clone, Copy, Debug, PartialEq, Eq, Structural)]
pub struct CursorWrapEvent(pub usize);

/// A pixel window: top-left corner and exclusive bottom-right corner, columns
/// in addressable units.
pub type Window = ((u8, u8), (u8, u8));

/// The grid's cells have non-empty windows with 8-bit addresses.
pub open spec fn grid_addressable(width: usize, height: usize, char_size: (usize, usize)) -> bool {
    &&& width >= 1
    &&& height >= 1
    &&& char_size.0 >= PIXELS_PER_COLUMN
    &&& char_size.1 >= 1
    &&& width * char_size.0 / PIXELS_PER_COLUMN as int <= MAX_ADDRESS
    &&& height * char_size.1 <= MAX_ADDRESS
}

/// Pixel window of the cell at `col`, `row` (rows counted from the top).
pub open spec fn char_box(col: int, row: int, char_size: (usize, usize)) -> Window {
    (
        ((col * char_size.0 / PIXELS_PER_COLUMN as int) as u8, (row * char_size.1) as u8),
        (((col + 1) * char_size.0 / PIXELS_PER_COLUMN as int) as u8, ((row + 1) * char_size.1) as u8),
    )
}

/// Windows for `n` cells laid out row by row on the bottom `n / width` rows
/// of a grid of `height` rows.
pub open spec fn window_plan(n: int, width: int, height: int, char_size: (usize, usize)) -> Seq<
    Window,
> {
    Seq::new(n as nat, |k: int| char_box(k % width, height - n / width + k / width, char_size))
}

/// The window of one cell; it is never empty.
fn cell_box(col: usize, row: usize, width: usize, height: usize, char_size: (usize, usize)) -> (r:
    Window)
    requires
        col < width,
        row < height,
        grid_addressable(width, height, char_size),
    ensures
        r == char_box(col as int, row as int, char_size),
        r.0.0 < r.1.0,
        r.0.1 < r.1.1,
{
    let (chr_w, chr_h) = char_size;
    proof {
        assert((col + 1) * chr_w <= width * chr_w) by (nonlinear_arith)
            requires
                col + 1 <= width,
        ;
        assert((row + 1) * chr_h <= height * chr_h) by (nonlinear_arith)
            requires
                row + 1 <= height,
        ;
        assert(col * chr_w + chr_w == (col + 1) * chr_w) by (nonlinear_arith);
        assert(row * chr_h + chr_h == (row + 1) * chr_h) by (nonlinear_arith);
    }
    let x0 = col * chr_w / PIXELS_PER_COLUMN;
    let x1 = (col + 1) * chr_w / PIXELS_PER_COLUMN;
    let y0 = row * chr_h;
    let y1 = (row + 1) * chr_h;
    ((x0 as u8, y0 as u8), (x1 as u8, y1 as u8))
}

/// The windows of `n` cells that fill the bottom `n / width` rows of the grid,
/// row by row.
pub fn cell_windows(n: usize, width: usize, height: usize, char_size: (usize, usize)) -> (w: Vec<
    Window,
>)
    requires
        grid_addressable(width, height, char_size),
        n % width == 0,
        n / width <= height,
    ensures
        w@ == window_plan(n as int, width as int, height as int, char_size),
        forall|k: int| 0 <= k < n ==> (#[trigger] w@[k]).0.0 < w@[k].1.0 && w@[k].0.1 < w@[k].1.1,
{
    let rows = n / width;
    let top = height - rows;
    proof {
        vstd::arithmetic::div_mod::lemma_fundamental_div_mod(n as int, width as int);
    }
    let mut w: Vec<Window> = Vec::new();
    let mut r: usize = 0;
    while r < rows
        invariant
            grid_addressable(width, height, char_size),
            rows == n / width,
            top == height - rows,
            n == width * rows,
            r <= rows,
            w@.len() == r * width,
            r * width <= rows * width,
            forall|k: int| 0 <= k < w@.len() ==> #[trigger] w@[k] == window_plan(
                n as int,
                width as int,
                height as int,
                char_size,
            )[k],
            forall|k: int| 0 <= k < w@.len() ==> (#[trigger] w@[k]).0.0 < w@[k].1.0 && w@[k].0.1
                < w@[k].1.1,
        decreases rows - r,
    {
        let mut c: usize = 0;
        proof {
            assert(r * width + width <= rows * width) by (nonlinear_arith)
                requires
                    r < rows,
            ;
            assert(rows * width == n) by (nonlinear_arith)
                requires
                    n == width * rows,
            ;
        }
        while c < width
            invariant
                grid_addressable(width, height, char_size),
                rows == n / width,
                top == height - rows,
                n == width * rows,
                r < rows,
                r * width + width <= rows * width,
                c <= width,
                w@.len() == r * width + c,
                w@.len() <= n,
                forall|k: int| 0 <= k < w@.len() ==> #[trigger] w@[k] == window_plan(
                    n as int,
                    width as int,
                    height as int,
                    char_size,
                )[k],
                forall|k: int| 0 <= k < w@.len() ==> (#[trigger] w@[k]).0.0 < w@[k].1.0 && w@[k].0.1
                    < w@[k].1.1,
            decreases width - c,
        {
            let b = cell_box(c, top + r, width, height, char_size);
            proof {
                let k = r * width + c;
                vstd::arithmetic::div_mod::lemma_fundamental_div_mod_converse(
                    k as int,
                    width as int,
                    r as int,
                    c as int,
                );
            }
            w.push(b);
            c = c + 1;
        }
        r = r + 1;
        assert(w@.len() == r * width) by (nonlinear_arith)
            requires
                w@.len() == (r - 1) * width + width,
        ;
        assert(r * width <= rows * width) by (nonlinear_arith)
            requires
                r <= rows,
        ;
    }
    assert(rows * width == n) by (nonlinear_arith)
        requires
            n == width * rows,
    ;
    assert(w@ =~= window_plan(n as int, width as int, height as int, char_size));
    w
}

/// Position on a grid of character cells.
pub struct Cursor {
    col: usize,
    row: usize,
    width: usize,
    height: usize,
    char_size: (usize, usize),
}

impl Cursor {
    pub closed spec fn spec_col(&self) -> usize {
        self.col
    }

    pub closed spec fn spec_row(&self) -> usize {
        self.row
    }

    pub closed spec fn spec_width(&self) -> usize {
        self.width
    }

    pub closed spec fn spec_height(&self) -> usize {
        self.height
    }

    pub closed spec fn spec_char_size(&self) -> (usize, usize) {
        self.char_size
    }

    /// The column lies on the grid (at 0 on an empty one), and the grid fits
    /// in `usize` pixels.
    pub open spec fn wf(&self) -> bool {
        &&& (self.spec_width() == 0 && self.spec_col() == 0) || self.spec_col()
            < self.spec_width()
        &&& self.spec_width() * self.spec_char_size().0 <= usize::MAX
        &&& self.spec_height() * self.spec_char_size().1 <= usize::MAX
    }

    /// Grid size and cell size are the same in both.
    pub open spec fn same_grid(&self, other: &Cursor) -> bool {
        &&& self.spec_width() == other.spec_width()
        &&& self.spec_height() == other.spec_height()
        &&& self.spec_char_size() == other.spec_char_size()
    }

    /// The row after the current one, back to the top after the last.
    pub open spec fn next_row(&self) -> usize {
        if self.spec_height() == 0 {
            0
        } else {
            ((self.spec_row() + 1) % (self.spec_height() as int)) as usize
        }
    }

    /// A cursor at (0, 0) of a grid of `display_dimensions` divided by
    /// `char_size`.
    pub fn new(char_size: (usize, usize), display_dimensions: (usize, usize)) -> (c: Cursor)
        requires
            char_size.0 >= 1,
            char_size.1 >= 1,
        ensures
            c.wf(),
            c.spec_col() == 0,
            c.spec_row() == 0,
            c.spec_char_size() == char_size,
            c.spec_width() == display_dimensions.0 / char_size.0,
            c.spec_height() == display_dimensions.1 / char_size.1,
    {
        let (chr_width, chr_height) = char_size;
        let (w, h) = display_dimensions;
        proof {
            vstd::arithmetic::div_mod::lemma_fundamental_div_mod(w as int, chr_width as int);
            vstd::arithmetic::div_mod::lemma_fundamental_div_mod(h as int, chr_height as int);
            assert((w / chr_width) * chr_width <= w) by (nonlinear_arith)
                requires
                    w == chr_width * (w / chr_width) + w % chr_width,
                    w % chr_width >= 0,
            ;
            assert((h / chr_height) * chr_height <= h) by (nonlinear_arith)
                requires
                    h == chr_height * (h / chr_height) + h % chr_height,
                    h % chr_height >= 0,
            ;
        }
        Cursor { col: 0, row: 0, width: w / chr_width, height: h / chr_height, char_size }
    }

    /// Advances the cursor by one cell. At the end of a row it goes to the
    /// start of the next row (of the top row after the last) and reports the
    /// row it wrapped to.
    pub fn advance(&mut self) -> (r: Option<CursorWrapEvent>)
        requires
            old(self).wf(),
        ensures
            final(self).wf(),
            final(self).same_grid(old(self)),
            old(self).spec_col() + 1 < old(self).spec_width() ==> r is None && final(self).spec_col()
                == old(self).spec_col() + 1 && final(self).spec_row() == old(self).spec_row(),
            old(self).spec_col() + 1 >= old(self).spec_width() ==> r == Some(
                CursorWrapEvent(old(self).next_row()),
            ) && final(self).spec_col() == 0 && final(self).spec_row() == old(self).next_row(),
    {
        if self.col + 1 < self.width {
            self.col = self.col + 1;
            None
        } else {
            self.row = if self.height == 0 {
                0
            } else {
                (self.row % self.height + 1) % self.height
            };
            proof {
                let h = self.height as int;
                let x = old(self).row as int;
                if h > 0 {
                    vstd::arithmetic::div_mod::lemma_add_mod_noop(x, 1, h);
                    if h > 1 {
                        vstd::arithmetic::div_mod::lemma_small_mod(1, h as nat);
                    } else {
                        vstd::arithmetic::div_mod::lemma_fundamental_div_mod_converse(x + 1, 1, x + 1, 0);
                        vstd::arithmetic::div_mod::lemma_fundamental_div_mod_converse(x % 1 + 1, 1, x % 1 + 1, 0);
                        vstd::arithmetic::div_mod::lemma_fundamental_div_mod_converse(1, 1, 1, 0);
                    }
                }
            }
            self.col = 0;
            Some(CursorWrapEvent(self.row))
        }
    }

    /// Moves the cursor to the start of the next row and reports that row.
    pub fn advance_line(&mut self) -> (r: CursorWrapEvent)
        requires
            old(self).wf(),
            old(self).spec_row() < usize::MAX,
        ensures
            final(self).wf(),
            final(self).same_grid(old(self)),
            final(self).spec_col() == 0,
            final(self).spec_row() == old(self).spec_row() + 1,
            r == CursorWrapEvent((old(self).spec_row() + 1) as usize),
    {
        self.row = self.row + 1;
        self.col = 0;
        CursorWrapEvent(self.row)
    }

    /// Pixel window of the whole grid row `row - offset`, rows being counted
    /// upward from the bottom row.
    pub fn get_line_box(&self, offset: usize) -> (r: Window)
        requires
            self.wf(),
            offset <= self.spec_row() < self.spec_height(),
            self.spec_height() * self.spec_char_size().1 <= MAX_ADDRESS,
            self.spec_width() * self.spec_char_size().0 / PIXELS_PER_COLUMN as int <= MAX_ADDRESS,
        ensures
            r == (
                (
                    0u8,
                    ((self.spec_height() - 1 - (self.spec_row() - offset))
                        * self.spec_char_size().1) as u8,
                ),
                (
                    (self.spec_width() * self.spec_char_size().0 / PIXELS_PER_COLUMN as int) as u8,
                    ((self.spec_height() - (self.spec_row() - offset)) * self.spec_char_size().1) as u8,
                ),
            ),
    {
        let (chr_w, chr_h) = self.char_size;
        let line = self.height - 1 - (self.row - offset);
        proof {
            assert((line + 1) * chr_h <= self.height * chr_h) by (nonlinear_arith)
                requires
                    line + 1 <= self.height,
            ;
            assert(line * chr_h + chr_h == (line + 1) * chr_h) by (nonlinear_arith);
        }
        let x_end = self.width * chr_w / PIXELS_PER_COLUMN;
        let y_start = line * chr_h;
        let y_end = y_start + chr_h;
        ((0u8, y_start as u8), (x_end as u8, y_end as u8))
    }

    /// Pixel window of the cell under the cursor; it is never empty.
    pub fn get_char_box(&self) -> (r: Window)
        requires
            self.wf(),
            self.spec_row() < self.spec_height(),
            grid_addressable(self.spec_width(), self.spec_height(), self.spec_char_size()),
        ensures
            r == char_box(self.spec_col() as int, self.spec_row() as int, self.spec_char_size()),
            r.0.0 < r.1.0,
            r.0.1 < r.1.1,
    {
        cell_box(self.col, self.row, self.width, self.height, self.char_size)
    }

    /// Sets the position of the logical cursor arbitrarily.
    /// The position will be capped at the maximal possible position.
    pub fn set_position(&mut self, col: usize, row: usize)
        requires
            old(self).wf(),
        ensures
            final(self).wf(),
            final(self).same_grid(old(self)),
            final(self).spec_col() == if col < old(self).spec_width() {
                col
            } else if old(self).spec_width() == 0 {
                0
            } else {
                (old(self).spec_width() - 1) as usize
            },
            final(self).spec_row() == if row < old(self).spec_height() {
                row
            } else if old(self).spec_height() == 0 {
                0
            } else {
                (old(self).spec_height() - 1) as usize
            },
    {
        self.col = if col < self.width {
            col
        } else if self.width == 0 {
            0
        } else {
            self.width - 1
        };
        self.row = if row < self.height {
            row
        } else if self.height == 0 {
            0
        } else {
            self.height - 1
        };
    }

    /// Gets the position of the logical cursor on screen in (col, row) order
    pub fn get_position(&self) -> (r: (usize, usize))
        ensures
            r == (self.spec_col(), self.spec_row()),
    {
        (self.col, self.row)
    }

    /// Columns and rows of the grid.
    pub fn grid_size(&self) -> (r: (usize, usize))
        ensures
            r == (self.spec_width(), self.spec_height()),
    {
        (self.width, self.height)
    }
}

/// A fixed-size bitmap font.
pub trait TerminalFont {
    /// Width and height of a character cell, in pixels.
    fn char_size(&self) -> (usize, usize);

    /// Pixel data of the glyph for `chr`, in the display's format.
    fn get_char(&self, chr: u8) -> Vec<u8>;
}

/// The transfers of `clear`: the whole frame memory as the window, then one
/// row of zeros for each of its rows.
pub open spec fn clear_transfers() -> Seq<Transfer> {
    area_transfers((0, 0), (FRAME_COLUMNS as u8, FRAME_ROWS as u8)) + Seq::new(
        FRAME_ROWS as nat,
        |i: int| Transfer::Data(Seq::new(FRAME_COLUMNS as nat, |j: int| 0u8)),
    )
}

/// `seg` sets, for each window in turn, the window and then sends one glyph's
/// data.
pub open spec fn draws_into(seg: Seq<Transfer>, windows: Seq<Window>) -> bool {
    &&& seg.len() == 3 * windows.len()
    &&& forall|k: int|
        0 <= k < windows.len() ==> {
            &&& seg[3 * k] == area_transfers(windows[k].0, windows[k].1)[0]
            &&& seg[3 * k + 1] == area_transfers(windows[k].0, windows[k].1)[1]
            &&& #[trigger] seg[3 * k + 2] is Data
        }
}

/// The log `after` is `before`, then `clear`'s transfers, then the drawing of
/// one glyph into each of `windows`.
pub open spec fn clears_then_draws(
    before: Seq<Transfer>,
    after: Seq<Transfer>,
    windows: Seq<Window>,
) -> bool {
    let base = (before.len() + clear_transfers().len()) as int;
    &&& after.len() >= base
    &&& after.subrange(0, base) == before + clear_transfers()
    &&& draws_into(after.subrange(base, after.len() as int), windows)
}

/// Draws text records on a display, one glyph per grid cell. It keeps, as
/// ghost state, the codes of the glyphs that it has drawn.
pub struct RenderEngine<DI, F> {
    display: Display<DI>,
    font: F,
    cursor: Cursor,
    wrap: bool,
    tab_width: u8,
    glyphs: Ghost<Seq<u8>>,
}

impl<DI: DisplayInterface, F: TerminalFont> RenderEngine<DI, F> {
    pub closed spec fn wf(&self) -> bool {
        self.cursor.wf()
    }

    /// Columns and rows of the character grid.
    pub closed spec fn spec_grid(&self) -> (usize, usize) {
        (self.cursor.spec_width(), self.cursor.spec_height())
    }

    pub closed spec fn spec_position(&self) -> (usize, usize) {
        (self.cursor.spec_col(), self.cursor.spec_row())
    }

    pub closed spec fn spec_wrap(&self) -> bool {
        self.wrap
    }

    pub closed spec fn spec_tab_width(&self) -> u8 {
        self.tab_width
    }

    /// Cell size that the font reported when the engine was made.
    pub closed spec fn spec_char_size(&self) -> (usize, usize) {
        self.cursor.spec_char_size()
    }

    pub closed spec fn spec_rotation(&self) -> DisplayRotation {
        self.display.spec_rotation()
    }

    /// The transfers handed to the display so far.
    pub closed spec fn log(&self) -> Seq<Transfer> {
        self.display.log()
    }

    /// The codes of the glyphs drawn so far, in order.
    pub closed spec fn drawn(&self) -> Seq<u8> {
        self.glyphs@
    }

    /// The grid can be drawn on: its cells have non-empty 8-bit windows.
    pub open spec fn addressable(&self) -> bool {
        grid_addressable(self.spec_grid().0, self.spec_grid().1, self.spec_char_size())
    }

    /// The cells that rendering `records` (newest first) draws, row by row,
    /// on the bottom rows of the grid; none when the grid cannot be drawn on.
    pub open spec fn planned_cells(&self, records: Seq<Seq<u8>>) -> Seq<u8> {
        if self.addressable() {
            screen_cells(
                records,
                self.spec_grid().0 as nat,
                self.spec_grid().1 as nat,
                self.spec_wrap(),
                self.spec_tab_width() as nat,
            )
        } else {
            Seq::empty()
        }
    }

    /// The windows of `cells.len()` cells on the bottom rows of the grid.
    pub open spec fn planned_windows(&self, cells: Seq<u8>) -> Seq<Window> {
        window_plan(
            cells.len() as int,
            self.spec_grid().0 as int,
            self.spec_grid().1 as int,
            self.spec_char_size(),
        )
    }

    /// Grid, cell size, wrapping and tab width are the same in both.
    pub open spec fn same_setup(&self, other: &Self) -> bool {
        &&& self.spec_grid() == other.spec_grid()
        &&& self.spec_char_size() == other.spec_char_size()
        &&& self.spec_wrap() == other.spec_wrap()
        &&& self.spec_tab_width() == other.spec_tab_width()
    }

    /// An engine whose grid is the display divided by the font's cell size
    /// (empty when the font reports a zero side); lines longer than a row
    /// wrap onto further rows when `wrap` is set.
    pub fn new(display: Display<DI>, font: F, wrap: bool) -> (r: Self)
        ensures
            r.wf(),
            r.spec_char_size().0 >= 1 && r.spec_char_size().1 >= 1 ==> r.spec_grid() == (
                display.spec_dimensions().0 / r.spec_char_size().0,
                display.spec_dimensions().1 / r.spec_char_size().1,
            ),
            !(r.spec_char_size().0 >= 1 && r.spec_char_size().1 >= 1) ==> r.spec_grid() == (0usize, 0usize),
            r.spec_position() == (0usize, 0usize),
            r.spec_wrap() == wrap,
            r.spec_tab_width() == DEFAULT_TAB_WIDTH,
            r.log() == display.log(),
            r.drawn() == Seq::<u8>::empty(),
    {
        let char_size = font.char_size();
        let cursor = if char_size.0 >= 1 && char_size.1 >= 1 {
            Cursor::new(char_size, display.dimensions())
        } else {
            Cursor { col: 0, row: 0, width: 0, height: 0, char_size }
        };
        RenderEngine {
            display,
            font,
            cursor,
            wrap,
            tab_width: DEFAULT_TAB_WIDTH,
            glyphs: Ghost(Seq::empty()),
        }
    }

    /// Whether the grid can be drawn on.
    pub fn is_addressable(&self) -> (b: bool)
        requires
            self.wf(),
        ensures
            b == self.addressable(),
    {
        let (width, height) = self.cursor.grid_size();
        let char_size = self.cursor.char_size;
        width >= 1 && height >= 1 && char_size.0 >= PIXELS_PER_COLUMN && char_size.1 >= 1 && width
            * char_size.0 / PIXELS_PER_COLUMN <= MAX_ADDRESS && height * char_size.1 <= MAX_ADDRESS
    }

    /// A grid that can be drawn on has at most `MAX_GRID` columns and rows.
    proof fn lemma_addressable_grid(&self)
        requires
            self.addressable(),
        ensures
            self.spec_grid().0 <= MAX_GRID,
            self.spec_grid().1 <= MAX_GRID,
    {
        let (width, height) = self.spec_grid();
        let char_size = self.spec_char_size();
        assert(width <= MAX_GRID) by (nonlinear_arith)
            requires
                width * char_size.0 / 2 <= MAX_ADDRESS,
                char_size.0 >= 2,
        ;
        assert(height <= MAX_GRID) by (nonlinear_arith)
            requires
                height * char_size.1 <= MAX_ADDRESS,
                char_size.1 >= 1,
        ;
    }

    /// Sets how many blanks a tab stands for.
    pub fn set_tab_width(&mut self, tab_width: u8)
        requires
            old(self).wf(),
        ensures
            final(self).wf(),
            final(self).spec_grid() == old(self).spec_grid(),
            final(self).spec_char_size() == old(self).spec_char_size(),
            final(self).spec_wrap() == old(self).spec_wrap(),
            final(self).spec_tab_width() == tab_width,
            final(self).log() == old(self).log(),
            final(self).drawn() == old(self).drawn(),
    {
        self.tab_width = tab_width;
    }

    /// Columns and rows of the character grid.
    pub fn grid_size(&self) -> (r: (usize, usize))
        requires
            self.wf(),
        ensures
            r == self.spec_grid(),
    {
        self.cursor.grid_size()
    }

    /// Powers the display up, turns it on and clears it.
    pub fn init(&mut self) -> (r: Result<(), DI::Error>)
        requires
            old(self).wf(),
        ensures
            final(self).wf(),
            final(self).same_setup(old(self)),
            final(self).drawn() == old(self).drawn(),
            r is Ok ==> final(self).log() == old(self).log() + command_transfers(
                spec_init_commands(old(self).spec_rotation()),
            ).push(Transfer::Command(Command::DisplayOn(true).spec_bytes())) + clear_transfers(),
            r is Ok ==> final(self).spec_position() == (0usize, 0usize),
    {
        self.display.init()?;
        self.display.on()?;
        self.clear()?;
        Ok(())
    }

    /// Writes zeros to the whole frame memory, row by row, and puts the
    /// cursor at the top left.
    pub fn clear(&mut self) -> (r: Result<(), DI::Error>)
        requires
            old(self).wf(),
        ensures
            final(self).wf(),
            final(self).same_setup(old(self)),
            final(self).drawn() == old(self).drawn(),
            handed(old(self).log(), final(self).log(), clear_transfers(), r is Ok),
            r is Ok ==> final(self).spec_position() == (0usize, 0usize),
    {
        let ghost sent = clear_transfers();
        let ghost zero_row = Seq::new(FRAME_COLUMNS as nat, |j: int| 0u8);
        let r = self.display.set_draw_area((0, 0), (FRAME_COLUMNS as u8, FRAME_ROWS as u8));
        if r.is_err() {
            proof {
                let k = choose|k: int|
                    1 <= k <= 2 && self.log() == old(self).log() + #[trigger] area_transfers(
                        (0, 0),
                        (FRAME_COLUMNS as u8, FRAME_ROWS as u8),
                    ).take(k);
                assert(sent.take(k) =~= area_transfers(
                    (0, 0),
                    (FRAME_COLUMNS as u8, FRAME_ROWS as u8),
                ).take(k));
            }
            return r;
        }
        let mut buffer: Vec<u8> = Vec::new();
        let mut k: usize = 0;
        while k < FRAME_COLUMNS
            invariant
                k <= FRAME_COLUMNS,
                buffer@ == Seq::new(k as nat, |j: int| 0u8),
            decreases FRAME_COLUMNS - k,
        {
            buffer.push(0);
            k = k + 1;
            assert(buffer@ =~= Seq::new(k as nat, |j: int| 0u8));
        }
        let mut i: usize = 0;
        proof {
            let a = area_transfers((0, 0), (FRAME_COLUMNS as u8, FRAME_ROWS as u8));
            assert(a.len() == 2);
            assert forall|j: int| 0 <= j < FRAME_ROWS implies #[trigger] sent[2 + j] == Transfer::Data(zero_row) by {
                assert(sent[2 + j] == Seq::new(FRAME_ROWS as nat, |i: int| Transfer::Data(Seq::new(FRAME_COLUMNS as nat, |j: int| 0u8)))[j]);
            }
        }
        while i < FRAME_ROWS
            invariant
                forall|j: int| 0 <= j < FRAME_ROWS ==> #[trigger] sent[2 + j] == Transfer::Data(zero_row),
                sent.len() == 2 + FRAME_ROWS,
                self.wf(),
                self.same_setup(old(self)),
                self.drawn() == old(self).drawn(),
                buffer@ == zero_row,
                sent == clear_transfers(),
                i <= FRAME_ROWS,
                self.log() == old(self).log() + sent.take(2 + i),
            decreases FRAME_ROWS - i,
        {
            let r = self.display.draw(buffer.as_slice());
            assert(sent[2 + i as int] == Transfer::Data(zero_row));
            assert(sent.take(3 + i) =~= sent.take(2 + i).push(Transfer::Data(zero_row)));
            if r.is_err() {
                return r;
            }
            i = i + 1;
        }
        assert(sent.take(2 + i) =~= sent);
        self.cursor.set_position(0, 0);
        Ok(())
    }

    /// Clears the display and draws `lines`, newest first, from the bottom
    /// row up: the cells of `planned_cells`, each into its window of
    /// `planned_windows`. Older records that no longer fit are not drawn.
    pub fn render_all<const N: usize>(&mut self, lines: Iter<'_, N>) -> (r: Result<(), DI::Error>)
        requires
            old(self).wf(),
            lines.wf(),
            N <= MAX_RECORD_LEN,
        ensures
            final(self).wf(),
            final(self).same_setup(old(self)),
            r is Ok ==> final(self).drawn() == old(self).drawn() + old(self).planned_cells(
                lines.items(),
            ),
            r is Ok ==> clears_then_draws(
                old(self).log(),
                final(self).log(),
                old(self).planned_windows(old(self).planned_cells(lines.items())),
            ),
            r is Err ==> final(self).log().len() >= old(self).log().len() && final(self).log().subrange(
                0,
                old(self).log().len() as int,
            ) == old(self).log(),
    {
        let ghost before = self.log();
        let ghost base: int = (before.len() + clear_transfers().len()) as int;
        let rc = self.clear();
        if rc.is_err() {
            proof {
                let k = choose|k: int|
                    1 <= k <= clear_transfers().len() && self.log() == before
                        + #[trigger] clear_transfers().take(k);
                assert(self.log().subrange(0, before.len() as int) =~= before);
            }
            return rc;
        }
        let (width, height) = self.cursor.grid_size();
        let char_size = self.cursor.char_size;
        let ghost cells_spec = old(self).planned_cells(lines.items());
        if !self.is_addressable() {
            proof {
                assert(self.log().subrange(0, base) =~= self.log());
                assert(self.log().subrange(base, self.log().len() as int) =~= Seq::<Transfer>::empty());
                assert(old(self).planned_windows(cells_spec) =~= Seq::<Window>::empty());
                assert(self.drawn() =~= old(self).drawn() + cells_spec);
            }
            return Ok(());
        }
        proof {
            self.lemma_addressable_grid();
        }
        let cells = compose(lines, width, height, self.wrap, self.tab_width);
        let n = cells.len();
        proof {
            lemma_screen_rows(lines.items(), width as nat, height as nat, self.wrap, self.tab_width as nat);
            assert(n as int / (width as int) <= height) by (nonlinear_arith)
                requires
                    n <= width * height,
                    width >= 1,
            ;
        }
        let windows = cell_windows(n, width, height, char_size);
        let ghost plan = windows@;
        proof {
            assert(self.log().subrange(0, base) =~= self.log());
            assert(self.log().subrange(base, self.log().len() as int) =~= Seq::<Transfer>::empty());
            assert(self.drawn() =~= old(self).drawn() + cells@.take(0));
        }
        let mut k: usize = 0;
        while k < n
            invariant
                self.wf(),
                self.same_setup(old(self)),
                k <= n == cells@.len() == windows@.len(),
                cells@ == cells_spec,
                plan == windows@,
                forall|j: int| 0 <= j < n ==> (#[trigger] plan[j]).0.0 < plan[j].1.0 && plan[j].0.1 < plan[j].1.1,
                base == before.len() + clear_transfers().len(),
                before == old(self).log(),
                self.log().len() == base + 3 * k,
                self.log().subrange(0, base) == before + clear_transfers(),
                draws_into(self.log().subrange(base, self.log().len() as int), plan.take(k as int)),
                self.drawn() == old(self).drawn() + cells@.take(k as int),
            decreases n - k,
        {
            let w = windows[k];
            let ghost log0 = self.log();
            proof {
                assert((before + clear_transfers()).subrange(0, before.len() as int) =~= before);
                assert(log0.subrange(0, before.len() as int) =~= log0.subrange(0, base).subrange(
                    0,
                    before.len() as int,
                ));
            }
            let r = self.display.set_draw_area(w.0, w.1);
            if r.is_err() {
                proof {
                    let j = choose|j: int|
                        1 <= j <= 2 && self.log() == log0 + #[trigger] area_transfers(w.0, w.1).take(j);
                    assert(self.log().subrange(0, before.len() as int) =~= log0.subrange(
                        0,
                        before.len() as int,
                    ));
                }
                return r;
            }
            let ghost mid = self.log();
            let r = self.draw_char(cells[k]);
            proof {
                let log1 = self.log();
                assert(mid == log0 + area_transfers(w.0, w.1));
                assert forall|i: int| 0 <= i < log0.len() implies log1[i] == log0[i] by {
                    assert(log1[i] == log1.drop_last()[i]);
                }
                assert(log1[log0.len() as int] == area_transfers(w.0, w.1)[0]) by {
                    assert(log1[log0.len() as int] == log1.drop_last()[log0.len() as int]);
                }
                assert(log1[log0.len() + 1 as int] == area_transfers(w.0, w.1)[1]) by {
                    assert(log1[log0.len() + 1 as int] == log1.drop_last()[log0.len() + 1 as int]);
                }
                assert(log1[log0.len() + 2 as int] is Data);
                assert(log1.subrange(0, base) =~= log0.subrange(0, base));
                assert(draws_into(log1.subrange(base, log1.len() as int), plan.take(k + 1))) by {
                    let seg0 = log0.subrange(base, log0.len() as int);
                    let seg1 = log1.subrange(base, log1.len() as int);
                    assert forall|j: int| 0 <= j < k + 1 implies {
                        &&& seg1[3 * j] == area_transfers(plan.take(k + 1)[j].0, plan.take(k + 1)[j].1)[0]
                        &&& seg1[3 * j + 1] == area_transfers(plan.take(k + 1)[j].0, plan.take(k + 1)[j].1)[1]
                        &&& #[trigger] seg1[3 * j + 2] is Data
                    } by {
                        if j < k {
                            assert(seg1[3 * j] == seg0[3 * j]);
                            assert(seg1[3 * j + 1] == seg0[3 * j + 1]);
                            assert(seg1[3 * j + 2] == seg0[3 * j + 2]);
                            assert(seg0[3 * j + 2] is Data);
                        }
                    }
                }
                assert(cells@.take(k + 1) =~= cells@.take(k as int).push(cells@[k as int]));
                if r.is_err() {
                    assert(self.log().subrange(0, before.len() as int) =~= log0.subrange(
                        0,
                        before.len() as int,
                    ));
                }
            }
            if r.is_err() {
                return r;
            }
            k = k + 1;
        }
        proof {
            assert(cells@.take(n as int) =~= cells@);
            assert(plan.take(n as int) =~= plan);
        }
        Ok(())
    }

    fn draw_char(&mut self, chr: u8) -> (r: Result<(), DI::Error>)
        ensures
            final(self).cursor == old(self).cursor,
            final(self).wrap == old(self).wrap,
            final(self).tab_width == old(self).tab_width,
            final(self).drawn() == old(self).drawn().push(chr),
            final(self).log().len() == old(self).log().len() + 1,
            final(self).log().drop_last() == old(self).log(),
            final(self).log().last() is Data,
    {
        let bitmap = self.font.get_char(chr);
        self.glyphs = Ghost(self.glyphs@.push(chr));
        self.display.draw(bitmap.as_slice())
    }
}

/// A scrollable text terminal: appended text is kept in a ring buffer of
/// `TERMINAL_BUFFER_SIZE` bytes, and `render` draws its newest records.
pub struct TerminalView<DI, F> {
    render: RenderEngine<DI, F>,
    char_buffer: Ringbuffer<TERMINAL_BUFFER_SIZE>,
    scroll_offset: usize,
}

impl<DI: DisplayInterface, F: TerminalFont> TerminalView<DI, F> {
    pub closed spec fn wf(&self) -> bool {
        self.render.wf() && self.char_buffer.wf()
    }

    /// The buffered text.
    pub closed spec fn history(&self) -> RingView {
        self.char_buffer@
    }

    /// Newest records that `render` leaves out.
    pub closed spec fn spec_scroll_offset(&self) -> usize {
        self.scroll_offset
    }

    pub closed spec fn engine(&self) -> RenderEngine<DI, F> {
        self.render
    }

    /// What `render` puts on the bottom rows of the grid.
    pub open spec fn spec_screen(&self) -> Seq<u8> {
        self.engine().planned_cells(self.history().newest_from(self.spec_scroll_offset() as int))
    }

    /// Create new TerminalView instance
    pub fn new(display: Display<DI>, font: F) -> (t: Self)
        ensures
            t.wf(),
            t.history().records().len() == 0,
            t.history().free() == TERMINAL_BUFFER_SIZE - 1,
            t.spec_scroll_offset() == 0,
            t.engine().spec_wrap(),
    {
        TerminalView {
            render: RenderEngine::new(display, font, true),
            char_buffer: Ringbuffer::new(),
            scroll_offset: 0,
        }
    }

    /// Powers the display up, turns it on and clears it.
    pub fn init(&mut self) -> (r: Result<(), DI::Error>)
        requires
            old(self).wf(),
        ensures
            final(self).wf(),
            final(self).history() == old(self).history(),
            final(self).spec_scroll_offset() == old(self).spec_scroll_offset(),
            final(self).engine().same_setup(&old(self).engine()),
    {
        self.render.init()?;
        Ok(())
    }

    /// Appends `s` as the newest record, evicting the oldest records as
    /// needed. Never fails.
    pub fn write_string(&mut self, s: &str) -> (r: Result<(), DI::Error>)
        requires
            old(self).wf(),
        ensures
            r is Ok,
            final(self).wf(),
            final(self).history() == old(self).history().after_add_evicting(s.spec_bytes()),
            final(self).spec_scroll_offset() == old(self).spec_scroll_offset(),
            final(self).engine() == old(self).engine(),
    {
        self.char_buffer.add(s.as_bytes());
        Ok(())
    }

    /// Clears the display and draws the records newest first, from the
    /// bottom row up, leaving out the `scroll_offset` newest ones: the cells
    /// of `spec_screen`, each into its window on the grid's bottom rows.
    pub fn render(&mut self) -> (r: Result<(), DI::Error>)
        requires
            old(self).wf(),
        ensures
            final(self).wf(),
            final(self).history() == old(self).history(),
            final(self).spec_scroll_offset() == old(self).spec_scroll_offset(),
            final(self).engine().same_setup(&old(self).engine()),
            r is Ok ==> final(self).engine().drawn() == old(self).engine().drawn()
                + old(self).spec_screen(),
            r is Ok ==> clears_then_draws(
                old(self).engine().log(),
                final(self).engine().log(),
                old(self).engine().planned_windows(old(self).spec_screen()),
            ),
            r is Err ==> final(self).engine().log().len() >= old(self).engine().log().len()
                && final(self).engine().log().subrange(0, old(self).engine().log().len() as int)
                == old(self).engine().log(),
    {
        self.render.render_all(self.char_buffer.reverse_iter(self.scroll_offset))
    }

    /// The cells that `render` draws on the bottom rows of the grid, row by
    /// row.
    pub fn screen(&self) -> (cells: Vec<u8>)
        requires
            self.wf(),
        ensures
            cells@ == self.spec_screen(),
    {
        if !self.render.is_addressable() {
            return Vec::new();
        }
        let (width, height) = self.render.grid_size();
        proof {
            self.render.lemma_addressable_grid();
        }
        compose(
            self.char_buffer.reverse_iter(self.scroll_offset),
            width,
            height,
            self.render.wrap,
            self.render.tab_width,
        )
    }

    /// Sets how many of the newest records the next `render` leaves out.
    pub fn set_scroll_offset(&mut self, offset: usize)
        requires
            old(self).wf(),
        ensures
            final(self).wf(),
            final(self).history() == old(self).history(),
            final(self).spec_scroll_offset() == offset,
            final(self).engine() == old(self).engine(),
    {
        self.scroll_offset = offset;
    }
}

} // verus!
