//! VGA text console: an 80x25 grid of character cells with a cursor. Each
//! cell holds a character byte and the attribute byte (light grey on black).
use vstd::prelude::*;

verus! {

pub const WIDTH: usize = 80;
pub const HEIGHT: usize = 25;
pub const CELLS: usize = 2000;
pub const COLOR_FG: u8 = 0x07;
pub const COLOR_BG: u8 = 0x00;
/// Attribute byte of every cell.
pub const ATTRIBUTE: u8 = 0x07;
/// A blank cell: a space with the attribute.
pub const BLANK: u16 = 0x0720;

/// The cell value for character `b`.
pub open spec fn cell(b: u8) -> u16 {
    (b as u16 | 0x0700u16) as u16
}

/// The contents and cursor of the console.
pub struct ScreenView {
    pub cells: Seq<u16>,
    pub row: int,
    pub col: int,
}

/// Every row moves up one; the last row becomes blank.
pub open spec fn scrolled(cells: Seq<u16>) -> Seq<u16> {
    Seq::new(
        CELLS as nat,
        |i: int|
            if i < CELLS - WIDTH {
                cells[i + WIDTH]
            } else {
                BLANK
            },
    )
}

/// The cursor goes to the start of the next row, scrolling at the bottom.
pub open spec fn newline_spec(v: ScreenView) -> ScreenView {
    if v.row + 1 >= HEIGHT {
        ScreenView { cells: scrolled(v.cells), row: HEIGHT - 1, col: 0 }
    } else {
        ScreenView { cells: v.cells, row: v.row + 1, col: 0 }
    }
}

/// Character `b` goes at the cursor, which moves right one cell.
pub open spec fn put_spec(v: ScreenView, b: u8) -> ScreenView {
    ScreenView { cells: v.cells.update(v.row * WIDTH + v.col, cell(b)), row: v.row, col: v.col + 1 }
}

/// Writing one byte: newline and carriage return move the cursor; any other
/// byte is shown at the cursor, after wrapping to a new row when the cursor
/// is past the last column.
pub open spec fn write_byte_spec(v: ScreenView, b: u8) -> ScreenView {
    if b == 0x0A {
        newline_spec(v)
    } else if b == 0x0D {
        ScreenView { col: 0, ..v }
    } else if v.col >= WIDTH {
        put_spec(newline_spec(v), b)
    } else {
        put_spec(v, b)
    }
}

/// Writing the bytes of `s` one after another.
pub open spec fn write_str_spec(v: ScreenView, s: Seq<u8>) -> ScreenView
    decreases s.len(),
{
    if s.len() == 0 {
        v
    } else {
        write_byte_spec(write_str_spec(v, s.drop_last()), s.last())
    }
}

/// A newline moves the cursor to the start of the next row. On the last
/// row it scrolls instead: every cell takes the value of the cell one row
/// (80 cells) below it, the last row becomes blank (a space, light grey on
/// black), and the cursor stays on the last row.
pub proof fn law_newline_scrolls_at_bottom(v: ScreenView)
    requires
        v.cells.len() == 2000,
        0 <= v.row < 25,
        0 <= v.col <= 80,
    ensures
        ({
            let w = write_byte_spec(v, 0x0Au8);
            &&& w.col == 0
            &&& w.cells.len() == 2000
            &&& v.row < 24 ==> w.cells == v.cells && w.row == v.row + 1
            &&& v.row == 24 ==> w.row == 24 && (forall|i: int| 0 <= i < 1920 ==> #[trigger] w.cells[i] == v.cells[i + 80])
                && (forall|i: int| 1920 <= i < 2000 ==> #[trigger] w.cells[i] == 0x0720u16)
        }),
{
}

/// Any byte but newline and carriage return is shown at the cursor as
/// that character on light grey over black (`0x0700` plus the byte), and
/// the cursor moves one cell right; past the last column it first wraps to
/// the start of the next row. A carriage return moves the cursor to the
/// start of its row. No other cell changes.
pub proof fn law_write_byte_shows_char(v: ScreenView, b: u8)
    requires
        v.cells.len() == 2000,
        0 <= v.row < 25,
        0 <= v.col <= 80,
    ensures
        ({
            let w = write_byte_spec(v, b);
            &&& b == 0x0D ==> w == ScreenView { col: 0, ..v }
            &&& b != 0x0A && b != 0x0D && v.col < 80 ==> {
                &&& w.row == v.row && w.col == v.col + 1
                &&& w.cells[v.row * 80 + v.col] == 0x0700 + b
                &&& forall|i: int| 0 <= i < 2000 && i != v.row * 80 + v.col ==> #[trigger] w.cells[i] == v.cells[i]
            }
            &&& b != 0x0A && b != 0x0D && v.col == 80 && v.row < 24 ==> {
                &&& w.row == v.row + 1 && w.col == 1
                &&& w.cells[(v.row + 1) * 80] == 0x0700 + b
                &&& forall|i: int| 0 <= i < 2000 && i != (v.row + 1) * 80 ==> #[trigger] w.cells[i] == v.cells[i]
            }
        }),
{
    assert((b as u16 | 0x0700u16) as u16 == 0x0700 + b) by (bit_vector);
}

/// A cleared screen (see `Screen::clear` and `Screen::new`) shows a space,
/// light grey on black, in each of its 2000 cells, with the cursor at the
/// top left.
pub proof fn law_blank_screen(v: ScreenView)
    requires
        Screen::is_blank(v),
    ensures
        v.cells.len() == 2000,
        forall|i: int| 0 <= i < 2000 ==> #[trigger] v.cells[i] == 0x0720u16,
        v.row == 0,
        v.col == 0,
{
}

/// Writing two strings one after the other shows the same screen as
/// writing their concatenation.
pub proof fn law_write_str_concat(v: ScreenView, a: Seq<u8>, b: Seq<u8>)
    ensures
        write_str_spec(write_str_spec(v, a), b) == write_str_spec(v, a + b),
    decreases b.len(),
{
    if b.len() == 0 {
        assert(a + b =~= a);
    } else {
        law_write_str_concat(v, a, b.drop_last());
        assert((a + b).drop_last() =~= a + b.drop_last());
        assert((a + b).last() == b.last());
    }
}

pub struct Screen {
    cells: Vec<u16>,
    row: usize,
    col: usize,
}

impl Screen {
    pub closed spec fn view(&self) -> ScreenView {
        ScreenView { cells: self.cells@, row: self.row as int, col: self.col as int }
    }

    pub open spec fn view_ok(v: ScreenView) -> bool {
        v.cells.len() == CELLS && 0 <= v.row < HEIGHT && 0 <= v.col <= WIDTH
    }

    pub closed spec fn wf(&self) -> bool {
        Self::view_ok(self.view())
    }

    /// A blank screen with the cursor at the top left.
    pub open spec fn is_blank(v: ScreenView) -> bool {
        v.cells == Seq::new(CELLS as nat, |i: int| BLANK) && v.row == 0 && v.col == 0
    }

    pub fn new() -> (r: Self)
        ensures
            r.wf(),
            Self::is_blank(r.view()),
    {
        let mut cells: Vec<u16> = Vec::new();
        let mut i: usize = 0;
        while i < CELLS
            invariant
                i <= CELLS,
                cells@ == Seq::new(i as nat, |k: int| BLANK),
            decreases CELLS - i,
        {
            cells.push(BLANK);
            i = i + 1;
            assert(cells@ =~= Seq::new(i as nat, |k: int| BLANK));
        }
        Screen { cells, row: 0, col: 0 }
    }

    /// The cell values, row by row.
    pub fn cells(&self) -> (r: &Vec<u16>)
        ensures
            r@ == self.view().cells,
    {
        &self.cells
    }

    /// Blanks every cell and puts the cursor at the top left.
    pub fn clear(&mut self)
        requires
            old(self).wf(),
        ensures
            final(self).wf(),
            Self::is_blank(final(self).view()),
    {
        let mut i: usize = 0;
        while i < CELLS
            invariant
                i <= CELLS,
                self.cells@.len() == CELLS,
                forall|k: int| 0 <= k < i ==> #[trigger] self.cells@[k] == BLANK,
            decreases CELLS - i,
        {
            self.cells.set(i, BLANK);
            i = i + 1;
        }
        self.row = 0;
        self.col = 0;
        assert(self.cells@ =~= Seq::new(CELLS as nat, |i: int| BLANK));
    }

    /// Moves every row up one and blanks the last row.
    fn scroll(&mut self)
        requires
            old(self).wf(),
        ensures
            final(self).wf(),
            final(self).view() == (ScreenView { cells: scrolled(old(self).view().cells), ..old(self).view() }),
    {
        let mut i: usize = 0;
        while i < CELLS - WIDTH
            invariant
                i <= CELLS - WIDTH,
                self.cells@.len() == CELLS,
                self.row == old(self).row,
                self.col == old(self).col,
                forall|k: int| 0 <= k < i ==> #[trigger] self.cells@[k] == old(self).cells@[k + WIDTH],
                forall|k: int| i <= k < CELLS ==> #[trigger] self.cells@[k] == old(self).cells@[k],
            decreases CELLS - WIDTH - i,
        {
            let v = self.cells[i + WIDTH];
            self.cells.set(i, v);
            i = i + 1;
        }
        while i < CELLS
            invariant
                CELLS - WIDTH <= i <= CELLS,
                self.cells@.len() == CELLS,
                self.row == old(self).row,
                self.col == old(self).col,
                forall|k: int| 0 <= k < CELLS - WIDTH ==> #[trigger] self.cells@[k] == old(self).cells@[k + WIDTH],
                forall|k: int| CELLS - WIDTH <= k < i ==> #[trigger] self.cells@[k] == BLANK,
            decreases CELLS - i,
        {
            self.cells.set(i, BLANK);
            i = i + 1;
        }
        assert(self.cells@ =~= scrolled(old(self).cells@));
    }

    fn newline(&mut self)
        requires
            old(self).wf(),
        ensures
            final(self).wf(),
            final(self).view() == newline_spec(old(self).view()),
    {
        if self.row + 1 >= HEIGHT {
            self.scroll();
            self.row = HEIGHT - 1;
        } else {
            self.row = self.row + 1;
        }
        self.col = 0;
    }

    fn put(&mut self, b: u8)
        requires
            old(self).wf(),
            old(self).col < WIDTH,
        ensures
            final(self).wf(),
            final(self).view() == put_spec(old(self).view(), b),
    {
        let idx = self.row * WIDTH + self.col;
        assert(idx < CELLS) by (nonlinear_arith)
            requires
                idx == self.row * WIDTH + self.col,
                self.row < HEIGHT,
                self.col < WIDTH,
        ;
        self.cells.set(idx, (b as u16) | 0x0700);
        self.col = self.col + 1;
    }

    /// Writes one byte (see `write_byte_spec`).
    pub fn write_byte(&mut self, b: u8)
        requires
            old(self).wf(),
        ensures
            final(self).wf(),
            final(self).view() == write_byte_spec(old(self).view(), b),
    {
        if b == 0x0A {
            self.newline();
        } else if b == 0x0D {
            self.col = 0;
        } else {
            if self.col >= WIDTH {
                self.newline();
            }
            self.put(b);
        }
    }

    /// Writes every byte of `s` in turn.
    pub fn write_str(&mut self, s: &[u8])
        requires
            old(self).wf(),
        ensures
            final(self).wf(),
            final(self).view() == write_str_spec(old(self).view(), s@),
    {
        let mut i: usize = 0;
        while i < s.len()
            invariant
                i <= s@.len(),
                self.wf(),
                self.view() == write_str_spec(old(self).view(), s@.subrange(0, i as int)),
            decreases s@.len() - i,
        {
            assert(s@.subrange(0, i + 1).drop_last() =~= s@.subrange(0, i as int));
            self.write_byte(s[i]);
            i = i + 1;
        }
        assert(s@.subrange(0, s@.len() as int) =~= s@);
    }
}

} // verus!
