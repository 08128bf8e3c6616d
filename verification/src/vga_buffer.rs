//! Text output to the VGA buffer.
//!
//! The kernel prints by writing character cells — an ASCII byte plus a
//! color attribute — into a fixed 25-by-80 grid. Text always enters on
//! the bottom row; a newline, or running off the right edge, shifts
//! every row up by one and clears the bottom row. This module holds
//! that logic over a grid of owned cells; the kernel glue mirrors the
//! grid into the memory-mapped hardware buffer with volatile writes,
//! which cannot stand here.

use vstd::prelude::*;
use vstd::string::StringSliceAdditionalSpecFns;

verus! {

/// Rows of the text grid.
pub const BUFFER_HEIGHT: usize = 25;

/// Columns of the text grid.
pub const BUFFER_WIDTH: usize = 80;

/// The sixteen colors of the text mode, in hardware order: `Black` is
/// number 0, `White` is 15.
#[derive(Debug, Clone, Copy, PartialEq, Eq)]
pub enum Color {
    Black,
    Blue,
    Green,
    Cyan,
    Red,
    Magenta,
    Brown,
    LightGray,
    DarkGray,
    LightBlue,
    LightGreen,
    LightCyan,
    LightRed,
    Pink,
    Yellow,
    White,
}

impl Color {
    /// The 4-bit number the hardware gives this color.
    pub open spec fn spec_number(self) -> int {
        match self {
            Color::Black => 0,
            Color::Blue => 1,
            Color::Green => 2,
            Color::Cyan => 3,
            Color::Red => 4,
            Color::Magenta => 5,
            Color::Brown => 6,
            Color::LightGray => 7,
            Color::DarkGray => 8,
            Color::LightBlue => 9,
            Color::LightGreen => 10,
            Color::LightCyan => 11,
            Color::LightRed => 12,
            Color::Pink => 13,
            Color::Yellow => 14,
            Color::White => 15,
        }
    }

    /// The 4-bit number the hardware gives this color.
    pub fn number(&self) -> (n: u8)
        ensures
            n == self.spec_number(),
            n < 16,
    {
        match self {
            Color::Black => 0,
            Color::Blue => 1,
            Color::Green => 2,
            Color::Cyan => 3,
            Color::Red => 4,
            Color::Magenta => 5,
            Color::Brown => 6,
            Color::LightGray => 7,
            Color::DarkGray => 8,
            Color::LightBlue => 9,
            Color::LightGreen => 10,
            Color::LightCyan => 11,
            Color::LightRed => 12,
            Color::Pink => 13,
            Color::Yellow => 14,
            Color::White => 15,
        }
    }
}

/// A foreground and a background color packed into one attribute byte:
/// the background in the high four bits, the foreground in the low
/// four.
#[derive(Debug, Clone, Copy, PartialEq, Eq, Structural)]
pub struct ColorCode(u8);

impl ColorCode {
    /// The attribute byte's value.
    pub closed spec fn value(&self) -> int {
        self.0 as int
    }

    /// Packs a foreground and a background color into one attribute
    /// byte.
    pub fn new(foreground: Color, background: Color) -> (c: ColorCode)
        ensures
            c.value() == background.spec_number() * 16 + foreground.spec_number(),
    {
        ColorCode(background.number() * 16 + foreground.number())
    }

    /// The attribute byte itself.
    pub fn to_byte(&self) -> (b: u8)
        ensures
            b == self.value(),
    {
        self.0
    }
}

/// One character cell of the grid: an ASCII byte and its colors.
#[derive(Debug, Clone, Copy, PartialEq, Eq, Structural)]
pub struct ScreenChar {
    pub ascii_char: u8,
    pub color_code: ColorCode,
}

/// A blank cell: a space in the given colors.
pub open spec fn blank_char(color: ColorCode) -> ScreenChar {
    ScreenChar { ascii_char: 32, color_code: color }
}

/// A whole row of blank cells.
pub open spec fn blank_row(color: ColorCode) -> Seq<ScreenChar> {
    Seq::new(BUFFER_WIDTH as nat, |i: int| blank_char(color))
}

/// The grid after scrolling: every row moves up one place and a blank
/// row enters at the bottom.
pub open spec fn scrolled(rows: Seq<Seq<ScreenChar>>, color: ColorCode) -> Seq<Seq<ScreenChar>> {
    Seq::new(
        rows.len(),
        |r: int|
            if r < rows.len() - 1 {
                rows[r + 1]
            } else {
                blank_row(color)
            },
    )
}

/// Where one byte lands: a newline scrolls and returns the cursor to
/// the left edge; any other byte — after a scroll if the bottom row is
/// full — is written at the cursor on the bottom row, and the cursor
/// advances.
pub open spec fn spec_write_byte(
    rows: Seq<Seq<ScreenChar>>,
    col: int,
    color: ColorCode,
    byte: u8,
) -> (Seq<Seq<ScreenChar>>, int) {
    if byte == 10 {
        (scrolled(rows, color), 0)
    } else {
        let rows1 = if col >= BUFFER_WIDTH {
            scrolled(rows, color)
        } else {
            rows
        };
        let col1: int = if col >= BUFFER_WIDTH {
            0
        } else {
            col
        };
        let cell = ScreenChar { ascii_char: byte, color_code: color };
        (
            rows1.update(
                BUFFER_HEIGHT - 1,
                rows1[BUFFER_HEIGHT - 1].update(col1, cell),
            ),
            col1 + 1,
        )
    }
}

/// A byte as it reaches the grid: printable ASCII and newline pass
/// through; anything else prints as 0xfe, the filled-square character.
pub open spec fn effective_byte(byte: u8) -> u8 {
    if 0x20 <= byte <= 0x7e || byte == 10 {
        byte
    } else {
        0xfe
    }
}

/// Where a whole string of bytes lands, one byte after another.
pub open spec fn spec_write_bytes(
    rows: Seq<Seq<ScreenChar>>,
    col: int,
    color: ColorCode,
    bytes: Seq<u8>,
) -> (Seq<Seq<ScreenChar>>, int)
    decreases bytes.len(),
{
    if bytes.len() == 0 {
        (rows, col)
    } else {
        let step = spec_write_byte(rows, col, color, effective_byte(bytes[0]));
        spec_write_bytes(step.0, step.1, color, bytes.drop_first())
    }
}

/// Writing bytes one after another is the same as writing all but the
/// last and then the last.
pub proof fn lemma_write_bytes_snoc(
    rows: Seq<Seq<ScreenChar>>,
    col: int,
    color: ColorCode,
    bytes: Seq<u8>,
    byte: u8,
)
    ensures
        spec_write_bytes(rows, col, color, bytes.push(byte)) == ({
            let mid = spec_write_bytes(rows, col, color, bytes);
            spec_write_byte(mid.0, mid.1, color, effective_byte(byte))
        }),
    decreases bytes.len(),
{
    let whole = bytes.push(byte);
    assert(whole[0] == if bytes.len() == 0 {
        byte
    } else {
        bytes[0]
    });
    if bytes.len() == 0 {
        assert(whole.drop_first() =~= Seq::<u8>::empty());
        let step = spec_write_byte(rows, col, color, effective_byte(byte));
        assert(spec_write_bytes(step.0, step.1, color, Seq::<u8>::empty()) == (step.0, step.1));
        assert(spec_write_bytes(rows, col, color, whole) == step);
    } else {
        assert(whole.drop_first() =~= bytes.drop_first().push(byte));
        let step = spec_write_byte(rows, col, color, effective_byte(bytes[0]));
        lemma_write_bytes_snoc(step.0, step.1, color, bytes.drop_first(), byte);
    }
}

/// Writes character cells into the text grid, bottom row, left to
/// right, scrolling as lines fill.
pub struct Writer {
    column_position: usize,
    color_code: ColorCode,
    buffer: Vec<Vec<ScreenChar>>,
}

impl Writer {
    /// The grid's rows, top first.
    pub closed spec fn rows(&self) -> Seq<Seq<ScreenChar>> {
        self.buffer@.map_values(|r: Vec<ScreenChar>| r@)
    }

    /// The cursor's column on the bottom row.
    pub closed spec fn col(&self) -> int {
        self.column_position as int
    }

    /// The colors new text is written in.
    pub closed spec fn color(&self) -> ColorCode {
        self.color_code
    }

    /// Well-formedness: the grid is exactly `BUFFER_HEIGHT` rows of
    /// `BUFFER_WIDTH` cells, and the cursor sits within or just past the
    /// bottom row.
    pub open spec fn wf(&self) -> bool {
        &&& self.rows().len() == BUFFER_HEIGHT
        &&& forall|r: int| 0 <= r < BUFFER_HEIGHT ==> (#[trigger] self.rows()[r]).len() == BUFFER_WIDTH
        &&& 0 <= self.col() <= BUFFER_WIDTH
    }

    /// Creates a writer with a blank grid, writing in the given colors
    /// from the bottom-left corner.
    pub fn new(color_code: ColorCode) -> (w: Writer)
        ensures
            w.wf(),
            w.col() == 0,
            w.color() == color_code,
            forall|r: int|
                0 <= r < BUFFER_HEIGHT ==> #[trigger] w.rows()[r] == blank_row(color_code),
    {
        let blank = ScreenChar { ascii_char: 32, color_code };
        let mut buffer: Vec<Vec<ScreenChar>> = Vec::new();
        let mut r: usize = 0;
        while r < BUFFER_HEIGHT
            invariant
                r <= BUFFER_HEIGHT,
                buffer@.len() == r,
                blank == blank_char(color_code),
                forall|k: int|
                    0 <= k < r ==> (#[trigger] buffer@[k])@ == blank_row(color_code),
            decreases BUFFER_HEIGHT - r,
        {
            let mut row: Vec<ScreenChar> = Vec::new();
            let mut c: usize = 0;
            while c < BUFFER_WIDTH
                invariant
                    c <= BUFFER_WIDTH,
                    row@.len() == c,
                    blank == blank_char(color_code),
                    forall|k: int| 0 <= k < c ==> #[trigger] row@[k] == blank_char(color_code),
                decreases BUFFER_WIDTH - c,
            {
                row.push(blank);
                c = c + 1;
            }
            proof {
                assert(row@ =~= blank_row(color_code));
            }
            buffer.push(row);
            r = r + 1;
        }
        let w = Writer { column_position: 0, color_code, buffer };
        proof {
            assert forall|k: int| 0 <= k < BUFFER_HEIGHT implies #[trigger] w.rows()[k]
                == blank_row(color_code) by {
                assert(w.rows()[k] == buffer@[k]@);
            }
        }
        w
    }

    /// The cursor's column on the bottom row.
    pub fn column(&self) -> (c: usize)
        ensures
            c == self.col(),
    {
        self.column_position
    }

    /// The cell at the given position of the grid.
    pub fn char_at(&self, row: usize, col: usize) -> (ch: ScreenChar)
        requires
            self.wf(),
            row < BUFFER_HEIGHT,
            col < BUFFER_WIDTH,
        ensures
            ch == self.rows()[row as int][col as int],
    {
        proof {
            assert(self.rows()[row as int] == self.buffer@[row as int]@);
        }
        self.buffer[row][col]
    }

    /// Clears the given row to blanks in the writer's colors.
    pub fn clear_row(&mut self, row: usize)
        requires
            old(self).wf(),
            row < BUFFER_HEIGHT,
        ensures
            final(self).wf(),
            final(self).rows() == old(self).rows().update(row as int, blank_row(old(self).color())),
            final(self).col() == old(self).col(),
            final(self).color() == old(self).color(),
    {
        let blank = ScreenChar { ascii_char: 32, color_code: self.color_code };
        let mut fresh: Vec<ScreenChar> = Vec::new();
        let mut c: usize = 0;
        while c < BUFFER_WIDTH
            invariant
                c <= BUFFER_WIDTH,
                fresh@.len() == c,
                blank == blank_char(old(self).color()),
                forall|k: int| 0 <= k < c ==> #[trigger] fresh@[k] == blank_char(old(self).color()),
            decreases BUFFER_WIDTH - c,
        {
            fresh.push(blank);
            c = c + 1;
        }
        proof {
            assert(fresh@ =~= blank_row(old(self).color()));
        }
        self.buffer.set(row, fresh);
        proof {
            assert(self.rows() =~= old(self).rows().update(
                row as int,
                blank_row(old(self).color()),
            ));
        }
    }

    /// Copies the cells of the given row into a fresh vector.
    fn copy_row(&self, row: usize) -> (v: Vec<ScreenChar>)
        requires
            self.wf(),
            row < BUFFER_HEIGHT,
        ensures
            v@ == self.rows()[row as int],
    {
        let mut v: Vec<ScreenChar> = Vec::new();
        let mut c: usize = 0;
        while c < BUFFER_WIDTH
            invariant
                self.wf(),
                row < BUFFER_HEIGHT,
                c <= BUFFER_WIDTH,
                v@.len() == c,
                forall|k: int| 0 <= k < c ==> #[trigger] v@[k] == self.rows()[row as int][k],
            decreases BUFFER_WIDTH - c,
        {
            proof {
                assert(self.rows()[row as int] == self.buffer@[row as int]@);
            }
            let cell = self.buffer[row][c];
            v.push(cell);
            c = c + 1;
        }
        proof {
            assert(v@ =~= self.rows()[row as int]);
        }
        v
    }

    /// Scrolls: every row moves up by one, the bottom row is cleared,
    /// and the cursor returns to the left edge.
    pub fn new_line(&mut self)
        requires
            old(self).wf(),
        ensures
            final(self).wf(),
            final(self).rows() == scrolled(old(self).rows(), old(self).color()),
            final(self).col() == 0,
            final(self).color() == old(self).color(),
    {
        let mut row: usize = 1;
        while row < BUFFER_HEIGHT
            invariant
                old(self).wf(),
                1 <= row <= BUFFER_HEIGHT,
                self.wf(),
                self.color() == old(self).color(),
                self.rows().len() == BUFFER_HEIGHT,
                forall|k: int|
                    0 <= k < row - 1 ==> #[trigger] self.rows()[k] == old(self).rows()[k + 1],
                forall|k: int|
                    row - 1 <= k < BUFFER_HEIGHT ==> #[trigger] self.rows()[k] == old(
                        self,
                    ).rows()[k],
            decreases BUFFER_HEIGHT - row,
        {
            let ghost snap = *self;
            let fresh = self.copy_row(row);
            self.buffer.set(row - 1, fresh);
            proof {
                let prev = row - 1;
                assert forall|k: int| 0 <= k < row implies #[trigger] self.rows()[k] == old(
                    self,
                ).rows()[k + 1] by {
                    if k < prev {
                        assert(self.buffer@[k] == snap.buffer@[k]);
                        assert(snap.rows()[k] == old(self).rows()[k + 1]);
                        assert(self.rows()[k] == self.buffer@[k]@);
                        assert(snap.rows()[k] == snap.buffer@[k]@);
                    } else {
                        assert(self.buffer@[k] == fresh);
                        assert(fresh@ == snap.rows()[row as int]);
                        assert(snap.rows()[row as int] == old(self).rows()[row as int]);
                        assert(self.rows()[k] == self.buffer@[k]@);
                    }
                }
                assert forall|k: int| row <= k < BUFFER_HEIGHT implies #[trigger] self.rows()[k]
                    == old(self).rows()[k] by {
                    assert(self.buffer@[k] == snap.buffer@[k]);
                    assert(snap.rows()[k] == old(self).rows()[k]);
                    assert(self.rows()[k] == self.buffer@[k]@);
                    assert(snap.rows()[k] == snap.buffer@[k]@);
                }
            }
            row = row + 1;
        }
        self.clear_row(BUFFER_HEIGHT - 1);
        self.column_position = 0;
        proof {
            assert(self.rows() =~= scrolled(old(self).rows(), old(self).color()));
        }
    }

    /// Writes one byte: a newline scrolls; any other byte lands at the
    /// cursor on the bottom row — after a scroll if the row is full —
    /// and the cursor advances.
    pub fn write_byte(&mut self, byte: u8)
        requires
            old(self).wf(),
        ensures
            final(self).wf(),
            (final(self).rows(), final(self).col()) == spec_write_byte(
                old(self).rows(),
                old(self).col(),
                old(self).color(),
                byte,
            ),
            final(self).color() == old(self).color(),
    {
        if byte == 10 {
            self.new_line();
        } else {
            if self.column_position >= BUFFER_WIDTH {
                self.new_line();
            }
            let row = BUFFER_HEIGHT - 1;
            let col = self.column_position;
            let cell = ScreenChar { ascii_char: byte, color_code: self.color_code };
            let mut line = self.copy_row(row);
            line.set(col, cell);
            self.buffer.set(row, line);
            self.column_position = col + 1;
            proof {
                assert(self.rows() =~= spec_write_byte(
                    old(self).rows(),
                    old(self).col(),
                    old(self).color(),
                    byte,
                ).0);
            }
        }
    }

    /// Writes a string byte by byte: printable ASCII and newlines as
    /// they are, anything else as the filled-square character 0xfe.
    pub fn write_string(&mut self, s: &str)
        requires
            old(self).wf(),
        ensures
            final(self).wf(),
            (final(self).rows(), final(self).col()) == spec_write_bytes(
                old(self).rows(),
                old(self).col(),
                old(self).color(),
                s.spec_bytes(),
            ),
            final(self).color() == old(self).color(),
    {
        let bytes = s.as_bytes();
        let n = bytes.len();
        let mut i: usize = 0;
        while i < n
            invariant
                self.wf(),
                n == bytes@.len(),
                bytes@ == s.spec_bytes(),
                i <= n,
                self.color() == old(self).color(),
                (self.rows(), self.col()) == spec_write_bytes(
                    old(self).rows(),
                    old(self).col(),
                    old(self).color(),
                    s.spec_bytes().take(i as int),
                ),
            decreases n - i,
        {
            let byte = bytes[i];
            proof {
                lemma_write_bytes_snoc(
                    old(self).rows(),
                    old(self).col(),
                    old(self).color(),
                    s.spec_bytes().take(i as int),
                    byte,
                );
                assert(s.spec_bytes().take(i as int).push(byte) =~= s.spec_bytes().take(
                    i as int + 1,
                ));
            }
            if (0x20 <= byte && byte <= 0x7e) || byte == 10 {
                self.write_byte(byte);
            } else {
                self.write_byte(0xfe);
            }
            i = i + 1;
        }
        proof {
            assert(s.spec_bytes().take(n as int) =~= s.spec_bytes());
        }
    }
}

} // verus!
