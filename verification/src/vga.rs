//! The text screen: a grid of coloured characters, written at the bottom
//! line and scrolled upwards.

use vstd::prelude::*;
use vstd::string::StringSliceAdditionalSpecFns;

verus! {

/// Rows on the screen.
pub const BUFFER_HEIGHT: usize = 25;

/// Columns on the screen.
pub const BUFFER_WIDTH: usize = 80;

/// What is shown for a byte that is no printable character.
pub const UNPRINTABLE: u8 = 0xfe;

/// The sixteen colours of the text mode.
#[allow(dead_code)]
#[derive(Debug, Clone, Copy, PartialEq, Eq, Structural)]
pub enum Color {
    Black,
    Blue,
    Green,
    Cyan,
    Red,
    Magenta,
    Brown,
    LightGray,
    DarkGray,
    LightBlue,
    LightGreen,
    LightCyan,
    LightRed,
    Pink,
    Yellow,
    White,
}

impl Color {
    /// The number of the colour, from 0 for black to 15 for white.
    pub open spec fn value_spec(self) -> u8 {
        match self {
            Color::Black => 0,
            Color::Blue => 1,
            Color::Green => 2,
            Color::Cyan => 3,
            Color::Red => 4,
            Color::Magenta => 5,
            Color::Brown => 6,
            Color::LightGray => 7,
            Color::DarkGray => 8,
            Color::LightBlue => 9,
            Color::LightGreen => 10,
            Color::LightCyan => 11,
            Color::LightRed => 12,
            Color::Pink => 13,
            Color::Yellow => 14,
            Color::White => 15,
        }
    }

    /// The number of the colour, from 0 for black to 15 for white.
    #[verifier::when_used_as_spec(value_spec)]
    pub fn value(self) -> (value: u8)
        ensures
            value == self.value_spec(),
            value < 16,
    {
        match self {
            Color::Black => 0,
            Color::Blue => 1,
            Color::Green => 2,
            Color::Cyan => 3,
            Color::Red => 4,
            Color::Magenta => 5,
            Color::Brown => 6,
            Color::LightGray => 7,
            Color::DarkGray => 8,
            Color::LightBlue => 9,
            Color::LightGreen => 10,
            Color::LightCyan => 11,
            Color::LightRed => 12,
            Color::Pink => 13,
            Color::Yellow => 14,
            Color::White => 15,
        }
    }
}

/// A foreground and a background colour in one byte: the background in the
/// upper four bits, the foreground in the lower four.
#[derive(Debug, Clone, Copy, PartialEq, Eq, Structural)]
pub struct ColorCode(pub u8);

impl ColorCode {
    /// The byte for the two colours.
    pub open spec fn of(foreground: Color, background: Color) -> ColorCode {
        ColorCode((background.value() * 16 + foreground.value()) as u8)
    }

    /// The colour code for the given foreground on the given background.
    pub fn new(foreground: Color, background: Color) -> (code: ColorCode)
        ensures
            code == ColorCode::of(foreground, background),
    {
        let back = background.value();
        let fore = foreground.value();
        assert((back << 4) | fore == back * 16 + fore) by (bit_vector)
            requires
                back < 16,
                fore < 16,
        ;
        ColorCode((back << 4) | fore)
    }
}

/// One cell of the screen.
#[derive(Debug, Clone, Copy, PartialEq, Eq, Structural)]
pub struct ScreenChar {
    /// The character, in code page 437.
    pub ascii_character: u8,
    /// Its colours.
    pub color_code: ColorCode,
}

/// Whether a byte is shown as it is: the printable characters and the line
/// feed.
pub open spec fn is_printable(byte: u8) -> bool {
    0x20 <= byte <= 0x7e || byte == 0x0a
}

/// What is written for a byte of a string: the byte, or the mark for what
/// cannot be printed.
pub open spec fn shown(byte: u8) -> u8 {
    if is_printable(byte) {
        byte
    } else {
        UNPRINTABLE
    }
}

/// What the screen shows and where the next character goes, as plain
/// values.
pub struct ScreenState {
    /// The rows of the screen, the top one first.
    pub rows: Seq<Seq<ScreenChar>>,
    /// The column of the bottom row that the next character goes to.
    pub column_position: usize,
    /// The colours of what is written next.
    pub color_code: ColorCode,
}

impl ScreenState {
    /// Whether the screen has its size and the column lies on it or just
    /// behind its last column.
    pub open spec fn wf(self) -> bool {
        &&& self.rows.len() == BUFFER_HEIGHT
        &&& forall|r: int| 0 <= r < BUFFER_HEIGHT ==> (#[trigger] self.rows[r]).len() == BUFFER_WIDTH
        &&& self.column_position <= BUFFER_WIDTH
    }

    /// A row of spaces in the current colours.
    pub open spec fn blank_row(self) -> Seq<ScreenChar> {
        Seq::new(
            BUFFER_WIDTH as nat,
            |c: int| ScreenChar { ascii_character: 0x20, color_code: self.color_code },
        )
    }

    /// What `clear_row` does: the row becomes blank.
    pub open spec fn clear_row(self, row: int) -> ScreenState {
        ScreenState { rows: self.rows.update(row, self.blank_row()), ..self }
    }

    /// What `new_line` does: every row moves up by one, the top row is
    /// lost, the bottom row is blank, and writing goes on at its start.
    pub open spec fn new_line(self) -> ScreenState {
        ScreenState {
            rows: self.rows.subrange(1, BUFFER_HEIGHT as int).push(self.blank_row()),
            column_position: 0,
            ..self
        }
    }

    /// The screen with `byte` put at the column of the bottom row, after a
    /// new line if that row is full.
    pub open spec fn put(self, byte: u8) -> ScreenState {
        let at = if self.column_position >= BUFFER_WIDTH {
            self.new_line()
        } else {
            self
        };
        let bottom = BUFFER_HEIGHT - 1;
        ScreenState {
            rows: at.rows.update(
                bottom,
                at.rows[bottom].update(
                    at.column_position as int,
                    ScreenChar { ascii_character: byte, color_code: self.color_code },
                ),
            ),
            column_position: (at.column_position + 1) as usize,
            ..at
        }
    }

    /// What `write_byte` does: a line feed starts a new line, any other
    /// byte is put on the screen.
    pub open spec fn write_byte(self, byte: u8) -> ScreenState {
        if byte == 0x0a {
            self.new_line()
        } else {
            self.put(byte)
        }
    }

    /// What `write_string` does to the screen, byte by byte.
    pub open spec fn write_bytes(self, bytes: Seq<u8>) -> ScreenState
        decreases bytes.len(),
    {
        if bytes.len() == 0 {
            self
        } else {
            self.write_bytes(bytes.drop_last()).write_byte(shown(bytes.last()))
        }
    }

    /// Writing a byte keeps the size of the screen, and the column on it.
    pub proof fn lemma_write_byte_keeps_wf(self, byte: u8)
        requires
            self.wf(),
        ensures
            self.write_byte(byte).wf(),
            self.write_byte(byte).color_code == self.color_code,
    {
    }

    /// Writing bytes keeps the size of the screen, and the column on it.
    pub proof fn lemma_write_bytes_keeps_wf(self, bytes: Seq<u8>)
        requires
            self.wf(),
        ensures
            self.write_bytes(bytes).wf(),
            self.write_bytes(bytes).color_code == self.color_code,
        decreases bytes.len(),
    {
        if bytes.len() > 0 {
            self.lemma_write_bytes_keeps_wf(bytes.drop_last());
            self.write_bytes(bytes.drop_last()).lemma_write_byte_keeps_wf(shown(bytes.last()));
        }
    }
}

/// The cells of the screen, row by row.
pub struct Buffer {
    chars: Vec<Vec<ScreenChar>>,
}

impl View for Buffer {
    type V = Seq<Seq<ScreenChar>>;

    closed spec fn view(&self) -> Seq<Seq<ScreenChar>> {
        Seq::new(self.chars@.len(), |r: int| self.chars@[r]@)
    }
}

impl Buffer {
    /// Whether the buffer has the size of the screen.
    pub open spec fn wf(&self) -> bool {
        &&& self@.len() == BUFFER_HEIGHT
        &&& forall|r: int| 0 <= r < BUFFER_HEIGHT ==> (#[trigger] self@[r]).len() == BUFFER_WIDTH
    }

    /// A screen on which every cell is `fill`.
    pub fn new(fill: ScreenChar) -> (buffer: Buffer)
        ensures
            buffer.wf(),
            forall|r: int, c: int|
                0 <= r < BUFFER_HEIGHT && 0 <= c < BUFFER_WIDTH ==> #[trigger] buffer@[r][c] == fill,
    {
        let mut chars: Vec<Vec<ScreenChar>> = Vec::new();
        while chars.len() < BUFFER_HEIGHT
            invariant
                chars.len() <= BUFFER_HEIGHT,
                forall|r: int| 0 <= r < chars.len() ==> (#[trigger] chars@[r])@.len() == BUFFER_WIDTH,
                forall|r: int, c: int|
                    0 <= r < chars.len() && 0 <= c < BUFFER_WIDTH ==> #[trigger] chars@[r]@[c]
                        == fill,
            decreases BUFFER_HEIGHT - chars.len(),
        {
            let mut row: Vec<ScreenChar> = Vec::new();
            while row.len() < BUFFER_WIDTH
                invariant
                    row.len() <= BUFFER_WIDTH,
                    forall|c: int| 0 <= c < row.len() ==> #[trigger] row@[c] == fill,
                decreases BUFFER_WIDTH - row.len(),
            {
                row.push(fill);
            }
            chars.push(row);
        }
        Buffer { chars }
    }

    /// The cell at the given row and column.
    pub fn read(&self, row: usize, col: usize) -> (cell: ScreenChar)
        requires
            self.wf(),
            row < BUFFER_HEIGHT,
            col < BUFFER_WIDTH,
        ensures
            cell == self@[row as int][col as int],
    {
        assert(self@[row as int] == self.chars@[row as int]@);
        self.chars[row][col]
    }

    /// Puts `cell` at the given row and column.
    pub fn write(&mut self, row: usize, col: usize, cell: ScreenChar)
        requires
            old(self).wf(),
            row < BUFFER_HEIGHT,
            col < BUFFER_WIDTH,
        ensures
            final(self)@ == old(self)@.update(
                row as int,
                old(self)@[row as int].update(col as int, cell),
            ),
            final(self).wf(),
    {
        assert(self@[row as int] == self.chars@[row as int]@);
        self.chars[row].set(col, cell);
        assert(self@ =~~= old(self)@.update(
            row as int,
            old(self)@[row as int].update(col as int, cell),
        ));
    }
}

/// Writes characters to the bottom line of the screen.
pub struct Writer {
    column_position: usize,
    color_code: ColorCode,
    buffer: Buffer,
}

impl View for Writer {
    type V = ScreenState;

    closed spec fn view(&self) -> ScreenState {
        ScreenState {
            rows: self.buffer@,
            column_position: self.column_position,
            color_code: self.color_code,
        }
    }
}

impl Writer {
    /// A writer at the start of the bottom line of the given screen.
    pub fn new(color_code: ColorCode, buffer: Buffer) -> (writer: Writer)
        requires
            buffer.wf(),
        ensures
            writer@ == (ScreenState { rows: buffer@, column_position: 0, color_code }),
            writer@.wf(),
    {
        Writer { column_position: 0, color_code, buffer }
    }

    /// The screen as it is now.
    pub fn buffer(&self) -> (buffer: &Buffer)
        ensures
            buffer@ == self@.rows,
    {
        &self.buffer
    }

    /// The column of the bottom row that the next character goes to.
    pub fn column_position(&self) -> (column: usize)
        ensures
            column == self@.column_position,
    {
        self.column_position
    }

    /// Writes one byte: a line feed starts a new line; any other byte goes
    /// to the bottom row, on a new line if the row is full.
    pub fn write_byte(&mut self, byte: u8)
        requires
            old(self)@.wf(),
        ensures
            final(self)@ == old(self)@.write_byte(byte),
            final(self)@.wf(),
    {
        if byte == 0x0a {
            self.new_line();
        } else {
            if self.column_position >= BUFFER_WIDTH {
                self.new_line();
            }
            let row = BUFFER_HEIGHT - 1;
            let col = self.column_position;

            let color_code = self.color_code;
            self.buffer.write(row, col, ScreenChar { ascii_character: byte, color_code });
            self.column_position += 1;
        }
    }

    /// Writes a string. A byte that is neither a printable character nor a
    /// line feed is written as `UNPRINTABLE`.
    pub fn write_string(&mut self, s: &str)
        requires
            old(self)@.wf(),
        ensures
            final(self)@ == old(self)@.write_bytes(s.spec_bytes()),
            final(self)@.wf(),
    {
        let bytes = s.as_bytes();
        let mut done: usize = 0;
        while done < bytes.len()
            invariant
                done <= bytes.len(),
                old(self)@.wf(),
                self@ == old(self)@.write_bytes(bytes@.subrange(0, done as int)),
                self@.wf(),
            decreases bytes.len() - done,
        {
            let byte = bytes[done];
            proof {
                let before = bytes@.subrange(0, done as int);
                let with = bytes@.subrange(0, done + 1);
                assert(with.drop_last() =~= before);
                assert(with.last() == byte);
            }
            if (0x20 <= byte && byte <= 0x7e) || byte == 0x0a {
                self.write_byte(byte);
            } else {
                self.write_byte(UNPRINTABLE);
            }
            done += 1;
        }
        assert(bytes@.subrange(0, done as int) =~= bytes@);
    }

    /// Moves every row up by one and starts on a blank bottom row.
    pub fn new_line(&mut self)
        requires
            old(self)@.wf(),
        ensures
            final(self)@ == old(self)@.new_line(),
            final(self)@.wf(),
    {
        let mut row: usize = 1;
        while row < BUFFER_HEIGHT
            invariant
                1 <= row <= BUFFER_HEIGHT,
                old(self)@.wf(),
                self@.wf(),
                self@.column_position == old(self)@.column_position,
                self@.color_code == old(self)@.color_code,
                forall|r: int| 0 <= r < row - 1 ==> #[trigger] self@.rows[r] == old(self)@.rows[r + 1],
                forall|r: int|
                    row - 1 <= r < BUFFER_HEIGHT ==> #[trigger] self@.rows[r] == old(self)@.rows[r],
            decreases BUFFER_HEIGHT - row,
        {
            let ghost before = self@;
            let mut col: usize = 0;
            while col < BUFFER_WIDTH
                invariant
                    1 <= row < BUFFER_HEIGHT,
                    col <= BUFFER_WIDTH,
                    before.wf(),
                    self@.wf(),
                    self@.column_position == before.column_position,
                    self@.color_code == before.color_code,
                    forall|r: int|
                        0 <= r < BUFFER_HEIGHT && r != row - 1 ==> #[trigger] self@.rows[r]
                            == before.rows[r],
                    forall|c: int|
                        0 <= c < col ==> #[trigger] self@.rows[row - 1][c] == before.rows[row as int][c],
                decreases BUFFER_WIDTH - col,
            {
                let character = self.buffer.read(row, col);
                self.buffer.write(row - 1, col, character);
                col += 1;
            }
            assert(self@.rows[row - 1] =~= before.rows[row as int]);
            row += 1;
        }
        self.clear_row(BUFFER_HEIGHT - 1);
        self.column_position = 0;
        assert(self@.rows =~= old(self)@.new_line().rows);
    }

    /// Fills a row with spaces in the current colours.
    pub fn clear_row(&mut self, row: usize)
        requires
            old(self)@.wf(),
            row < BUFFER_HEIGHT,
        ensures
            final(self)@ == old(self)@.clear_row(row as int),
            final(self)@.wf(),
    {
        let space_char = ScreenChar { ascii_character: 0x20, color_code: self.color_code };
        let mut col: usize = 0;
        while col < BUFFER_WIDTH
            invariant
                row < BUFFER_HEIGHT,
                col <= BUFFER_WIDTH,
                old(self)@.wf(),
                self@.wf(),
                space_char == (ScreenChar { ascii_character: 0x20, color_code: self@.color_code }),
                self@.column_position == old(self)@.column_position,
                self@.color_code == old(self)@.color_code,
                forall|r: int|
                    0 <= r < BUFFER_HEIGHT && r != row ==> #[trigger] self@.rows[r] == old(
                        self,
                    )@.rows[r],
                forall|c: int| 0 <= c < col ==> #[trigger] self@.rows[row as int][c] == space_char,
            decreases BUFFER_WIDTH - col,
        {
            self.buffer.write(row, col, space_char);
            col += 1;
        }
        assert(self@.rows[row as int] =~= old(self)@.blank_row());
        assert(self@.rows =~= old(self)@.clear_row(row as int).rows);
    }
}

} // verus!
