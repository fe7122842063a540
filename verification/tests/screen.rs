use burritos::exit::QemuExitCode;
use burritos::vga::{Buffer, Color, ColorCode, ScreenChar, Writer, BUFFER_HEIGHT, BUFFER_WIDTH};

fn writer() -> Writer {
    let color = ColorCode::new(Color::Yellow, Color::Black);
    Writer::new(color, Buffer::new(ScreenChar { ascii_character: b' ', color_code: color }))
}

fn row(writer: &Writer, row: usize) -> String {
    (0..BUFFER_WIDTH)
        .map(|col| char::from(writer.buffer().read(row, col).ascii_character))
        .collect::<String>()
        .trim_end()
        .to_string()
}

#[test]
fn exit_codes_keep_clear_of_the_emulator() {
    assert_eq!(QemuExitCode::Success.code(), 0x10);
    assert_eq!(QemuExitCode::Failed.code(), 0x11);
}

#[test]
fn color_code_packs_background_and_foreground() {
    assert_eq!(Color::Black.value(), 0);
    assert_eq!(Color::Yellow.value(), 14);
    assert_eq!(Color::White.value(), 15);
    assert_eq!(ColorCode::new(Color::Yellow, Color::Black), ColorCode(0x0e));
    assert_eq!(ColorCode::new(Color::White, Color::Blue), ColorCode(0x1f));
    assert_eq!(ColorCode::new(Color::Black, Color::LightGray), ColorCode(0x70));
}

#[test]
fn bytes_go_to_the_bottom_row() {
    let mut writer = writer();
    writer.write_byte(b'H');
    writer.write_byte(b'i');
    assert_eq!(writer.column_position(), 2);
    assert_eq!(row(&writer, BUFFER_HEIGHT - 1), "Hi");
    let cell = writer.buffer().read(BUFFER_HEIGHT - 1, 0);
    assert_eq!(cell, ScreenChar { ascii_character: b'H', color_code: ColorCode(0x0e) });
}

#[test]
fn println_output_test() {
    let s = "Some test string that fits on a single line";
    let mut writer = writer();
    writer.write_string("\n");
    writer.write_string(s);
    writer.write_string("\n");
    for (i, c) in s.chars().enumerate() {
        let screen_char = writer.buffer().read(BUFFER_HEIGHT - 2, i);
        assert_eq!(char::from(screen_char.ascii_character), c);
    }
    assert_eq!(row(&writer, BUFFER_HEIGHT - 1), "");
    assert_eq!(writer.column_position(), 0);
}

#[test]
fn long_lines_wrapping_test() {
    let s = "Some test string that does not fit on a single line because it is made up of many characters";
    let mut writer = writer();
    writer.write_string(s);
    writer.write_string("\n");
    let line_slice = &s[..BUFFER_WIDTH];
    for (i, c) in line_slice.chars().enumerate() {
        let screen_char = writer.buffer().read(BUFFER_HEIGHT - 3, i);
        assert_eq!(char::from(screen_char.ascii_character), c);
    }
    assert_eq!(row(&writer, BUFFER_HEIGHT - 2), &s[BUFFER_WIDTH..]);
}

#[test]
fn unprintable_bytes_are_marked() {
    let mut writer = writer();
    writer.write_string("a\u{e9}b\tc");
    let shown: Vec<u8> =
        (0..6).map(|col| writer.buffer().read(BUFFER_HEIGHT - 1, col).ascii_character).collect();
    assert_eq!(shown, vec![b'a', 0xfe, 0xfe, b'b', 0xfe, b'c']);
}

#[test]
fn a_full_row_wraps_before_the_next_byte() {
    let mut writer = writer();
    for _ in 0..BUFFER_WIDTH {
        writer.write_byte(b'x');
    }
    assert_eq!(writer.column_position(), BUFFER_WIDTH);
    assert_eq!(row(&writer, BUFFER_HEIGHT - 2), "");
    writer.write_byte(b'y');
    assert_eq!(writer.column_position(), 1);
    assert_eq!(row(&writer, BUFFER_HEIGHT - 2), "x".repeat(BUFFER_WIDTH));
    assert_eq!(row(&writer, BUFFER_HEIGHT - 1), "y");
}

#[test]
fn the_top_row_scrolls_away() {
    let mut writer = writer();
    for line in 0..BUFFER_HEIGHT + 2 {
        writer.write_byte(b'a' + (line % 26) as u8);
        writer.write_byte(b'\n');
    }
    // lines 3 .. 26 stand in rows 0 .. 23, the bottom row is blank
    assert_eq!(row(&writer, 0), "d");
    assert_eq!(row(&writer, BUFFER_HEIGHT - 2), "a");
    assert_eq!(row(&writer, BUFFER_HEIGHT - 1), "");
}

#[test]
fn clear_row_blanks_one_row() {
    let mut writer = writer();
    writer.write_string("one\ntwo");
    writer.clear_row(BUFFER_HEIGHT - 2);
    assert_eq!(row(&writer, BUFFER_HEIGHT - 2), "");
    assert_eq!(row(&writer, BUFFER_HEIGHT - 1), "two");
    assert_eq!(writer.column_position(), 3);
}
