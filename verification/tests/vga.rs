//! The VGA writer: text enters on the bottom row, newlines scroll, the
//! printable-ASCII filter replaces everything else.

use rust_os_playground::vga_buffer::Color;
use rust_os_playground::vga_buffer::ColorCode;
use rust_os_playground::vga_buffer::Writer;
use rust_os_playground::vga_buffer::BUFFER_HEIGHT;
use rust_os_playground::vga_buffer::BUFFER_WIDTH;

fn yellow_on_black() -> ColorCode {
    ColorCode::new(Color::Yellow, Color::Black)
}

#[test]
fn color_numbers_follow_hardware_order() {
    assert_eq!(Color::Black.number(), 0);
    assert_eq!(Color::Blue.number(), 1);
    assert_eq!(Color::Yellow.number(), 14);
    assert_eq!(Color::White.number(), 15);
}

#[test]
fn color_code_packs_background_high_foreground_low() {
    assert_eq!(ColorCode::new(Color::Yellow, Color::Black).to_byte(), 0x0e);
    assert_eq!(ColorCode::new(Color::White, Color::Blue).to_byte(), 0x1f);
    assert_eq!(ColorCode::new(Color::Black, Color::White).to_byte(), 0xf0);
}

#[test]
fn new_writer_is_blank() {
    let w = Writer::new(yellow_on_black());
    assert_eq!(w.column(), 0);
    for row in 0..BUFFER_HEIGHT {
        for col in 0..BUFFER_WIDTH {
            assert_eq!(w.char_at(row, col).ascii_char, b' ');
        }
    }
}

#[test]
fn bytes_land_on_the_bottom_row() {
    let mut w = Writer::new(yellow_on_black());
    w.write_byte(b'H');
    w.write_byte(b'i');
    assert_eq!(w.char_at(BUFFER_HEIGHT - 1, 0).ascii_char, b'H');
    assert_eq!(w.char_at(BUFFER_HEIGHT - 1, 1).ascii_char, b'i');
    assert_eq!(w.char_at(BUFFER_HEIGHT - 1, 0).color_code, yellow_on_black());
    assert_eq!(w.column(), 2);
}

#[test]
fn newline_scrolls_the_line_up() {
    let mut w = Writer::new(yellow_on_black());
    let s = "some test string that fits on a single line";
    w.write_string(s);
    w.write_byte(b'\n');

    // The string now sits one row above the bottom, and the bottom row
    // is blank again.
    for (i, b) in s.bytes().enumerate() {
        assert_eq!(w.char_at(BUFFER_HEIGHT - 2, i).ascii_char, b);
    }
    for col in 0..BUFFER_WIDTH {
        assert_eq!(w.char_at(BUFFER_HEIGHT - 1, col).ascii_char, b' ');
    }
    assert_eq!(w.column(), 0);
}

#[test]
fn long_line_wraps_by_scrolling() {
    let mut w = Writer::new(yellow_on_black());
    let mut long = String::new();
    for _ in 0..BUFFER_WIDTH {
        long.push('x');
    }
    long.push_str("tail");
    w.write_string(&long);

    // The first eighty bytes filled the bottom row and were scrolled
    // up; the tail starts the fresh bottom row.
    for col in 0..BUFFER_WIDTH {
        assert_eq!(w.char_at(BUFFER_HEIGHT - 2, col).ascii_char, b'x');
    }
    assert_eq!(w.char_at(BUFFER_HEIGHT - 1, 0).ascii_char, b't');
    assert_eq!(w.char_at(BUFFER_HEIGHT - 1, 3).ascii_char, b'l');
    assert_eq!(w.column(), 4);
}

#[test]
fn unprintable_bytes_become_filled_squares() {
    let mut w = Writer::new(yellow_on_black());
    w.write_string("a\u{7f}b");
    assert_eq!(w.char_at(BUFFER_HEIGHT - 1, 0).ascii_char, b'a');
    assert_eq!(w.char_at(BUFFER_HEIGHT - 1, 1).ascii_char, 0xfe);
    assert_eq!(w.char_at(BUFFER_HEIGHT - 1, 2).ascii_char, b'b');
}

#[test]
fn many_lines_scroll_without_trouble() {
    let mut w = Writer::new(yellow_on_black());
    for _ in 0..200 {
        w.write_string("so much printing\n");
    }
    for (i, b) in "so much printing".bytes().enumerate() {
        assert_eq!(w.char_at(BUFFER_HEIGHT - 2, i).ascii_char, b);
    }
    assert_eq!(w.column(), 0);
}
