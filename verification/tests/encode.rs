use ayaya::ansi::{Ansi, Color};
use ayaya::encode::{decode_data, decode_image, encode_data, render_bytes, EncodeError, INHERIT_BASE, NEWLINE_CODE};

fn ch(fg: u8, bg: u8, c: char) -> Ansi {
    Ansi::Character { color: Color::Value { foreground: fg, background: bg }, character: c }
}

fn inherit(c: char) -> Ansi {
    Ansi::Character { color: Color::Inherit, character: c }
}

const COLORS: [(u8, u8); 2] = [(16, 16), (231, 16)];
const CHARS: [char; 4] = [' ', '░', '▒', '▓'];

#[test]
fn codes_follow_the_documented_format() {
    assert_eq!(NEWLINE_CODE, 0xff);
    assert_eq!(INHERIT_BASE, 0xfb);
}

#[test]
fn encode_writes_one_or_two_bytes_per_token() {
    let items = vec![ch(231, 16, '▓'), inherit(' '), inherit('▓'), Ansi::Newline, ch(16, 16, '░')];
    assert_eq!(encode_data(&items, &COLORS, &CHARS), Ok(vec![1, 3, 0xfb, 0xfe, 0xff, 0, 1]));
}

#[test]
fn encode_unknown_color() {
    assert_eq!(encode_data(&[ch(1, 1, ' ')], &COLORS, &CHARS), Err(EncodeError::UnknownColor));
}

#[test]
fn encode_unknown_character() {
    assert_eq!(encode_data(&[ch(16, 16, 'x')], &COLORS, &CHARS), Err(EncodeError::UnknownCharacter));
    assert_eq!(encode_data(&[inherit('x')], &COLORS, &CHARS), Err(EncodeError::UnknownCharacter));
}

#[test]
fn encode_color_index_too_large() {
    let colors: Vec<(u8, u8)> = (0..=251u8).map(|i| (i, 0)).collect();
    assert_eq!(encode_data(&[ch(250, 0, ' ')], &colors, &CHARS), Ok(vec![250, 0]));
    assert_eq!(encode_data(&[ch(251, 0, ' ')], &colors, &CHARS), Err(EncodeError::ColorIndexTooLarge));
}

#[test]
fn encode_character_index_too_large() {
    let chars = [' ', '░', '▒', '▓', 'x'];
    assert_eq!(encode_data(&[inherit('x')], &COLORS, &chars), Err(EncodeError::CharacterIndexTooLarge));
    assert_eq!(encode_data(&[ch(16, 16, 'x')], &COLORS, &chars), Ok(vec![0, 4]));
    let many: Vec<char> = (0..300u32).map(|i| char::from_u32(0x100 + i).unwrap()).collect();
    assert_eq!(encode_data(&[ch(16, 16, many[256])], &COLORS, &many), Err(EncodeError::CharacterIndexTooLarge));
    assert_eq!(encode_data(&[ch(16, 16, many[255])], &COLORS, &many), Ok(vec![0, 255]));
}

#[test]
fn first_error_wins() {
    let items = vec![Ansi::Newline, inherit('x'), ch(1, 1, ' ')];
    assert_eq!(encode_data(&items, &COLORS, &CHARS), Err(EncodeError::UnknownCharacter));
}

#[test]
fn decode_reads_back_tokens() {
    let data = vec![1, 3, 0xfb, 0xfe, 0xff, 0, 1];
    assert_eq!(
        decode_data(&data, &COLORS, &CHARS),
        Some(vec![ch(231, 16, '▓'), inherit(' '), inherit('▓'), Ansi::Newline, ch(16, 16, '░')])
    );
}

#[test]
fn decode_rejects_bytes_beyond_the_tables() {
    assert_eq!(decode_data(&[2, 0], &COLORS, &CHARS), None);
    assert_eq!(decode_data(&[0, 4], &COLORS, &CHARS), None);
    assert_eq!(decode_data(&[0], &COLORS, &CHARS), None);
    assert_eq!(decode_data(&[0xfe], &COLORS, &CHARS[..3]), None);
    assert_eq!(decode_data(&[], &COLORS, &CHARS), Some(vec![]));
}

#[test]
fn decode_of_encode_is_identity() {
    let items = vec![ch(231, 16, '▓'), inherit(' '), Ansi::Newline, ch(16, 16, '▒'), inherit('░'), Ansi::Newline];
    let data = encode_data(&items, &COLORS, &CHARS).unwrap();
    assert_eq!(decode_data(&data, &COLORS, &CHARS), Some(items));
}

#[test]
fn render_writes_terminal_text() {
    let items = vec![ch(231, 16, '▓'), inherit(' '), Ansi::Newline];
    let text = render_bytes(&items);
    assert_eq!(String::from_utf8(text).unwrap(), "\u{1b}[38;5;231;48;5;16m▓ \u{1b}[0m\n");
}

#[test]
fn decode_image_writes_terminal_text() {
    let text = decode_image(&[0, 0, 0xfc, 0xff], &COLORS, &CHARS).unwrap();
    assert_eq!(String::from_utf8(text).unwrap(), "\u{1b}[38;5;16;48;5;16m ░\u{1b}[0m\n");
    assert_eq!(decode_image(&[7], &COLORS, &CHARS), None);
}

#[test]
fn larger_tables_encode_when_every_index_fits() {
    let chars = [' ', '░', '▒', '▓', 'x', 'y'];
    let items = vec![inherit('▓'), ch(16, 16, 'y'), inherit(' ')];
    let data = encode_data(&items, &COLORS, &chars).unwrap();
    assert_eq!(data, vec![0xfe, 0, 5, 0xfb]);
    assert_eq!(decode_data(&data, &COLORS, &chars), Some(items));
}

#[test]
fn duplicate_table_entries_use_the_first_index() {
    let colors = [(1, 1), (2, 2), (1, 1)];
    let chars = ['a', 'b', 'a'];
    assert_eq!(encode_data(&[ch(1, 1, 'a'), inherit('a')], &colors, &chars), Ok(vec![0, 0, 0xfb]));
}
