use ayaya::ansi::{Ansi, Color};
use ayaya::dedupe::dedupe_colors;
use ayaya::encode::{decode_data, decode_image, render_bytes, EncodeError};
use ayaya::parse::{image, parse};
use ayaya::picture::encode_image;

fn chars(s: &str) -> Vec<char> {
    s.chars().collect()
}

fn ch(fg: u8, bg: u8, c: char) -> Ansi {
    Ansi::Character { color: Color::Value { foreground: fg, background: bg }, character: c }
}

/// The colors a terminal draws each character in.
fn restore(items: &[Ansi]) -> Vec<Ansi> {
    let mut current = None;
    let mut out = Vec::new();
    for item in items {
        match *item {
            Ansi::Newline => {
                current = None;
                out.push(Ansi::Newline);
            }
            Ansi::Character { color: Color::Inherit, character } => match current {
                Some(color) => out.push(Ansi::Character { color, character }),
                None => out.push(*item),
            },
            Ansi::Character { color, .. } => {
                current = Some(color);
                out.push(*item);
            }
        }
    }
    out
}

const PICTURE: &str = "\u{1b}[38;5;16;48;5;16m \u{1b}[38;5;16;48;5;16m \u{1b}[38;5;231;48;5;16m▓\u{1b}[0m\n\u{1b}[38;5;231;48;5;16m▓\u{1b}[38;5;231;48;5;16m░\u{1b}[38;5;16;48;5;16m \u{1b}[0m\n";

#[test]
fn encode_image_builds_tables_source_and_data() {
    let items = parse(&chars(PICTURE));
    let encoded = encode_image(&items).unwrap();
    assert_eq!(encoded.colors, vec![(16, 16), (231, 16)]);
    assert_eq!(encoded.chars, vec![' ', '░', '▓']);
    assert_eq!(encoded.data, vec![0, 0, 0xfb, 1, 2, 0xff, 1, 2, 0xfc, 0, 0, 0xff]);
    let source = String::from_utf8(encoded.mapping).unwrap();
    assert!(source.starts_with("pub const COLOR_MAPPING: [(u8, u8); 2] = [\n    (16, 16),\n    (231, 16),\n];\n"));
    assert!(source.ends_with("pub const CHAR_MAPPING: [char; 3] = [\n    ' ',\n    '░',\n    '▓',\n];"));
}

#[test]
fn picture_roundtrip() {
    let items = parse(&chars(PICTURE));
    let encoded = encode_image(&items).unwrap();
    let decoded = decode_data(&encoded.data, &encoded.colors, &encoded.chars).unwrap();
    assert_eq!(decoded, dedupe_colors(&items));
    assert_eq!(restore(&decoded), items);
}

#[test]
fn decoded_text_draws_the_deduplicated_picture() {
    let items = parse(&chars(PICTURE));
    let encoded = encode_image(&items).unwrap();
    let text = decode_image(&encoded.data, &encoded.colors, &encoded.chars).unwrap();
    assert_eq!(
        String::from_utf8(text).unwrap(),
        "\u{1b}[38;5;16;48;5;16m  \u{1b}[38;5;231;48;5;16m▓\u{1b}[0m\n\u{1b}[38;5;231;48;5;16m▓░\u{1b}[38;5;16;48;5;16m \u{1b}[0m\n"
    );
}

#[test]
fn rendered_text_parses_back() {
    let items = vec![ch(1, 2, 'a'), ch(100, 200, '\u{1b}'), Ansi::Newline, ch(0, 255, '\n')];
    let text = String::from_utf8(render_bytes(&items)).unwrap();
    let input = chars(&text);
    let (n, parsed) = image(&input).unwrap();
    assert_eq!(n, input.len());
    assert_eq!(parsed, items);
}

#[test]
fn encode_image_fails_with_too_many_characters() {
    let items = vec![ch(1, 1, 'a'), ch(1, 1, 'b'), ch(1, 1, 'c'), ch(1, 1, 'd'), ch(1, 1, 'e')];
    assert_eq!(encode_image(&items).err(), Some(EncodeError::CharacterIndexTooLarge));
}

#[test]
fn encode_image_fails_with_too_many_colors() {
    let items: Vec<Ansi> = (0..=251u8).map(|i| ch(i, 0, 'a')).collect();
    assert_eq!(encode_image(&items).err(), Some(EncodeError::ColorIndexTooLarge));
    let items: Vec<Ansi> = (0..251u8).map(|i| ch(i, 0, 'a')).collect();
    assert!(encode_image(&items).is_ok());
}
