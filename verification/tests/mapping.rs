use ayaya::ansi::{Ansi, Color};
use ayaya::mapping::{char_mapping, color_mapping, mapping_source};

fn ch(fg: u8, bg: u8, c: char) -> Ansi {
    Ansi::Character { color: Color::Value { foreground: fg, background: bg }, character: c }
}

fn inherit(c: char) -> Ansi {
    Ansi::Character { color: Color::Inherit, character: c }
}

#[test]
fn color_table_is_sorted_and_distinct() {
    let items = vec![ch(3, 1, 'a'), inherit('b'), ch(1, 9, 'c'), Ansi::Newline, ch(3, 0, 'd'), ch(1, 9, 'e')];
    assert_eq!(color_mapping(&items), vec![(1, 9), (3, 0), (3, 1)]);
}

#[test]
fn char_table_is_sorted_and_distinct() {
    let items = vec![ch(3, 1, '▓'), inherit(' '), ch(1, 9, '░'), Ansi::Newline, ch(3, 0, ' '), inherit('▒')];
    assert_eq!(char_mapping(&items), vec![' ', '░', '▒', '▓']);
}

#[test]
fn empty_tables() {
    assert_eq!(color_mapping(&[Ansi::Newline]), Vec::<(u8, u8)>::new());
    assert_eq!(char_mapping(&[Ansi::Newline]), Vec::<char>::new());
}

#[test]
fn mapping_source_declares_both_tables() {
    let source = mapping_source(&[(16, 16), (231, 16)], &[' ', '▓']);
    let expected = "pub const COLOR_MAPPING: [(u8, u8); 2] = [\n    (16, 16),\n    (231, 16),\n];\npub const CHAR_MAPPING: [char; 2] = [\n    ' ',\n    '▓',\n];";
    assert_eq!(String::from_utf8(source).unwrap(), expected);
}

#[test]
fn mapping_source_of_empty_tables() {
    let source = mapping_source(&[], &[]);
    let expected = "pub const COLOR_MAPPING: [(u8, u8); 0] = [\n    ,\n];\npub const CHAR_MAPPING: [char; 0] = [\n    ,\n];";
    assert_eq!(String::from_utf8(source).unwrap(), expected);
}

#[test]
fn mapping_source_matches_format() {
    let colors = vec![(0u8, 255u8), (7, 8), (100, 10)];
    let chars = vec!['a', 'é', '😀'];
    let color_map_contents = format!(
        "pub const COLOR_MAPPING: [(u8, u8); {}] = [\n    {},\n];",
        colors.len(),
        colors.iter().map(|(fg, bg)| format!("({fg}, {bg})")).collect::<Vec<_>>().join(",\n    ")
    );
    let char_map_contents = format!(
        "pub const CHAR_MAPPING: [char; {}] = [\n    {},\n];",
        chars.len(),
        chars.iter().map(|v| format!("'{v}'")).collect::<Vec<_>>().join(",\n    ")
    );
    let expected = [color_map_contents, char_map_contents].join("\n");
    assert_eq!(String::from_utf8(mapping_source(&colors, &chars)).unwrap(), expected);
}
