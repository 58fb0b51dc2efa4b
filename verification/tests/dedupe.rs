use ayaya::ansi::{Ansi, Color};
use ayaya::dedupe::dedupe_colors;

fn ch(fg: u8, bg: u8, c: char) -> Ansi {
    Ansi::Character { color: Color::Value { foreground: fg, background: bg }, character: c }
}

fn inherit(c: char) -> Ansi {
    Ansi::Character { color: Color::Inherit, character: c }
}

#[test]
fn repeated_colors_are_inherited() {
    let items = vec![ch(1, 2, 'a'), ch(1, 2, 'b'), ch(3, 4, 'c'), ch(3, 4, 'd'), ch(3, 4, 'e')];
    assert_eq!(
        dedupe_colors(&items),
        vec![ch(1, 2, 'a'), inherit('b'), ch(3, 4, 'c'), inherit('d'), inherit('e')]
    );
}

#[test]
fn a_line_break_resets_the_colors() {
    let items = vec![ch(1, 2, 'a'), Ansi::Newline, ch(1, 2, 'b'), ch(1, 2, 'c'), Ansi::Newline];
    assert_eq!(
        dedupe_colors(&items),
        vec![ch(1, 2, 'a'), Ansi::Newline, ch(1, 2, 'b'), inherit('c'), Ansi::Newline]
    );
}

#[test]
fn returning_to_an_earlier_color_selects_it_again() {
    let items = vec![ch(1, 2, 'a'), ch(5, 5, 'b'), ch(1, 2, 'c')];
    assert_eq!(dedupe_colors(&items), items);
}

#[test]
fn dedupe_twice_is_dedupe_once() {
    let items = vec![ch(1, 2, 'a'), ch(1, 2, 'b'), ch(1, 2, 'c'), Ansi::Newline, ch(1, 2, 'd')];
    let once = dedupe_colors(&items);
    assert_eq!(dedupe_colors(&once), once);
}

#[test]
fn empty_picture_stays_empty() {
    assert_eq!(dedupe_colors(&[]), Vec::<Ansi>::new());
}
