use ayaya::ansi::{Ansi, Color};
use ayaya::parse::{ansi, ansi_char, ansi_color, ansi_escape, ansi_newline, image, parse};
use nom::branch::alt;
use nom::bytes::complete::tag;
use nom::character::complete::{anychar, char, u8};
use nom::combinator::all_consuming;
use nom::multi::fold_many1;
use nom::IResult;

fn chars(s: &str) -> Vec<char> {
    s.chars().collect()
}

fn ch(fg: u8, bg: u8, c: char) -> Ansi {
    Ansi::Character { color: Color::Value { foreground: fg, background: bg }, character: c }
}

#[test]
fn escape_is_two_characters() {
    assert_eq!(ansi_escape(&chars("\u{1b}[0m")), Some(2));
    assert_eq!(ansi_escape(&chars("\u{1b}")), None);
    assert_eq!(ansi_escape(&chars("[\u{1b}")), None);
    assert_eq!(ansi_escape(&chars("")), None);
}

#[test]
fn newline_is_reset_and_line_break() {
    assert_eq!(ansi_newline(&chars("\u{1b}[0m\nrest")), Some(5));
    assert_eq!(ansi_newline(&chars("\u{1b}[0m")), None);
    assert_eq!(ansi_newline(&chars("\u{1b}[1m\n")), None);
}

#[test]
fn color_reads_foreground_and_background() {
    let input = chars("\u{1b}[38;5;16;48;5;231m▓");
    assert_eq!(ansi_color(&input), Some((19, Color::Value { foreground: 16, background: 231 })));
}

#[test]
fn color_accepts_leading_zeros() {
    let input = chars("\u{1b}[38;5;007;48;5;0255m ");
    assert_eq!(ansi_color(&input), Some((21, Color::Value { foreground: 7, background: 255 })));
}

#[test]
fn color_rejects_numbers_that_overflow_a_byte() {
    assert_eq!(ansi_color(&chars("\u{1b}[38;5;256;48;5;1m ")), None);
    assert_eq!(ansi_color(&chars("\u{1b}[38;5;1;48;5;1000m ")), None);
}

#[test]
fn color_rejects_missing_parts() {
    assert_eq!(ansi_color(&chars("\u{1b}[38;5;;48;5;1m")), None);
    assert_eq!(ansi_color(&chars("\u{1b}[38;5;1;48;5;1")), None);
    assert_eq!(ansi_color(&chars("\u{1b}[38;5;1;47;5;1m")), None);
    assert_eq!(ansi_color(&chars("\u{1b}[0m\n")), None);
}

#[test]
fn char_takes_any_next_character() {
    let input = chars("\u{1b}[38;5;1;48;5;2m\n");
    assert_eq!(ansi_char(&input), Some((17, ch(1, 2, '\n'))));
    assert_eq!(ansi_char(&chars("\u{1b}[38;5;1;48;5;2m")), None);
}

#[test]
fn ansi_prefers_character_then_newline() {
    assert_eq!(ansi(&chars("\u{1b}[0m\n")), Some((5, Ansi::Newline)));
    assert_eq!(ansi(&chars("\u{1b}[38;5;9;48;5;9mX")), Some((17, ch(9, 9, 'X'))));
    assert_eq!(ansi(&chars("hello")), None);
}

#[test]
fn image_reads_as_many_tokens_as_follow() {
    let input = chars("\u{1b}[38;5;1;48;5;2ma\u{1b}[0m\ntrailing");
    let (n, items) = image(&input).unwrap();
    assert_eq!(n, 22);
    assert_eq!(items, vec![ch(1, 2, 'a'), Ansi::Newline]);
    assert_eq!(image(&chars("nothing")), None);
    assert_eq!(image(&chars("")), None);
}

#[test]
fn parse_reads_a_whole_picture() {
    let input = chars("\u{1b}[38;5;16;48;5;16m \u{1b}[38;5;16;48;5;16m░\u{1b}[0m\n\u{1b}[38;5;231;48;5;16m▓\u{1b}[0m\n");
    assert_eq!(
        parse(&input),
        vec![ch(16, 16, ' '), ch(16, 16, '░'), Ansi::Newline, ch(231, 16, '▓'), Ansi::Newline]
    );
}

// The grammar written with `nom` combinators, to compare the parser against.
fn nom_parse(data: &str) -> Option<Vec<Ansi>> {
    all_consuming(nom_image)(data).map(|(_, data)| data).ok()
}

fn nom_image(i: &str) -> IResult<&str, Vec<Ansi>> {
    fold_many1(nom_ansi, Vec::new, |mut acc, item| {
        acc.push(item);
        acc
    })(i)
}

fn nom_ansi(i: &str) -> IResult<&str, Ansi> {
    alt((nom_ansi_char, nom_ansi_newline))(i)
}

fn nom_ansi_char(i: &str) -> IResult<&str, Ansi> {
    let (i, color) = nom_ansi_color(i)?;
    let (i, character) = anychar(i)?;
    Ok((i, Ansi::Character { color, character }))
}

fn nom_ansi_color(i: &str) -> IResult<&str, Color> {
    let (i, _) = tag("\u{1b}[")(i)?;
    let (i, _) = tag("38;5;")(i)?;
    let (i, foreground) = u8(i)?;
    let (i, _) = tag(";48;5;")(i)?;
    let (i, background) = u8(i)?;
    let (i, _) = char('m')(i)?;
    Ok((i, Color::Value { foreground, background }))
}

fn nom_ansi_newline(i: &str) -> IResult<&str, Ansi> {
    let (i, _) = tag("\u{1b}[")(i)?;
    let (i, _) = tag("0m\n")(i)?;
    Ok((i, Ansi::Newline))
}

#[test]
fn parser_agrees_with_nom_grammar() {
    let samples = [
        "\u{1b}[38;5;16;48;5;16m \u{1b}[0m\n",
        "\u{1b}[38;5;007;48;5;0255m▓",
        "\u{1b}[38;5;256;48;5;1m ",
        "\u{1b}[0m\n\u{1b}[0m\n",
        "\u{1b}[0m\nx",
        "\u{1b}[38;5;1;48;5;2m\u{1b}\u{1b}[0m\n",
        "",
        "plain",
        "\u{1b}[38;5;1;48;5;2m",
        "\u{1b}[38;5;12;48;5;34m😀\u{1b}[38;5;12;48;5;34m😀",
    ];
    for s in samples {
        let expected = nom_parse(s);
        let input = chars(s);
        let got = match image(&input) {
            Some((n, items)) if n == input.len() => Some(items),
            _ => None,
        };
        assert_eq!(got, expected, "{:?}", s);
        if let Some(items) = expected {
            assert_eq!(parse(&input), items);
        }
    }
}
