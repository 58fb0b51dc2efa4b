//! The picture's tokens and the terminal text they stand for.

use vstd::prelude::*;
use vstd::utf8::encode_utf8;

use crate::text::{decimal, lemma_encode_utf8_concat, push_bytes, push_char, push_str, u8_decimal};

verus! {

/// The colors a character is drawn in.
#[derive(Clone, Copy, Debug, PartialEq, Eq, Structural, PartialOrd, Ord, Hash)]
pub enum Color {
    /// Keep the colors of the previous character on the line.
    Inherit,
    /// A 256-color palette foreground and background.
    Value { foreground: u8, background: u8 },
}

/// One token of the picture.
#[derive(Clone, Copy, Debug, PartialEq, Eq, Structural, PartialOrd, Ord, Hash)]
pub enum Ansi {
    /// A character drawn in a color.
    Character { color: Color, character: char },
    /// A color reset followed by a line break.
    Newline,
}

/// The escape that starts every control sequence: `ESC [`.
pub open spec fn escape() -> Seq<char> {
    seq!['\u{1b}', '[']
}

/// The text of a line break: a color reset and a newline.
pub open spec fn newline_text() -> Seq<char> {
    escape() + seq!['0', 'm', '\n']
}

/// The text between the escape and the foreground number.
pub open spec fn foreground_tag() -> Seq<char> {
    seq!['3', '8', ';', '5', ';']
}

/// The text between the foreground and the background number.
pub open spec fn background_tag() -> Seq<char> {
    seq![';', '4', '8', ';', '5', ';']
}

/// The control sequence that selects a foreground and a background color.
pub open spec fn color_text(foreground: u8, background: u8) -> Seq<char> {
    escape() + foreground_tag() + decimal(foreground as nat) + background_tag() + decimal(
        background as nat,
    ) + seq!['m']
}

/// The terminal text of one token.
pub open spec fn render_ansi(a: Ansi) -> Seq<char> {
    match a {
        Ansi::Newline => newline_text(),
        Ansi::Character { color: Color::Inherit, character } => seq![character],
        Ansi::Character { color: Color::Value { foreground, background }, character } => color_text(
            foreground,
            background,
        ).push(character),
    }
}

/// The terminal text of a sequence of tokens.
pub open spec fn render(items: Seq<Ansi>) -> Seq<char>
    decreases items.len(),
{
    if items.len() == 0 {
        seq![]
    } else {
        render_ansi(items[0]) + render(items.drop_first())
    }
}

/// Whether no character of `items` inherits its colors.
pub open spec fn all_colored(items: Seq<Ansi>) -> bool {
    forall|i: int|
        0 <= i < items.len() ==> !(#[trigger] items[i] matches Ansi::Character {
            color: Color::Inherit,
            ..
        })
}

/// Appends the UTF-8 encoding of the terminal text of `a` to `out`.
pub fn push_ansi(out: &mut Vec<u8>, a: Ansi)
    ensures
        final(out)@ == old(out)@ + encode_utf8(render_ansi(a)),
        a matches Ansi::Character { color: Color::Inherit, character } ==> final(out)@ == old(out)@
            + encode_utf8(seq![character]),
{
    match a {
        Ansi::Newline => {
            proof {
                reveal_strlit("\u{1b}[0m\n");
            }
            push_str(out, "\u{1b}[0m\n");
            assert("\u{1b}[0m\n"@ =~= newline_text());
        },
        Ansi::Character { color: Color::Inherit, character } => {
            push_char(out, character);
        },
        Ansi::Character { color: Color::Value { foreground, background }, character } => {
            proof {
                reveal_strlit("\u{1b}[38;5;");
                reveal_strlit(";48;5;");
                reveal_strlit("m");
            }
            let ghost s0 = out@;
            push_str(out, "\u{1b}[38;5;");
            let mut digits: [u8; 3] = [0u8; 3];
            let len = u8_decimal(foreground, &mut digits);
            push_bytes(out, digits.as_slice(), len);
            push_str(out, ";48;5;");
            let len = u8_decimal(background, &mut digits);
            push_bytes(out, digits.as_slice(), len);
            push_str(out, "m");
            push_char(out, character);
            proof {
                let p1 = "\u{1b}[38;5;"@;
                let p2 = decimal(foreground as nat);
                let p3 = ";48;5;"@;
                let p4 = decimal(background as nat);
                let p5 = "m"@;
                let p6 = seq![character];
                assert(p1 =~= escape() + foreground_tag());
                assert(p3 =~= background_tag());
                assert(render_ansi(a) =~= p1 + p2 + p3 + p4 + p5 + p6);
                lemma_encode_utf8_concat(p1, p2);
                lemma_encode_utf8_concat(p1 + p2, p3);
                lemma_encode_utf8_concat(p1 + p2 + p3, p4);
                lemma_encode_utf8_concat(p1 + p2 + p3 + p4, p5);
                lemma_encode_utf8_concat(p1 + p2 + p3 + p4 + p5, p6);
                assert(out@ =~= s0 + encode_utf8(render_ansi(a)));
            }
        },
    }
}

/// The terminal text of a character token ends with that character, drawn in
/// whatever colors; a character that inherits its colors is drawn as the
/// character alone.
pub proof fn lemma_render_character(color: Color, c: char)
    ensures
        render_ansi(Ansi::Character { color, character: c }).len() > 0,
        render_ansi(Ansi::Character { color, character: c }).last() == c,
        color is Inherit ==> render_ansi(Ansi::Character { color, character: c }) == seq![c],
        color is Inherit ==> encode_utf8(render_ansi(Ansi::Character { color, character: c }))
            == encode_utf8(seq![c]),
{
}

/// The terminal text of two runs of tokens is the text of the first followed
/// by the text of the second.
pub proof fn lemma_render_concat(a: Seq<Ansi>, b: Seq<Ansi>)
    ensures
        render(a + b) == render(a) + render(b),
    decreases a.len(),
{
    if a.len() == 0 {
        assert(a + b =~= b);
        assert(render(a) == Seq::<char>::empty());
        assert(Seq::<char>::empty() + render(b) =~= render(b));
    } else {
        lemma_render_concat(a.drop_first(), b);
        assert((a + b).drop_first() =~= a.drop_first() + b);
        assert((a + b)[0] == a[0]);
        assert(render_ansi(a[0]) + (render(a.drop_first()) + render(b)) =~= (render_ansi(a[0])
            + render(a.drop_first())) + render(b));
    }
}

/// The terminal text of characters that all inherit their colors is exactly
/// those characters, one after the other.
pub proof fn lemma_render_inherited(items: Seq<Ansi>)
    requires
        forall|i: int|
            0 <= i < items.len() ==> (#[trigger] items[i] matches Ansi::Character {
                color: Color::Inherit,
                ..
            }),
    ensures
        render(items) == items.map_values(|t: Ansi| t->character),
    decreases items.len(),
{
    if items.len() == 0 {
        assert(items.map_values(|t: Ansi| t->character) =~= Seq::<char>::empty());
    } else {
        let rest = items.drop_first();
        assert forall|i: int|
            0 <= i < rest.len() implies (#[trigger] rest[i] matches Ansi::Character {
                color: Color::Inherit,
                ..
            }) by {
            assert(rest[i] == items[i + 1]);
        }
        lemma_render_inherited(rest);
        assert(items[0] matches Ansi::Character { color: Color::Inherit, .. });
        assert(items.map_values(|t: Ansi| t->character) =~= seq![items[0]->character]
            + rest.map_values(|t: Ansi| t->character));
    }
}

} // verus!
