//! The grammar of the colored text a picture is drawn in, and its parser.
//!
//! A picture is a non-empty sequence of tokens. A character token is
//! `ESC [ 38;5; <fg> ;48;5; <bg> m` followed by any one character, where the
//! numbers are decimal digits whose value fits in a byte (leading zeros are
//! allowed). A line break is `ESC [ 0m` followed by a newline.

use vstd::prelude::*;

use crate::ansi::{
    all_colored, background_tag, color_text, escape, foreground_tag, newline_text, render,
    render_ansi, Ansi, Color,
};
use crate::text::{decimal, digit_char};

verus! {

// ---------------------------------------------------------------------------
// Numbers
// ---------------------------------------------------------------------------

/// Whether `c` is an ASCII decimal digit.
pub open spec fn is_digit(c: char) -> bool {
    48 <= (c as u32) <= 57
}

/// The value of the decimal digit `c`.
pub open spec fn digit_value(c: char) -> nat {
    (c as u32 - 48) as nat
}

/// The number of decimal digits at the start of `s`.
pub open spec fn digit_run(s: Seq<char>) -> nat
    decreases s.len(),
{
    if s.len() > 0 && is_digit(s[0]) {
        1 + digit_run(s.drop_first())
    } else {
        0
    }
}

/// The value of the decimal digits `s`.
pub open spec fn digits_value(s: Seq<char>) -> nat
    decreases s.len(),
{
    if s.len() == 0 {
        0
    } else {
        digits_value(s.drop_last()) * 10 + digit_value(s.last())
    }
}

/// A byte written in decimal at the start of `s`: all the leading digits are
/// read, and there must be at least one and their value must fit in a byte.
/// Gives the value and the number of characters read.
pub open spec fn spec_u8(s: Seq<char>) -> Option<(u8, nat)> {
    let k = digit_run(s);
    if k == 0 || digits_value(s.take(k as int)) > 255 {
        None
    } else {
        Some((digits_value(s.take(k as int)) as u8, k))
    }
}

// ---------------------------------------------------------------------------
// Tokens
// ---------------------------------------------------------------------------

/// Whether `s` starts with `prefix`.
pub open spec fn starts_with(s: Seq<char>, prefix: Seq<char>) -> bool {
    prefix.len() <= s.len() && s.take(prefix.len() as int) == prefix
}

/// The escape `ESC [` at the start of `s`; gives its length.
pub open spec fn spec_escape(s: Seq<char>) -> Option<nat> {
    if starts_with(s, escape()) {
        Some(2)
    } else {
        None
    }
}

/// A line break at the start of `s`; gives its length.
pub open spec fn spec_newline(s: Seq<char>) -> Option<nat> {
    if starts_with(s, newline_text()) {
        Some(5)
    } else {
        None
    }
}

/// A color selection at the start of `s`; gives the color and its length.
pub open spec fn spec_color(s: Seq<char>) -> Option<(Color, nat)> {
    if !starts_with(s, escape() + foreground_tag()) {
        None
    } else {
        match spec_u8(s.skip(7)) {
            None => None,
            Some((foreground, k1)) => {
                let p = 7 + k1 as int;
                if !starts_with(s.skip(p), background_tag()) {
                    None
                } else {
                    match spec_u8(s.skip(p + 6)) {
                        None => None,
                        Some((background, k2)) => {
                            let q = p + 6 + k2 as int;
                            if q < s.len() && s[q] == 'm' {
                                Some((Color::Value { foreground, background }, (q + 1) as nat))
                            } else {
                                None
                            }
                        },
                    }
                }
            },
        }
    }
}

/// A colored character at the start of `s`; gives the token and its length.
pub open spec fn spec_char(s: Seq<char>) -> Option<(Ansi, nat)> {
    match spec_color(s) {
        None => None,
        Some((color, n)) => if n < s.len() {
            Some((Ansi::Character { color, character: s[n as int] }, n + 1))
        } else {
            None
        },
    }
}

/// A token at the start of `s`: a colored character if there is one, else a
/// line break. Gives the token and its length.
pub open spec fn spec_ansi(s: Seq<char>) -> Option<(Ansi, nat)> {
    match spec_char(s) {
        Some(r) => Some(r),
        None => match spec_newline(s) {
            Some(n) => Some((Ansi::Newline, n)),
            None => None,
        },
    }
}

/// As many tokens as can be read one after the other from the start of `s`;
/// gives them and the number of characters they take.
pub open spec fn spec_tokens(s: Seq<char>) -> (Seq<Ansi>, nat)
    decreases s.len(),
{
    match spec_ansi(s) {
        Some((a, n)) => if 0 < n <= s.len() {
            let rest = spec_tokens(s.skip(n as int));
            (seq![a] + rest.0, n + rest.1)
        } else {
            (seq![], 0)
        },
        None => (seq![], 0),
    }
}

/// At least one token at the start of `s`, and then as many as can be read.
pub open spec fn spec_image(s: Seq<char>) -> Option<(Seq<Ansi>, nat)> {
    if spec_ansi(s) is None {
        None
    } else {
        Some(spec_tokens(s))
    }
}

/// Whether the whole of `s` is a picture.
pub open spec fn parses(s: Seq<char>) -> bool {
    spec_image(s) matches Some((_, n)) && n == s.len()
}

// ---------------------------------------------------------------------------
// Lemmas
// ---------------------------------------------------------------------------

/// A token always takes at least one character and no more than there are.
pub proof fn lemma_ansi_len(s: Seq<char>)
    ensures
        spec_ansi(s) matches Some((_, n)) ==> 0 < n <= s.len(),
        spec_color(s) matches Some((_, n)) ==> 0 < n <= s.len(),
{
    if let Some((_, k1)) = spec_u8(s.skip(7)) {
        lemma_u8_len(s.skip(7));
        let p = 7 + k1 as int;
        if let Some((_, k2)) = spec_u8(s.skip(p + 6)) {
            lemma_u8_len(s.skip(p + 6));
        }
    }
}

/// A decimal byte is read from within the input.
pub proof fn lemma_u8_len(s: Seq<char>)
    ensures
        spec_u8(s) matches Some((_, k)) ==> 0 < k <= s.len(),
{
    lemma_digit_run_len(s);
}

/// The digit run is part of the input.
pub proof fn lemma_digit_run_len(s: Seq<char>)
    ensures
        digit_run(s) <= s.len(),
    decreases s.len(),
{
    if s.len() > 0 {
        lemma_digit_run_len(s.drop_first());
    }
}

/// If the first `k` characters of `s` are digits and the next one is not (or
/// there is none), the digit run has length `k`.
pub proof fn lemma_digit_run_exact(s: Seq<char>, k: nat)
    requires
        k <= s.len(),
        forall|j: int| 0 <= j < k ==> is_digit(#[trigger] s[j]),
        k == s.len() || !is_digit(s[k as int]),
    ensures
        digit_run(s) == k,
    decreases k,
{
    if k > 0 {
        assert forall|j: int| 0 <= j < k - 1 implies is_digit(#[trigger] s.drop_first()[j]) by {
            assert(s.drop_first()[j] == s[j + 1]);
        }
        lemma_digit_run_exact(s.drop_first(), (k - 1) as nat);
    }
}

/// If the first `k` characters of `s` are digits, the digit run is at least `k` long.
pub proof fn lemma_digit_run_at_least(s: Seq<char>, k: nat)
    requires
        k <= s.len(),
        forall|j: int| 0 <= j < k ==> is_digit(#[trigger] s[j]),
    ensures
        digit_run(s) >= k,
    decreases k,
{
    if k > 0 {
        assert forall|j: int| 0 <= j < k - 1 implies is_digit(#[trigger] s.drop_first()[j]) by {
            assert(s.drop_first()[j] == s[j + 1]);
        }
        lemma_digit_run_at_least(s.drop_first(), (k - 1) as nat);
    }
}

/// The characters of the digit run are digits.
pub proof fn lemma_digit_run_digits(s: Seq<char>)
    ensures
        forall|j: int| 0 <= j < digit_run(s) ==> is_digit(#[trigger] s[j]),
    decreases s.len(),
{
    if s.len() > 0 && is_digit(s[0]) {
        lemma_digit_run_digits(s.drop_first());
        lemma_digit_run_len(s.drop_first());
        assert forall|j: int| 0 <= j < digit_run(s) implies is_digit(#[trigger] s[j]) by {
            if j > 0 {
                assert(s[j] == s.drop_first()[j - 1]);
            }
        }
    }
}

/// Reading more digits never makes the value smaller.
pub proof fn lemma_digits_value_monotone(s: Seq<char>, j: int, k: int)
    requires
        0 <= j <= k <= s.len(),
    ensures
        digits_value(s.take(j)) <= digits_value(s.take(k)),
    decreases k - j,
{
    if j < k {
        lemma_digits_value_monotone(s, j, k - 1);
        assert(s.take(k).drop_last() =~= s.take(k - 1));
    }
}

/// The digits of `decimal(n)` are digits and their value is `n`.
pub proof fn lemma_decimal_digits(n: nat)
    ensures
        decimal(n).len() > 0,
        forall|j: int| 0 <= j < decimal(n).len() ==> is_digit(#[trigger] decimal(n)[j]),
        digits_value(decimal(n)) == n,
    decreases n,
{
    if n < 10 {
        assert(digit_value(digit_char(n)) == n);
        assert(decimal(n).drop_last() =~= Seq::<char>::empty());
        assert(decimal(n).last() == digit_char(n));
        assert(digits_value(Seq::<char>::empty()) == 0);
        assert(digits_value(decimal(n)) == digits_value(decimal(n).drop_last()) * 10 + digit_value(decimal(n).last()));
    } else {
        lemma_decimal_digits(n / 10);
        let d = decimal(n / 10);
        assert(decimal(n) == d.push(digit_char(n % 10)));
        assert(decimal(n).drop_last() =~= d);
        assert(decimal(n).last() == digit_char(n % 10));
        assert(digit_value(digit_char(n % 10)) == n % 10);
        assert(n == (n / 10) * 10 + n % 10);
        assert(digits_value(decimal(n)) == digits_value(decimal(n).drop_last()) * 10 + digit_value(decimal(n).last()));
        assert forall|j: int| 0 <= j < decimal(n).len() implies is_digit(#[trigger] decimal(n)[j]) by {
            if j < d.len() {
                assert(decimal(n)[j] == d[j]);
            }
        }
    }
}

/// A decimal byte followed by a non-digit reads back as that byte.
pub proof fn lemma_u8_decimal(v: u8, rest: Seq<char>)
    requires
        rest.len() > 0 ==> !is_digit(rest[0]),
    ensures
        spec_u8(decimal(v as nat) + rest) == Some((v, decimal(v as nat).len())),
{
    let d = decimal(v as nat);
    let s = d + rest;
    lemma_decimal_digits(v as nat);
    assert forall|j: int| 0 <= j < d.len() implies is_digit(#[trigger] s[j]) by {
        assert(s[j] == d[j]);
    }
    if rest.len() > 0 {
        assert(s[d.len() as int] == rest[0]);
    }
    lemma_digit_run_exact(s, d.len());
    assert(s.take(d.len() as int) =~= d);
}

/// The text of a token followed by the text of more tokens reads back as
/// that token, when the token is not a character that inherits its colors.
pub proof fn lemma_ansi_render(a: Ansi, rest: Seq<char>)
    requires
        !(a matches Ansi::Character { color: Color::Inherit, .. }),
    ensures
        spec_ansi(render_ansi(a) + rest) == Some((a, render_ansi(a).len())),
{
    let s = render_ansi(a) + rest;
    match a {
        Ansi::Newline => {
            assert(s.take(5) =~= newline_text());
            assert(s[2] == '0');
            assert(!starts_with(s, escape() + foreground_tag()));
        },
        Ansi::Character { color: Color::Value { foreground, background }, character } => {
            let fd = decimal(foreground as nat);
            let bd = decimal(background as nat);
            let tail1 = background_tag() + bd + seq!['m', character] + rest;
            let tail2 = seq!['m', character] + rest;
            assert(s =~= escape() + foreground_tag() + fd + tail1);
            assert(s.take(7) =~= escape() + foreground_tag());
            assert(s.skip(7) =~= fd + tail1);
            assert(tail1[0] == ';');
            lemma_u8_decimal(foreground, tail1);
            let p = 7 + fd.len() as int;
            assert(s.skip(p) =~= tail1);
            assert(s.skip(p).take(6) =~= background_tag());
            assert(s.skip(p + 6) =~= bd + tail2);
            lemma_u8_decimal(background, tail2);
            let q = p + 6 + bd.len() as int;
            assert(s[q] == 'm');
            assert(s[q + 1] == character);
            assert(render_ansi(a).len() == q + 2);
        },
        Ansi::Character { color: Color::Inherit, .. } => {},
    }
}

/// Reading the text of a sequence of colored tokens gives back the tokens.
pub proof fn lemma_tokens_render(items: Seq<Ansi>)
    requires
        all_colored(items),
    ensures
        spec_tokens(render(items)) == (items, render(items).len()),
    decreases items.len(),
{
    if items.len() == 0 {
        assert(spec_escape(Seq::<char>::empty()) is None);
        assert(spec_tokens(render(items)) == (Seq::<Ansi>::empty(), 0nat));
        assert(items =~= Seq::<Ansi>::empty());
    } else {
        let a = items[0];
        let rest = items.drop_first();
        assert(all_colored(rest)) by {
            assert forall|i: int| 0 <= i < rest.len() implies !(#[trigger] rest[i] matches Ansi::Character {
                color: Color::Inherit,
                ..
            }) by {
                assert(rest[i] == items[i + 1]);
            }
        }
        assert(!(items[0] matches Ansi::Character { color: Color::Inherit, .. }));
        lemma_ansi_render(a, render(rest));
        lemma_tokens_render(rest);
        let s = render(items);
        let n = render_ansi(a).len();
        assert(s == render_ansi(a) + render(rest));
        assert(s.skip(n as int) =~= render(rest));
        assert(seq![a] + rest =~= items);
    }
}

/// The text of a non-empty sequence of colored tokens is a picture, and
/// reading it gives back the tokens.
pub proof fn lemma_parse_render(items: Seq<Ansi>)
    requires
        items.len() > 0,
        all_colored(items),
    ensures
        parses(render(items)),
        spec_tokens(render(items)).0 == items,
{
    lemma_tokens_render(items);
    assert(!(items[0] matches Ansi::Character { color: Color::Inherit, .. }));
    lemma_ansi_render(items[0], render(items.drop_first()));
}


/// A prefix made of two parts is the first part followed by the second.
pub proof fn lemma_starts_with_concat(s: Seq<char>, a: Seq<char>, b: Seq<char>)
    ensures
        starts_with(s, a + b) <==> (starts_with(s, a) && starts_with(s.skip(a.len() as int), b)),
{
    let ab = a + b;
    if starts_with(s, ab) {
        assert forall|j: int| 0 <= j < ab.len() implies s[j] == #[trigger] ab[j] by {
            assert(s.take(ab.len() as int)[j] == s[j]);
        }
        assert(s.take(a.len() as int) =~= a) by {
            assert forall|j: int| 0 <= j < a.len() implies s.take(a.len() as int)[j] == a[j] by {
                assert(ab[j] == a[j]);
            }
        }
        assert(s.skip(a.len() as int).take(b.len() as int) =~= b) by {
            assert forall|j: int| 0 <= j < b.len() implies s.skip(a.len() as int).take(
                b.len() as int,
            )[j] == b[j] by {
                assert(ab[a.len() + j] == b[j]);
            }
        }
    }
    if starts_with(s, a) && starts_with(s.skip(a.len() as int), b) {
        assert(s.take(ab.len() as int) =~= ab) by {
            assert forall|j: int| 0 <= j < ab.len() implies s.take(ab.len() as int)[j] == ab[j] by {
                if j < a.len() {
                    assert(s.take(a.len() as int)[j] == s[j]);
                } else {
                    assert(s.skip(a.len() as int).take(b.len() as int)[j - a.len()] == s[j]);
                }
            }
        }
    }
}

/// The tokens read from any text are colored characters and line breaks:
/// none inherits its colors.
pub proof fn lemma_tokens_colored(s: Seq<char>)
    ensures
        all_colored(spec_tokens(s).0),
    decreases s.len(),
{
    if let Some((a, n)) = spec_ansi(s) {
        if 0 < n <= s.len() {
            lemma_tokens_colored(s.skip(n as int));
            let rest = spec_tokens(s.skip(n as int)).0;
            let all = seq![a] + rest;
            assert(!(a matches Ansi::Character { color: Color::Inherit, .. }));
            assert forall|i: int| 0 <= i < all.len() implies !(#[trigger] all[i] matches Ansi::Character {
                color: Color::Inherit,
                ..
            }) by {
                if i > 0 {
                    assert(all[i] == rest[i - 1]);
                }
            }
        }
    }
}

// ---------------------------------------------------------------------------
// The parser
// ---------------------------------------------------------------------------

/// Whether `c` is an ASCII decimal digit.
fn is_digit_char(c: char) -> (b: bool)
    ensures
        b == is_digit(c),
{
    let v = c as u32;
    48 <= v && v <= 57
}

/// Whether the characters of `i` from `pos` on start with `lit`.
fn matches_at(i: &[char], pos: usize, lit: &str) -> (b: bool)
    requires
        pos <= i@.len(),
    ensures
        b == starts_with(i@.skip(pos as int), lit@),
{
    let n = lit.unicode_len();
    let len = i.len();
    let ghost s = i@.skip(pos as int);
    if n > len - pos {
        return false;
    }
    let mut k: usize = 0;
    while k < n
        invariant
            n == lit@.len(),
            len == i@.len(),
            pos + n <= len,
            s == i@.skip(pos as int),
            k <= n,
            forall|j: int| 0 <= j < k ==> s[j] == lit@[j],
        decreases n - k,
    {
        if i[pos + k] != lit.get_char(k) {
            assert(s.take(n as int)[k as int] != lit@[k as int]);
            return false;
        }
        k = k + 1;
    }
    assert(s.take(n as int) =~= lit@);
    true
}

/// Reads a decimal byte from position `pos` of `i`, as `nom`'s `u8` does:
/// all the digits there, at least one, with a value that fits in a byte.
/// Gives the byte and the position after its digits.
fn u8_at(i: &[char], pos: usize) -> (r: Option<(u8, usize)>)
    requires
        pos <= i@.len(),
    ensures
        match r {
            None => spec_u8(i@.skip(pos as int)) is None,
            Some((v, end)) => pos <= end <= i@.len() && spec_u8(i@.skip(pos as int)) == Some(
                (v, (end - pos) as nat),
            ),
        },
{
    let len = i.len();
    let ghost s = i@.skip(pos as int);
    let mut j: usize = pos;
    let mut value: u8 = 0;
    while j < len && is_digit_char(i[j])
        invariant
            pos <= j <= len,
            len == i@.len(),
            s == i@.skip(pos as int),
            forall|k: int| 0 <= k < j - pos ==> is_digit(#[trigger] s[k]),
            value as nat == digits_value(s.take(j - pos)),
        decreases len - j,
    {
        let ghost m: int = j - pos;
        let d: u8 = (i[j] as u32 - 48) as u8;
        let next: u16 = value as u16 * 10 + d as u16;
        proof {
            assert(s[m] == i@[j as int]);
            assert(s.take(m + 1).drop_last() =~= s.take(m));
            assert(s.take(m + 1).last() == s[m]);
            assert(next == digits_value(s.take(m + 1)));
        }
        if next > 255 {
            proof {
                assert forall|k: int| 0 <= k < m + 1 implies is_digit(#[trigger] s[k]) by {}
                lemma_digit_run_at_least(s, (m + 1) as nat);
                lemma_digit_run_len(s);
                lemma_digits_value_monotone(s, m + 1, digit_run(s) as int);
            }
            return None;
        }
        value = next as u8;
        j = j + 1;
    }
    if j == pos {
        proof {
            if s.len() > 0 {
                assert(s[0] == i@[pos as int]);
            }
        }
        return None;
    }
    proof {
        let m: int = j - pos;
        if j < len {
            assert(s[m] == i@[j as int]);
        }
        lemma_digit_run_exact(s, m as nat);
    }
    Some((value, j))
}

/// Reads the escape `ESC [` at the start of `i`; gives its length.
pub fn ansi_escape(i: &[char]) -> (r: Option<usize>)
    ensures
        match r {
            None => spec_escape(i@) is None,
            Some(n) => spec_escape(i@) == Some(n as nat),
        },
{
    proof {
        reveal_strlit("\u{1b}[");
        assert(i@.skip(0) =~= i@);
    }
    if matches_at(i, 0, "\u{1b}[") {
        assert("\u{1b}["@ =~= escape());
        Some(2)
    } else {
        assert("\u{1b}["@ =~= escape());
        None
    }
}

/// Reads a line break (`ESC [ 0m` and a newline) at the start of `i`; gives its length.
pub fn ansi_newline(i: &[char]) -> (r: Option<usize>)
    ensures
        match r {
            None => spec_newline(i@) is None,
            Some(n) => spec_newline(i@) == Some(n as nat),
        },
{
    proof {
        reveal_strlit("0m\n");
        assert("0m\n"@ =~= seq!['0', 'm', '\n']);
        lemma_starts_with_concat(i@, escape(), seq!['0', 'm', '\n']);
    }
    match ansi_escape(i) {
        None => None,
        Some(n) => if matches_at(i, n, "0m\n") {
            Some(n + 3)
        } else {
            None
        },
    }
}

/// Reads a color selection (`ESC [ 38;5; <fg> ;48;5; <bg> m`) at the start of
/// `i`; gives its length and the color.
pub fn ansi_color(i: &[char]) -> (r: Option<(usize, Color)>)
    ensures
        match r {
            None => spec_color(i@) is None,
            Some((n, c)) => spec_color(i@) == Some((c, n as nat)),
        },
{
    proof {
        reveal_strlit("38;5;");
        reveal_strlit(";48;5;");
        assert("38;5;"@ =~= foreground_tag());
        assert(";48;5;"@ =~= background_tag());
        lemma_starts_with_concat(i@, escape(), foreground_tag());
    }
    let n = match ansi_escape(i) {
        None => return None,
        Some(n) => n,
    };
    if !matches_at(i, n, "38;5;") {
        return None;
    }
    let (foreground, p) = match u8_at(i, 7) {
        None => return None,
        Some(r) => r,
    };
    if !matches_at(i, p, ";48;5;") {
        proof {
            assert(i@.skip(p as int) == i@.skip(7 + (p - 7)));
        }
        return None;
    }
    proof {
        lemma_u8_len(i@.skip(7));
        assert(i@.skip(p as int).len() >= 6);
        assert(p + 6 <= i@.len());
        assert(i@.len() == i.len());
    }
    let (background, q) = match u8_at(i, p + 6) {
        None => return None,
        Some(r) => r,
    };
    if q < i.len() && i[q] == 'm' {
        Some((q + 1, Color::Value { foreground, background }))
    } else {
        None
    }
}

/// Reads a colored character at the start of `i`; gives its length and the token.
pub fn ansi_char(i: &[char]) -> (r: Option<(usize, Ansi)>)
    ensures
        match r {
            None => spec_char(i@) is None,
            Some((n, a)) => spec_char(i@) == Some((a, n as nat)),
        },
{
    let (n, color) = match ansi_color(i) {
        None => return None,
        Some(r) => r,
    };
    if n < i.len() {
        Some((n + 1, Ansi::Character { color, character: i[n] }))
    } else {
        None
    }
}

/// Reads a token at the start of `i`: a colored character, or else a line
/// break. Gives its length and the token.
pub fn ansi(i: &[char]) -> (r: Option<(usize, Ansi)>)
    ensures
        match r {
            None => spec_ansi(i@) is None,
            Some((n, a)) => spec_ansi(i@) == Some((a, n as nat)),
        },
{
    match ansi_char(i) {
        Some(r) => Some(r),
        None => match ansi_newline(i) {
            Some(n) => Some((n, Ansi::Newline)),
            None => None,
        },
    }
}

/// Reads one token or more from the start of `i`, as many as follow one
/// another. Gives the number of characters read and the tokens, or `None`
/// when `i` does not start with a token.
pub fn image(i: &[char]) -> (r: Option<(usize, Vec<Ansi>)>)
    ensures
        match r {
            None => spec_image(i@) is None,
            Some((n, items)) => spec_image(i@) == Some((items@, n as nat)),
        },
{
    let len = i.len();
    let mut items: Vec<Ansi> = Vec::new();
    let mut pos: usize = 0;
    assert(i@.skip(0) =~= i@);
    loop
        invariant
            len == i@.len(),
            pos <= len,
            items@ + spec_tokens(i@.skip(pos as int)).0 == spec_tokens(i@).0,
            pos + spec_tokens(i@.skip(pos as int)).1 == spec_tokens(i@).1,
            items@.len() == 0 ==> pos == 0,
        ensures
            spec_tokens(i@.skip(pos as int)) == (Seq::<Ansi>::empty(), 0nat),
        decreases len - pos,
    {
        let rest = vstd::slice::slice_subrange(i, pos, len);
        assert(rest@ =~= i@.skip(pos as int));
        match ansi(rest) {
            None => {
                assert(spec_tokens(i@.skip(pos as int)) == (Seq::<Ansi>::empty(), 0nat));
                assert(items@ + Seq::<Ansi>::empty() =~= items@);
                break;
            },
            Some((n, a)) => {
                proof {
                    lemma_ansi_len(rest@);
                    assert(rest@.skip(n as int) =~= i@.skip(pos + n));
                    assert(items@.push(a) + spec_tokens(i@.skip(pos + n)).0 =~= items@ + (seq![a]
                        + spec_tokens(i@.skip(pos + n)).0));
                }
                items.push(a);
                pos = pos + n;
            },
        }
    }
    if items.len() == 0 {
        proof {
            lemma_ansi_len(i@);
        }
        None
    } else {
        Some((pos, items))
    }
}

/// Reads a whole picture.
pub fn parse(data: &[char]) -> (items: Vec<Ansi>)
    requires
        parses(data@),
    ensures
        items@ == spec_tokens(data@).0,
{
    match image(data) {
        Some((_, items)) => items,
        None => Vec::new(),
    }
}

} // verus!
