//! The byte encoding of a picture, and its decoder.
//!
//! Each token takes one or two bytes:
//! - `0xff` is a line break (a color reset and a newline);
//! - `0xfb` to `0xfe` is a character that keeps the previous colors, namely
//!   entry `0` to `3` of the character table;
//! - any byte below `0xfb` is an index into the color table, and the byte
//!   after it an index into the character table.

use vstd::prelude::*;
use vstd::utf8::encode_utf8;

use crate::ansi::{push_ansi, render, render_ansi, Ansi, Color};
use crate::mapping::{code, lemma_code_injective};
use crate::text::lemma_encode_utf8_concat;

verus! {

/// The byte of a line break.
pub const NEWLINE_CODE: u8 = 0xff;

/// The byte of the first entry of the character table, when the character
/// keeps the previous colors.
pub const INHERIT_BASE: u8 = 0xfb;

/// Why a picture cannot be encoded with the given tables.
#[derive(Clone, Copy, Debug, PartialEq, Eq, Structural)]
pub enum EncodeError {
    /// A character is drawn in colors that the color table lacks.
    UnknownColor,
    /// A character is missing from the character table.
    UnknownCharacter,
    /// A color's index in the table is `0xfb` or more, where it would read as another code.
    ColorIndexTooLarge,
    /// A character's index in the table does not fit its code: `4` or more for
    /// a character that keeps the previous colors, `256` or more otherwise.
    CharacterIndexTooLarge,
}

/// The first index of `x` in `s`.
pub open spec fn index_of<T>(s: Seq<T>, x: T) -> Option<int> {
    if s.contains(x) {
        Some(choose|i: int| 0 <= i < s.len() && s[i] == x && forall|j: int| 0 <= j < i ==> s[j] != x)
    } else {
        None
    }
}

/// The bytes of one token.
#[verifier::opaque]
pub open spec fn encode_ansi(a: Ansi, colors: Seq<(u8, u8)>, chars: Seq<char>) -> Result<
    Seq<u8>,
    EncodeError,
> {
    match a {
        Ansi::Newline => Ok(seq![NEWLINE_CODE]),
        Ansi::Character { color: Color::Inherit, character } => match index_of(chars, character) {
            None => Err(EncodeError::UnknownCharacter),
            Some(j) => if j < 4 {
                Ok(seq![(INHERIT_BASE + j) as u8])
            } else {
                Err(EncodeError::CharacterIndexTooLarge)
            },
        },
        Ansi::Character { color: Color::Value { foreground, background }, character } => match index_of(
            colors,
            (foreground, background),
        ) {
            None => Err(EncodeError::UnknownColor),
            Some(k) => if k >= INHERIT_BASE {
                Err(EncodeError::ColorIndexTooLarge)
            } else {
                match index_of(chars, character) {
                    None => Err(EncodeError::UnknownCharacter),
                    Some(j) => if j < 256 {
                        Ok(seq![k as u8, j as u8])
                    } else {
                        Err(EncodeError::CharacterIndexTooLarge)
                    },
                }
            },
        },
    }
}

/// The bytes of a sequence of tokens, or the error of the first token that
/// cannot be encoded.
pub open spec fn encode_all(items: Seq<Ansi>, colors: Seq<(u8, u8)>, chars: Seq<char>) -> Result<
    Seq<u8>,
    EncodeError,
>
    decreases items.len(),
{
    if items.len() == 0 {
        Ok(seq![])
    } else {
        match encode_ansi(items[0], colors, chars) {
            Err(e) => Err(e),
            Ok(first) => match encode_all(items.drop_first(), colors, chars) {
                Err(e) => Err(e),
                Ok(rest) => Ok(first + rest),
            },
        }
    }
}

/// The first token of the bytes `data` and the number of bytes it takes,
/// given the tables; `None` when a byte refers to an entry beyond a table or
/// a color index is the last byte.
pub open spec fn decode_first(data: Seq<u8>, colors: Seq<(u8, u8)>, chars: Seq<char>) -> Option<
    (Ansi, nat),
> {
    if data.len() == 0 {
        None
    } else if data[0] == NEWLINE_CODE {
        Some((Ansi::Newline, 1))
    } else if data[0] >= INHERIT_BASE {
        let j = data[0] - INHERIT_BASE;
        if j < chars.len() {
            Some((Ansi::Character { color: Color::Inherit, character: chars[j] }, 1))
        } else {
            None
        }
    } else if data.len() >= 2 && data[0] < colors.len() && data[1] < chars.len() {
        let p = colors[data[0] as int];
        Some(
            (
                Ansi::Character {
                    color: Color::Value { foreground: p.0, background: p.1 },
                    character: chars[data[1] as int],
                },
                2,
            ),
        )
    } else {
        None
    }
}

/// The tokens that the bytes `data` stand for, given the tables; `None` when
/// some token cannot be decoded.
pub open spec fn decode_all(data: Seq<u8>, colors: Seq<(u8, u8)>, chars: Seq<char>) -> Option<
    Seq<Ansi>,
>
    decreases data.len(),
{
    if data.len() == 0 {
        Some(seq![])
    } else {
        match decode_first(data, colors, chars) {
            None => None,
            Some((a, n)) => if 0 < n <= data.len() {
                match decode_all(data.skip(n as int), colors, chars) {
                    Some(rest) => Some(seq![a] + rest),
                    None => None,
                }
            } else {
                None
            },
        }
    }
}

/// The key under which a color pair is looked up: foreground, then background.
pub open spec fn pair_key(p: (u8, u8)) -> u16 {
    (p.0 as int * 256 + p.1 as int) as u16
}

/// Distinct color pairs have distinct keys.
proof fn lemma_pair_key_injective(p: (u8, u8), q: (u8, u8))
    ensures
        pair_key(p) == pair_key(q) ==> p == q,
{
}

/// The index of each color pair of `colors` under its key, as a `HashMap`:
/// the first index where the pair occurs.
#[verifier::spinoff_prover]
#[verifier::rlimit(50)]
fn color_index(colors: &[(u8, u8)]) -> (index: std::collections::HashMap<u16, usize>)
    ensures
        forall|p: (u8, u8)| #[trigger] index@.contains_key(pair_key(p)) <==> colors@.contains(p),
        forall|p: (u8, u8)|
            colors@.contains(p) ==> index_of(colors@, p) == Some(
                #[trigger] index@[pair_key(p)] as int,
            ),
{
    broadcast use vstd::std_specs::hash::group_hash_axioms;

    let n = colors.len();
    let mut index: std::collections::HashMap<u16, usize> = std::collections::HashMap::new();
    let mut i: usize = 0;
    while i < n
        invariant
            n == colors@.len(),
            i <= n,
            forall|p: (u8, u8)| #[trigger] index@.contains_key(pair_key(p)) <==> colors@.take(
                i as int,
            ).contains(p),
            forall|p: (u8, u8)| #[trigger]
                index@.contains_key(pair_key(p)) ==> {
                    let j = index@[pair_key(p)] as int;
                    &&& j < i
                    &&& colors@[j] == p
                    &&& forall|l: int| 0 <= l < j ==> colors@[l] != p
                },
        decreases n - i,
    {
        let p = colors[i];
        let key: u16 = p.0 as u16 * 256 + p.1 as u16;
        assert(key == pair_key(p));
        let ghost before = index@;
        if !index.contains_key(&key) {
            index.insert(key, i);
        }
        proof {
            assert forall|q: (u8, u8)| #[trigger] index@.contains_key(pair_key(q)) <==> colors@.take(
                i + 1,
            ).contains(q) by {
                lemma_pair_key_injective(p, q);
                let t1 = colors@.take(i + 1);
                let t0 = colors@.take(i as int);
                if t1.contains(q) {
                    let k = choose|k: int| 0 <= k < t1.len() && t1[k] == q;
                    if k < i {
                        assert(t0[k] == q);
                    }
                }
                if t0.contains(q) {
                    let k = choose|k: int| 0 <= k < t0.len() && t0[k] == q;
                    assert(t1[k] == q);
                }
                assert(colors@.take(i + 1)[i as int] == p);
            }
            assert forall|q: (u8, u8)| #[trigger]
                index@.contains_key(pair_key(q)) implies {
                    let j = index@[pair_key(q)] as int;
                    &&& j < i + 1
                    &&& colors@[j] == q
                    &&& forall|l: int| 0 <= l < j ==> colors@[l] != q
                } by {
                lemma_pair_key_injective(p, q);
                if !before.contains_key(pair_key(q)) {
                    assert(q == p);
                    assert forall|l: int| 0 <= l < i implies colors@[l] != q by {
                        if colors@[l] == q {
                            assert(colors@.take(i as int)[l] == q);
                        }
                    }
                }
            }
        }
        i = i + 1;
    }
    proof {
        assert(colors@.take(n as int) =~= colors@);
        assert forall|p: (u8, u8)| colors@.contains(p) implies index_of(colors@, p) == Some(
            #[trigger] index@[pair_key(p)] as int,
        ) by {
            assert(index@.contains_key(pair_key(p)));
            lemma_first_index(colors@, p, index@[pair_key(p)] as int);
        }
    }
    index
}

/// The index of each character of `chars` under its code point, as a
/// `HashMap`: the first index where the character occurs.
#[verifier::spinoff_prover]
#[verifier::rlimit(50)]
fn char_index(chars: &[char]) -> (index: std::collections::HashMap<u32, usize>)
    ensures
        forall|c: char| #[trigger] index@.contains_key(code(c)) <==> chars@.contains(c),
        forall|c: char|
            chars@.contains(c) ==> index_of(chars@, c) == Some(#[trigger] index@[code(c)] as int),
{
    broadcast use vstd::std_specs::hash::group_hash_axioms;

    let n = chars.len();
    let mut index: std::collections::HashMap<u32, usize> = std::collections::HashMap::new();
    let mut i: usize = 0;
    while i < n
        invariant
            n == chars@.len(),
            i <= n,
            forall|c: char| #[trigger] index@.contains_key(code(c)) <==> chars@.take(i as int).contains(
                c,
            ),
            forall|c: char| #[trigger]
                index@.contains_key(code(c)) ==> {
                    let j = index@[code(c)] as int;
                    &&& j < i
                    &&& chars@[j] == c
                    &&& forall|l: int| 0 <= l < j ==> chars@[l] != c
                },
        decreases n - i,
    {
        let c = chars[i];
        let key: u32 = c as u32;
        assert(key == code(c));
        let ghost before = index@;
        if !index.contains_key(&key) {
            index.insert(key, i);
        }
        proof {
            assert forall|d: char| #[trigger] index@.contains_key(code(d)) <==> chars@.take(
                i + 1,
            ).contains(d) by {
                lemma_code_injective(c, d);
                let t1 = chars@.take(i + 1);
                let t0 = chars@.take(i as int);
                if t1.contains(d) {
                    let k = choose|k: int| 0 <= k < t1.len() && t1[k] == d;
                    if k < i {
                        assert(t0[k] == d);
                    }
                }
                if t0.contains(d) {
                    let k = choose|k: int| 0 <= k < t0.len() && t0[k] == d;
                    assert(t1[k] == d);
                }
                assert(chars@.take(i + 1)[i as int] == c);
            }
            assert forall|d: char| #[trigger]
                index@.contains_key(code(d)) implies {
                    let j = index@[code(d)] as int;
                    &&& j < i + 1
                    &&& chars@[j] == d
                    &&& forall|l: int| 0 <= l < j ==> chars@[l] != d
                } by {
                lemma_code_injective(c, d);
                if !before.contains_key(code(d)) {
                    assert(d == c);
                    assert forall|l: int| 0 <= l < i implies chars@[l] != d by {
                        if chars@[l] == d {
                            assert(chars@.take(i as int)[l] == d);
                        }
                    }
                }
            }
        }
        i = i + 1;
    }
    proof {
        assert(chars@.take(n as int) =~= chars@);
        assert forall|c: char| chars@.contains(c) implies index_of(chars@, c) == Some(
            #[trigger] index@[code(c)] as int,
        ) by {
            assert(index@.contains_key(code(c)));
            lemma_first_index(chars@, c, index@[code(c)] as int);
        }
    }
    index
}

/// The first index of the color pair `p`, looked up in `index`.
fn find_color(
    colors: &[(u8, u8)],
    index: &std::collections::HashMap<u16, usize>,
    p: (u8, u8),
) -> (r: Option<usize>)
    requires
        forall|q: (u8, u8)| #[trigger] index@.contains_key(pair_key(q)) <==> colors@.contains(q),
        forall|q: (u8, u8)|
            colors@.contains(q) ==> index_of(colors@, q) == Some(
                #[trigger] index@[pair_key(q)] as int,
            ),
    ensures
        match r {
            None => index_of(colors@, p) is None,
            Some(i) => index_of(colors@, p) == Some(i as int),
        },
{
    broadcast use vstd::std_specs::hash::group_hash_axioms;

    let key: u16 = p.0 as u16 * 256 + p.1 as u16;
    assert(key == pair_key(p));
    proof {
        lemma_index_of(colors@, p);
    }
    match index.get(&key) {
        Some(i) => Some(*i),
        None => None,
    }
}

/// The first index of the character `c`, looked up in `index`.
fn find_char(chars: &[char], index: &std::collections::HashMap<u32, usize>, c: char) -> (r: Option<
    usize,
>)
    requires
        forall|d: char| #[trigger] index@.contains_key(code(d)) <==> chars@.contains(d),
        forall|d: char|
            chars@.contains(d) ==> index_of(chars@, d) == Some(#[trigger] index@[code(d)] as int),
    ensures
        match r {
            None => index_of(chars@, c) is None,
            Some(i) => index_of(chars@, c) == Some(i as int),
        },
{
    broadcast use vstd::std_specs::hash::group_hash_axioms;

    let key: u32 = c as u32;
    assert(key == code(c));
    proof {
        lemma_index_of(chars@, c);
    }
    match index.get(&key) {
        Some(i) => Some(*i),
        None => None,
    }
}

/// An index where `x` occurs, with no occurrence before it, is its first index.
proof fn lemma_first_index<T>(s: Seq<T>, x: T, i: int)
    requires
        0 <= i < s.len(),
        s[i] == x,
        forall|j: int| 0 <= j < i ==> s[j] != x,
    ensures
        index_of(s, x) == Some(i),
{
    assert(s.contains(x));
    let c = choose|c: int| 0 <= c < s.len() && s[c] == x && forall|j: int| 0 <= j < c ==> s[j] != x;
    if c < i {
        assert(s[c] != x);
    } else if c > i {
        assert(s[i] != x);
    }
}

/// The bytes of the token `a`, given the color and character tables.
fn encode_token(
    a: Ansi,
    colors: &[(u8, u8)],
    chars: &[char],
    color_idx: &std::collections::HashMap<u16, usize>,
    char_idx: &std::collections::HashMap<u32, usize>,
) -> (r: Result<Vec<u8>, EncodeError>)
    requires
        forall|q: (u8, u8)| #[trigger] color_idx@.contains_key(pair_key(q)) <==> colors@.contains(q),
        forall|q: (u8, u8)|
            colors@.contains(q) ==> index_of(colors@, q) == Some(
                #[trigger] color_idx@[pair_key(q)] as int,
            ),
        forall|d: char| #[trigger] char_idx@.contains_key(code(d)) <==> chars@.contains(d),
        forall|d: char|
            chars@.contains(d) ==> index_of(chars@, d) == Some(#[trigger] char_idx@[code(d)] as int),
    ensures
        match r {
            Ok(bytes) => encode_ansi(a, colors@, chars@) == Ok::<Seq<u8>, EncodeError>(bytes@),
            Err(e) => encode_ansi(a, colors@, chars@) == Err::<Seq<u8>, EncodeError>(e),
        },
{
    reveal(encode_ansi);
    let mut bytes: Vec<u8> = Vec::new();
    match a {
        Ansi::Newline => {
            bytes.push(NEWLINE_CODE);
            assert(bytes@ =~= seq![NEWLINE_CODE]);
        },
        Ansi::Character { color: Color::Inherit, character } => {
            match find_char(chars, char_idx, character) {
                None => {
                    return Err(EncodeError::UnknownCharacter);
                },
                Some(j) => {
                    if j < 4 {
                        bytes.push(INHERIT_BASE + j as u8);
                        assert(bytes@ =~= seq![(INHERIT_BASE + j) as u8]);
                    } else {
                        return Err(EncodeError::CharacterIndexTooLarge);
                    }
                },
            }
        },
        Ansi::Character { color: Color::Value { foreground, background }, character } => {
            let k = match find_color(colors, color_idx, (foreground, background)) {
                None => {
                    return Err(EncodeError::UnknownColor);
                },
                Some(k) => k,
            };
            if k >= INHERIT_BASE as usize {
                return Err(EncodeError::ColorIndexTooLarge);
            }
            match find_char(chars, char_idx, character) {
                None => {
                    return Err(EncodeError::UnknownCharacter);
                },
                Some(j) => {
                    if j < 256 {
                        bytes.push(k as u8);
                        bytes.push(j as u8);
                        assert(bytes@ =~= seq![k as u8, j as u8]);
                    } else {
                        return Err(EncodeError::CharacterIndexTooLarge);
                    }
                },
            }
        },
    }
    assert(encode_ansi(a, colors@, chars@) == Ok::<Seq<u8>, EncodeError>(bytes@));
    Ok(bytes)
}

/// The bytes of the tokens `items`, given the color and character tables, or
/// the error of the first token that cannot be encoded. The indices are
/// looked up in `HashMap`s built from the tables.
pub fn encode_data(items: &[Ansi], colors: &[(u8, u8)], chars: &[char]) -> (r: Result<
    Vec<u8>,
    EncodeError,
>)
    ensures
        match r {
            Ok(data) => encode_all(items@, colors@, chars@) == Ok::<Seq<u8>, EncodeError>(data@),
            Err(e) => encode_all(items@, colors@, chars@) == Err::<Seq<u8>, EncodeError>(e),
        },
{
    let n = items.len();
    let color_idx = color_index(colors);
    let char_idx = char_index(chars);
    let mut data: Vec<u8> = Vec::with_capacity(n);
    let mut i: usize = 0;
    assert(items@.skip(0) =~= items@);
    assert(forall|rest: Seq<u8>| #[trigger] (Seq::<u8>::empty() + rest) == rest);
    while i < n
        invariant
            n == items@.len(),
            i <= n,
            encode_all(items@, colors@, chars@) == match encode_all(items@.skip(i as int), colors@, chars@) {
                Ok(rest) => Ok(data@ + rest),
                Err(e) => Err(e),
            },
            forall|q: (u8, u8)| #[trigger] color_idx@.contains_key(pair_key(q)) <==> colors@.contains(q),
            forall|q: (u8, u8)|
                colors@.contains(q) ==> index_of(colors@, q) == Some(
                    #[trigger] color_idx@[pair_key(q)] as int,
                ),
            forall|d: char| #[trigger] char_idx@.contains_key(code(d)) <==> chars@.contains(d),
            forall|d: char|
                chars@.contains(d) ==> index_of(chars@, d) == Some(#[trigger] char_idx@[code(d)] as int),
        decreases n - i,
    {
        let ghost tail = items@.skip(i as int);
        proof {
            assert(tail.drop_first() =~= items@.skip(i + 1));
            assert(tail[0] == items@[i as int]);
        }
        let mut bytes = match encode_token(items[i], colors, chars, &color_idx, &char_idx) {
            Err(e) => {
                assert(encode_all(tail, colors@, chars@) == Err::<Seq<u8>, EncodeError>(e));
                return Err(e);
            },
            Ok(bytes) => bytes,
        };
        proof {
            assert(encode_all(tail, colors@, chars@) == match encode_all(items@.skip(i + 1), colors@, chars@) {
                Ok(rest) => Ok(bytes@ + rest),
                Err(e) => Err(e),
            });
        }
        let ghost before = data@;
        let ghost first = bytes@;
        data.append(&mut bytes);
        proof {
            match encode_all(items@.skip(i + 1), colors@, chars@) {
                Ok(rest) => {
                    assert(before + (first + rest) =~= data@ + rest);
                },
                Err(_) => {},
            }
        }
        i = i + 1;
    }
    proof {
        assert(items@.skip(n as int) =~= Seq::<Ansi>::empty());
        assert(data@ + Seq::<u8>::empty() =~= data@);
    }
    Ok(data)
}

/// The tokens that the bytes `data` stand for, given the color and character
/// tables; `None` when the bytes do not fit the tables.
pub fn decode_data(data: &[u8], colors: &[(u8, u8)], chars: &[char]) -> (r: Option<Vec<Ansi>>)
    ensures
        match r {
            None => decode_all(data@, colors@, chars@) is None,
            Some(items) => decode_all(data@, colors@, chars@) == Some(items@),
        },
{
    let n = data.len();
    let mut items: Vec<Ansi> = Vec::new();
    let mut pos: usize = 0;
    assert(data@.skip(0) =~= data@);
    assert(forall|rest: Seq<Ansi>| #[trigger] (Seq::<Ansi>::empty() + rest) == rest);
    while pos < n
        invariant
            n == data@.len(),
            pos <= n,
            decode_all(data@, colors@, chars@) == match decode_all(data@.skip(pos as int), colors@, chars@) {
                Some(rest) => Some(items@ + rest),
                None => None,
            },
        decreases n - pos,
    {
        let ghost tail = data@.skip(pos as int);
        let (a, len) = match decode_token(data, pos, colors, chars) {
            None => {
                return None;
            },
            Some(r) => r,
        };
        let ghost before = items@;
        items.push(a);
        proof {
            assert(tail.skip(len as int) =~= data@.skip(pos + len));
            match decode_all(data@.skip(pos + len), colors@, chars@) {
                Some(rest) => {
                    assert(before + (seq![a] + rest) =~= items@ + rest);
                },
                None => {},
            }
        }
        pos = pos + len;
    }
    proof {
        assert(data@.skip(n as int) =~= Seq::<u8>::empty());
        assert(items@ + Seq::<Ansi>::empty() =~= items@);
    }
    Some(items)
}

/// The token encoded at position `pos` of `data` and the number of bytes it takes.
fn decode_token(data: &[u8], pos: usize, colors: &[(u8, u8)], chars: &[char]) -> (r: Option<
    (Ansi, usize),
>)
    requires
        pos < data@.len(),
    ensures
        match r {
            None => decode_first(data@.skip(pos as int), colors@, chars@) is None,
            Some((a, len)) => decode_first(data@.skip(pos as int), colors@, chars@) == Some(
                (a, len as nat),
            ) && 0 < len <= data@.len() - pos,
        },
{
    let ghost tail = data@.skip(pos as int);
    assert(tail[0] == data@[pos as int]);
    let code = data[pos];
    if code == NEWLINE_CODE {
        Some((Ansi::Newline, 1))
    } else if code >= INHERIT_BASE {
        let j = (code - INHERIT_BASE) as usize;
        if j >= chars.len() {
            return None;
        }
        Some((Ansi::Character { color: Color::Inherit, character: chars[j] }, 1))
    } else {
        if pos + 1 >= data.len() {
            return None;
        }
        assert(tail[1] == data@[pos + 1]);
        if code as usize >= colors.len() || data[pos + 1] as usize >= chars.len() {
            return None;
        }
        let p = colors[code as usize];
        Some(
            (
                Ansi::Character {
                    color: Color::Value { foreground: p.0, background: p.1 },
                    character: chars[data[pos + 1] as usize],
                },
                2,
            ),
        )
    }
}

/// The UTF-8 terminal text of the tokens `items`.
pub fn render_bytes(items: &[Ansi]) -> (text: Vec<u8>)
    ensures
        text@ == encode_utf8(render(items@)),
{
    let n = items.len();
    let mut text: Vec<u8> = Vec::new();
    let mut k: usize = 0;
    proof {
        assert(items@.skip(0) =~= items@);
    }
    while k < n
        invariant
            n == items@.len(),
            k <= n,
            text@ + encode_utf8(render(items@.skip(k as int))) == encode_utf8(render(items@)),
        decreases n - k,
    {
        let ghost tail = items@.skip(k as int);
        proof {
            assert(tail.drop_first() =~= items@.skip(k + 1));
            assert(tail[0] == items@[k as int]);
            assert(render(tail) == render_ansi(tail[0]) + render(tail.drop_first()));
            lemma_encode_utf8_concat(render_ansi(tail[0]), render(tail.drop_first()));
        }
        let ghost before = text@;
        push_ansi(&mut text, items[k]);
        proof {
            assert(before + encode_utf8(render(tail)) =~= text@ + encode_utf8(render(items@.skip(k + 1))));
        }
        k = k + 1;
    }
    proof {
        assert(items@.skip(n as int) =~= Seq::<Ansi>::empty());
        assert(text@ + Seq::<u8>::empty() =~= text@);
    }
    text
}

/// The UTF-8 terminal text of the picture encoded as `data` with the given
/// tables, or `None` when the bytes do not fit the tables.
pub fn decode_image(data: &[u8], colors: &[(u8, u8)], chars: &[char]) -> (r: Option<Vec<u8>>)
    ensures
        match r {
            None => decode_all(data@, colors@, chars@) is None,
            Some(text) => decode_all(data@, colors@, chars@) matches Some(items) && text@
                == encode_utf8(render(items)),
        },
{
    match decode_data(data, colors, chars) {
        None => None,
        Some(items) => Some(render_bytes(items.as_slice())),
    }
}

/// The first index of an element is where it occurs.
pub proof fn lemma_index_of<T>(s: Seq<T>, x: T)
    ensures
        index_of(s, x) matches Some(i) ==> 0 <= i < s.len() && s[i] == x,
        index_of(s, x) is None <==> !s.contains(x),
{
    if s.contains(x) {
        let k = choose|k: int| 0 <= k < s.len() && s[k] == x;
        lemma_least_occurrence(s, x, k);
    }
}

/// An element that occurs has an occurrence with none before it.
proof fn lemma_least_occurrence<T>(s: Seq<T>, x: T, k: int)
    requires
        0 <= k < s.len(),
        s[k] == x,
    ensures
        exists|m: int| 0 <= m < s.len() && s[m] == x && forall|j: int| 0 <= j < m ==> s[j] != x,
    decreases k,
{
    if exists|j: int| 0 <= j < k && s[j] == x {
        let j = choose|j: int| 0 <= j < k && s[j] == x;
        lemma_least_occurrence(s, x, j);
    } else {
        assert(0 <= k < s.len() && s[k] == x && forall|j: int| 0 <= j < k ==> s[j] != x);
    }
}

/// Decoding the bytes of a token followed by more bytes reads back that token.
#[verifier::spinoff_prover]
#[verifier::rlimit(50)]
proof fn lemma_decode_first_encode(a: Ansi, colors: Seq<(u8, u8)>, chars: Seq<char>, rest: Seq<u8>)
    requires
        encode_ansi(a, colors, chars) is Ok,
    ensures
        decode_first(encode_ansi(a, colors, chars).unwrap() + rest, colors, chars) == Some(
            (a, encode_ansi(a, colors, chars).unwrap().len()),
        ),
{
    reveal(encode_ansi);
    let bytes = encode_ansi(a, colors, chars).unwrap();
    let data = bytes + rest;
    match a {
        Ansi::Newline => {
            assert(bytes == seq![NEWLINE_CODE]);
            assert(data[0] == NEWLINE_CODE);
        },
        Ansi::Character { color: Color::Inherit, character } => {
            lemma_index_of(chars, character);
            let j = index_of(chars, character).unwrap();
            assert(bytes == seq![(INHERIT_BASE + j) as u8]);
            assert(data[0] == (INHERIT_BASE + j) as u8);
            assert(data[0] - INHERIT_BASE == j);
            assert(chars[j] == character);
        },
        Ansi::Character { color: Color::Value { foreground, background }, character } => {
            lemma_index_of(chars, character);
            lemma_index_of(colors, (foreground, background));
            let k = index_of(colors, (foreground, background)).unwrap();
            let j = index_of(chars, character).unwrap();
            assert(bytes == seq![k as u8, j as u8]);
            assert(data[0] == k as u8 && data[1] == j as u8);
            assert(colors[k] == (foreground, background));
            assert(chars[j] == character);
        },
    }
}

/// Decoding what was encoded gives back the tokens, whatever the tables.
pub proof fn lemma_decode_encode(items: Seq<Ansi>, colors: Seq<(u8, u8)>, chars: Seq<char>)
    requires
        encode_all(items, colors, chars) is Ok,
    ensures
        decode_all(encode_all(items, colors, chars).unwrap(), colors, chars) == Some(items),
    decreases items.len(),
{
    if items.len() == 0 {
        assert(items =~= Seq::<Ansi>::empty());
    } else {
        let first = encode_ansi(items[0], colors, chars).unwrap();
        let rest = encode_all(items.drop_first(), colors, chars).unwrap();
        lemma_decode_encode(items.drop_first(), colors, chars);
        lemma_decode_first_encode(items[0], colors, chars, rest);
        reveal(encode_ansi);
        assert(first.len() > 0);
        assert((first + rest).skip(first.len() as int) =~= rest);
        assert(seq![items[0]] + items.drop_first() =~= items);
    }
}

/// Whether a token fits the encoding with the given tables: a line break
/// always does; a character that keeps the previous colors is entry `0` to `3`
/// of the character table; a colored character's colors are an entry below
/// `0xfb` of the color table and its character an entry below `256` of the
/// character table.
pub open spec fn encodable(a: Ansi, colors: Seq<(u8, u8)>, chars: Seq<char>) -> bool {
    match a {
        Ansi::Newline => true,
        Ansi::Character { color: Color::Inherit, character } => index_of(chars, character) matches Some(
            j,
        ) && j < 4,
        Ansi::Character { color: Color::Value { foreground, background }, character } => {
            &&& index_of(colors, (foreground, background)) matches Some(k) && k < INHERIT_BASE
            &&& index_of(chars, character) matches Some(j) && j < 256
        },
    }
}

/// A token can be encoded exactly when it fits the encoding.
pub proof fn lemma_encode_ansi_ok(a: Ansi, colors: Seq<(u8, u8)>, chars: Seq<char>)
    ensures
        encode_ansi(a, colors, chars) is Ok <==> encodable(a, colors, chars),
{
    reveal(encode_ansi);
}

/// Tokens can be encoded exactly when every one of them fits the encoding.
pub proof fn lemma_encode_ok(items: Seq<Ansi>, colors: Seq<(u8, u8)>, chars: Seq<char>)
    ensures
        encode_all(items, colors, chars) is Ok <==> forall|i: int|
            0 <= i < items.len() ==> encodable(#[trigger] items[i], colors, chars),
    decreases items.len(),
{
    if items.len() > 0 {
        let rest = items.drop_first();
        lemma_encode_ok(rest, colors, chars);
        lemma_encode_ansi_ok(items[0], colors, chars);
        if forall|i: int| 0 <= i < items.len() ==> encodable(#[trigger] items[i], colors, chars) {
            assert forall|i: int| 0 <= i < rest.len() implies encodable(#[trigger] rest[i], colors, chars) by {
                assert(rest[i] == items[i + 1]);
            }
        }
        if encode_all(items, colors, chars) is Ok {
            assert forall|i: int| 0 <= i < items.len() implies encodable(#[trigger] items[i], colors, chars) by {
                if i > 0 {
                    assert(items[i] == rest[i - 1]);
                }
            }
        }
    }
}

/// The bytes of an encoded token. A line break is the byte `0xff`. A
/// character that keeps the previous colors is one byte from `0xfb` to
/// `0xfe`: `0xfb` plus the first index of the character in the character
/// table. A colored character is two bytes: the first index of its colors in
/// the color table, below `0xfb`, then the first index of the character in
/// the character table.
pub proof fn lemma_encode_token_bytes(a: Ansi, colors: Seq<(u8, u8)>, chars: Seq<char>)
    ensures
        encode_ansi(a, colors, chars) matches Ok(b) ==> match a {
            Ansi::Newline => b == seq![0xffu8],
            Ansi::Character { color: Color::Inherit, character } => {
                &&& b.len() == 1
                &&& 0xfb <= b[0] <= 0xfe
                &&& b[0] - 0xfb < chars.len()
                &&& chars[b[0] - 0xfb] == character
                &&& forall|j: int| 0 <= j < b[0] - 0xfb ==> chars[j] != character
            },
            Ansi::Character { color: Color::Value { foreground, background }, character } => {
                &&& b.len() == 2
                &&& b[0] < 0xfb
                &&& b[0] < colors.len()
                &&& colors[b[0] as int] == (foreground, background)
                &&& forall|j: int| 0 <= j < b[0] ==> colors[j] != (foreground, background)
                &&& b[1] < chars.len()
                &&& chars[b[1] as int] == character
                &&& forall|j: int| 0 <= j < b[1] ==> chars[j] != character
            },
        },
{
    reveal(encode_ansi);
    match a {
        Ansi::Newline => {},
        Ansi::Character { color: Color::Inherit, character } => {
            lemma_index_of(chars, character);
            if let Some(j) = index_of(chars, character) {
                lemma_index_of_first(chars, character);
            }
        },
        Ansi::Character { color: Color::Value { foreground, background }, character } => {
            lemma_index_of(chars, character);
            lemma_index_of(colors, (foreground, background));
            lemma_index_of_first(chars, character);
            lemma_index_of_first(colors, (foreground, background));
        },
    }
}

/// No element before the first index of `x` is `x`.
proof fn lemma_index_of_first<T>(s: Seq<T>, x: T)
    ensures
        index_of(s, x) matches Some(i) ==> forall|j: int| 0 <= j < i ==> s[j] != x,
{
    if s.contains(x) {
        let k = choose|k: int| 0 <= k < s.len() && s[k] == x;
        lemma_least_occurrence(s, x, k);
    }
}

/// Encoding the tokens `a` then `b` gives the bytes of `a` then those of `b`;
/// when either cannot be encoded, the error is that of the first token that
/// cannot.
pub proof fn lemma_encode_concat(a: Seq<Ansi>, b: Seq<Ansi>, colors: Seq<(u8, u8)>, chars: Seq<char>)
    ensures
        encode_all(a + b, colors, chars) == match encode_all(a, colors, chars) {
            Err(e) => Err(e),
            Ok(x) => match encode_all(b, colors, chars) {
                Err(e) => Err(e),
                Ok(y) => Ok::<Seq<u8>, EncodeError>(x + y),
            },
        },
    decreases a.len(),
{
    if a.len() == 0 {
        assert(a + b =~= b);
        match encode_all(b, colors, chars) {
            Ok(y) => {
                assert(Seq::<u8>::empty() + y =~= y);
            },
            Err(_) => {},
        }
    } else {
        lemma_encode_concat(a.drop_first(), b, colors, chars);
        assert((a + b).drop_first() =~= a.drop_first() + b);
        assert((a + b)[0] == a[0]);
        match encode_ansi(a[0], colors, chars) {
            Ok(first) => {
                match encode_all(a.drop_first(), colors, chars) {
                    Ok(x) => match encode_all(b, colors, chars) {
                        Ok(y) => {
                            assert(first + (x + y) =~= (first + x) + y);
                        },
                        Err(_) => {},
                    },
                    Err(_) => {},
                }
            },
            Err(_) => {},
        }
    }
}

/// Encoding a single token gives its bytes.
pub proof fn lemma_encode_single(t: Ansi, colors: Seq<(u8, u8)>, chars: Seq<char>)
    ensures
        encode_all(seq![t], colors, chars) == encode_ansi(t, colors, chars),
{
    assert(seq![t].drop_first() =~= Seq::<Ansi>::empty());
    assert(seq![t][0] == t);
    assert(encode_all(Seq::<Ansi>::empty(), colors, chars) == Ok::<Seq<u8>, EncodeError>(seq![]));
    match encode_ansi(t, colors, chars) {
        Ok(x) => {
            assert(x + Seq::<u8>::empty() =~= x);
        },
        Err(_) => {},
    }
}

/// The tokens that one token's bytes decode to. The byte `0xff` is a line
/// break. A byte `b` from `0xfb` to `0xfe` is entry `b - 0xfb` of the
/// character table, keeping the previous colors, when the table has it. Two
/// bytes `k, j` with `k` below `0xfb` are entry `k` of the color table and
/// entry `j` of the character table, when the tables have them.
pub proof fn lemma_decode_token_bytes(k: u8, j: u8, colors: Seq<(u8, u8)>, chars: Seq<char>)
    ensures
        decode_all(seq![0xffu8], colors, chars) == Some(seq![Ansi::Newline]),
        0xfb <= k <= 0xfe ==> decode_all(seq![k], colors, chars) == if k - 0xfb < chars.len() {
            Some(seq![Ansi::Character { color: Color::Inherit, character: chars[k - 0xfb] }])
        } else {
            None
        },
        k < 0xfb && k < colors.len() && j < chars.len() ==> decode_all(seq![k, j], colors, chars)
            == Some(
            seq![
                Ansi::Character {
                    color: Color::Value {
                        foreground: colors[k as int].0,
                        background: colors[k as int].1,
                    },
                    character: chars[j as int],
                },
            ],
        ),
{
    assert(seq![0xffu8].skip(1) =~= Seq::<u8>::empty());
    assert(seq![k].skip(1) =~= Seq::<u8>::empty());
    assert(seq![k, j].skip(2) =~= Seq::<u8>::empty());
    assert(decode_all(Seq::<u8>::empty(), colors, chars) == Some(Seq::<Ansi>::empty()));
    assert(seq![Ansi::Newline] + Seq::<Ansi>::empty() =~= seq![Ansi::Newline]);
    if 0xfb <= k <= 0xfe && k - 0xfb < chars.len() {
        let t = Ansi::Character { color: Color::Inherit, character: chars[k - 0xfb] };
        assert(seq![t] + Seq::<Ansi>::empty() =~= seq![t]);
    }
    if k < 0xfb && k < colors.len() && j < chars.len() {
        let t = Ansi::Character {
            color: Color::Value { foreground: colors[k as int].0, background: colors[k as int].1 },
            character: chars[j as int],
        };
        assert(seq![t] + Seq::<Ansi>::empty() =~= seq![t]);
    }
}

/// A token read from the start of some bytes is read the same when more
/// bytes follow.
proof fn lemma_decode_first_extend(d: Seq<u8>, e: Seq<u8>, colors: Seq<(u8, u8)>, chars: Seq<char>)
    requires
        decode_first(d, colors, chars) matches Some((_, n)) && n <= d.len(),
    ensures
        decode_first(d + e, colors, chars) == decode_first(d, colors, chars),
{
    assert((d + e)[0] == d[0]);
    if d[0] < INHERIT_BASE {
        assert((d + e)[1] == d[1]);
    }
}

/// Decoding bytes `d` followed by bytes `e`, where `d` decodes on its own,
/// gives the tokens of `d` followed by those of `e`.
pub proof fn lemma_decode_concat(d: Seq<u8>, e: Seq<u8>, colors: Seq<(u8, u8)>, chars: Seq<char>)
    requires
        decode_all(d, colors, chars) is Some,
    ensures
        decode_all(d + e, colors, chars) == match decode_all(e, colors, chars) {
            None => None,
            Some(y) => Some(decode_all(d, colors, chars).unwrap() + y),
        },
    decreases d.len(),
{
    if d.len() == 0 {
        assert(d + e =~= e);
        match decode_all(e, colors, chars) {
            Some(y) => {
                assert(Seq::<Ansi>::empty() + y =~= y);
            },
            None => {},
        }
    } else {
        let (a, n) = decode_first(d, colors, chars).unwrap();
        lemma_decode_first_extend(d, e, colors, chars);
        lemma_decode_concat(d.skip(n as int), e, colors, chars);
        assert((d + e).skip(n as int) =~= d.skip(n as int) + e);
        let x = decode_all(d.skip(n as int), colors, chars).unwrap();
        match decode_all(e, colors, chars) {
            Some(y) => {
                assert(seq![a] + (x + y) =~= (seq![a] + x) + y);
            },
            None => {},
        }
    }
}

/// A byte `b` from `0xfb` to `0xfe` is drawn as entry `b - 0xfb` of the
/// character table and nothing else: no control sequence, in the colors in
/// effect before it.
pub proof fn lemma_inherited_byte_text(k: u8, colors: Seq<(u8, u8)>, chars: Seq<char>)
    requires
        0xfb <= k <= 0xfe,
        k - 0xfb < chars.len(),
    ensures
        decode_all(seq![k], colors, chars) matches Some(items) && encode_utf8(render(items))
            == encode_utf8(seq![chars[k - 0xfb]]),
{
    lemma_decode_token_bytes(k, 0, colors, chars);
    let t = Ansi::Character { color: Color::Inherit, character: chars[k - 0xfb] };
    assert(seq![t].drop_first() =~= Seq::<Ansi>::empty());
    assert(render(seq![t]) =~= render_ansi(t) + render(Seq::<Ansi>::empty()));
    assert(render(seq![t]) =~= seq![chars[k - 0xfb]]);
}

} // verus!
