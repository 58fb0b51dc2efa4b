//! The lookup tables of the byte encoding: the distinct color pairs and the
//! distinct characters of a picture, each in increasing order, and the Rust
//! source text that declares them.

use vstd::prelude::*;
use vstd::utf8::encode_utf8;

use crate::ansi::{Ansi, Color};
use crate::text::{decimal, lemma_encode_utf8_concat, push_char, push_decimal, push_str};

verus! {

/// The foreground and background of a token, when it is a character with colors of its own.
pub open spec fn color_of(a: Ansi) -> Option<(u8, u8)> {
    match a {
        Ansi::Character { color: Color::Value { foreground, background }, .. } => Some(
            (foreground, background),
        ),
        _ => None,
    }
}

/// The character of a token, when it is a character.
pub open spec fn char_of(a: Ansi) -> Option<char> {
    match a {
        Ansi::Character { character, .. } => Some(character),
        Ansi::Newline => None,
    }
}

/// Whether some token of `items` is a character drawn in colors `p`.
pub open spec fn uses_color(items: Seq<Ansi>, p: (u8, u8)) -> bool {
    exists|i: int| 0 <= i < items.len() && color_of(#[trigger] items[i]) == Some(p)
}

/// Whether some token of `items` is the character `c`.
pub open spec fn uses_char(items: Seq<Ansi>, c: char) -> bool {
    exists|i: int| 0 <= i < items.len() && char_of(#[trigger] items[i]) == Some(c)
}

/// The order of color pairs: by foreground, then by background.
pub open spec fn pair_lt(a: (u8, u8), b: (u8, u8)) -> bool {
    a.0 < b.0 || (a.0 == b.0 && a.1 < b.1)
}

/// Whether the color pairs are in strictly increasing order.
pub open spec fn colors_increasing(s: Seq<(u8, u8)>) -> bool {
    forall|i: int, j: int| 0 <= i < j < s.len() ==> pair_lt(#[trigger] s[i], #[trigger] s[j])
}

/// Whether the characters are in strictly increasing order of code point.
pub open spec fn chars_increasing(s: Seq<char>) -> bool {
    forall|i: int, j: int| 0 <= i < j < s.len() ==> (#[trigger] s[i] as u32) < (#[trigger] s[j] as u32)
}

/// Whether `table` is the color table of `items`: its distinct color pairs in increasing order.
pub open spec fn is_color_table(items: Seq<Ansi>, table: Seq<(u8, u8)>) -> bool {
    &&& colors_increasing(table)
    &&& forall|p: (u8, u8)| #[trigger] table.contains(p) <==> uses_color(items, p)
}

/// Whether `table` is the character table of `items`: its distinct characters in increasing order.
pub open spec fn is_char_table(items: Seq<Ansi>, table: Seq<char>) -> bool {
    &&& chars_increasing(table)
    &&& forall|c: char| #[trigger] table.contains(c) <==> uses_char(items, c)
}

/// The color table of `items`.
pub open spec fn color_table(items: Seq<Ansi>) -> Seq<(u8, u8)> {
    choose|table: Seq<(u8, u8)>| is_color_table(items, table)
}

/// The character table of `items`.
pub open spec fn char_table(items: Seq<Ansi>) -> Seq<char> {
    choose|table: Seq<char>| is_char_table(items, table)
}

/// Two sequences that increase strictly by `key` and hold the same elements are equal.
proof fn lemma_increasing_unique<T>(s: Seq<T>, t: Seq<T>, key: spec_fn(T) -> int)
    requires
        forall|i: int, j: int| 0 <= i < j < s.len() ==> key(#[trigger] s[i]) < key(#[trigger] s[j]),
        forall|i: int, j: int| 0 <= i < j < t.len() ==> key(#[trigger] t[i]) < key(#[trigger] t[j]),
        forall|x: T| #![trigger s.contains(x)] #![trigger t.contains(x)] s.contains(x) <==> t.contains(x),
    ensures
        s == t,
    decreases s.len() + t.len(),
{
    if s.len() == 0 {
        if t.len() > 0 {
            assert(t.contains(t[0]));
        }
        assert(s =~= t);
    } else {
        assert(s.contains(s[0]));
        let j = choose|j: int| 0 <= j < t.len() && t[j] == s[0];
        assert(t.contains(t[0]));
        let i = choose|i: int| 0 <= i < s.len() && s[i] == t[0];
        if i > 0 {
            assert(key(s[0]) < key(s[i]));
        }
        if j > 0 {
            assert(key(t[0]) < key(t[j]));
        }
        assert(s[0] == t[0]);
        let s1 = s.drop_first();
        let t1 = t.drop_first();
        assert forall|x: T| #![trigger s1.contains(x)] #![trigger t1.contains(x)] s1.contains(x) <==> t1.contains(x) by {
            if s1.contains(x) {
                let k = choose|k: int| 0 <= k < s1.len() && s1[k] == x;
                assert(s[k + 1] == x);
                assert(key(s[0]) < key(s[k + 1]));
                assert(t.contains(x));
                let m = choose|m: int| 0 <= m < t.len() && t[m] == x;
                assert(m != 0);
                assert(t1[m - 1] == x);
            }
            if t1.contains(x) {
                let k = choose|k: int| 0 <= k < t1.len() && t1[k] == x;
                assert(t[k + 1] == x);
                assert(key(t[0]) < key(t[k + 1]));
                assert(s.contains(x));
                let m = choose|m: int| 0 <= m < s.len() && s[m] == x;
                assert(m != 0);
                assert(s1[m - 1] == x);
            }
        }
        assert forall|a: int, b: int| 0 <= a < b < s1.len() implies key(#[trigger] s1[a]) < key(
            #[trigger] s1[b],
        ) by {
            assert(s1[a] == s[a + 1] && s1[b] == s[b + 1]);
        }
        assert forall|a: int, b: int| 0 <= a < b < t1.len() implies key(#[trigger] t1[a]) < key(
            #[trigger] t1[b],
        ) by {
            assert(t1[a] == t[a + 1] && t1[b] == t[b + 1]);
        }
        lemma_increasing_unique(s1, t1, key);
        assert(s =~= t) by {
            assert forall|k: int| 0 <= k < s.len() implies s[k] == t[k] by {
                if k > 0 {
                    assert(s[k] == s1[k - 1] && t[k] == t1[k - 1]);
                }
            }
        }
    }
}

/// A color table of `items` is the color table of `items`.
pub proof fn lemma_color_table_unique(items: Seq<Ansi>, table: Seq<(u8, u8)>)
    requires
        is_color_table(items, table),
    ensures
        color_table(items) == table,
{
    let chosen = color_table(items);
    let key = |p: (u8, u8)| p.0 as int * 256 + p.1 as int;
    assert forall|x: (u8, u8)| #[trigger] chosen.contains(x) <==> table.contains(x) by {}
    assert forall|i: int, j: int| 0 <= i < j < chosen.len() implies key(#[trigger] chosen[i]) < key(
        #[trigger] chosen[j],
    ) by {
        assert(pair_lt(chosen[i], chosen[j]));
    }
    assert forall|i: int, j: int| 0 <= i < j < table.len() implies key(#[trigger] table[i]) < key(
        #[trigger] table[j],
    ) by {
        assert(pair_lt(table[i], table[j]));
    }
    lemma_increasing_unique(chosen, table, key);
}

/// A character table of `items` is the character table of `items`.
pub proof fn lemma_char_table_unique(items: Seq<Ansi>, table: Seq<char>)
    requires
        is_char_table(items, table),
    ensures
        char_table(items) == table,
{
    let chosen = char_table(items);
    let key = |c: char| (c as u32) as int;
    assert forall|x: char| #[trigger] chosen.contains(x) <==> table.contains(x) by {}
    assert forall|i: int, j: int| 0 <= i < j < chosen.len() implies key(#[trigger] chosen[i]) < key(
        #[trigger] chosen[j],
    ) by {
        assert((chosen[i] as u32) < (chosen[j] as u32));
    }
    assert forall|i: int, j: int| 0 <= i < j < table.len() implies key(#[trigger] table[i]) < key(
        #[trigger] table[j],
    ) by {
        assert((table[i] as u32) < (table[j] as u32));
    }
    lemma_increasing_unique(chosen, table, key);
}

/// Color pairs obey the laws of an order, so a `BTreeSet` of them behaves as specified.
proof fn lemma_pairs_ordered()
    ensures
        vstd::laws_cmp::obeys_cmp::<(u8, u8)>(),
{
    broadcast use vstd::laws_cmp::group_laws_cmp;

}

/// The set of color pairs that the characters of `items` are drawn in.
fn gather_colors(items: &[Ansi]) -> (set: std::collections::BTreeSet<(u8, u8)>)
    ensures
        forall|p: (u8, u8)| #[trigger] set@.contains(p) <==> uses_color(items@, p),
{
    proof {
        lemma_pairs_ordered();
    }
    let n = items.len();
    let mut set: std::collections::BTreeSet<(u8, u8)> = std::collections::BTreeSet::new();
    let mut i: usize = 0;
    while i < n
        invariant
            n == items@.len(),
            i <= n,
            forall|p: (u8, u8)| #[trigger] set@.contains(p) <==> uses_color(items@.take(i as int), p),
        decreases n - i,
    {
        let ghost old_set = set@;
        match items[i] {
            Ansi::Character { color: Color::Value { foreground, background }, .. } => {
                set.insert((foreground, background));
            },
            _ => {},
        }
        proof {
            assert forall|p: (u8, u8)| #[trigger] set@.contains(p) <==> uses_color(items@.take(i + 1), p) by {
                let t = items@.take(i + 1);
                if uses_color(t, p) {
                    let k = choose|k: int| 0 <= k < t.len() && color_of(#[trigger] t[k]) == Some(p);
                    if k < i {
                        assert(items@.take(i as int)[k] == t[k]);
                        assert(uses_color(items@.take(i as int), p));
                    }
                }
                if uses_color(items@.take(i as int), p) {
                    let k = choose|k: int|
                        0 <= k < i && color_of(#[trigger] items@.take(i as int)[k]) == Some(p);
                    assert(t[k] == items@.take(i as int)[k]);
                }
                if set@.contains(p) && !old_set.contains(p) {
                    assert(t[i as int] == items@[i as int]);
                }
            }
        }
        i = i + 1;
    }
    proof {
        assert(items@.take(n as int) =~= items@);
    }
    set
}

/// The color pairs of `set`, in the increasing order in which a `BTreeSet` gives them.
fn ordered_colors(set: &std::collections::BTreeSet<(u8, u8)>) -> (table: Vec<(u8, u8)>)
    ensures
        colors_increasing(table@),
        forall|p: (u8, u8)| #[trigger] table@.contains(p) <==> set@.contains(p),
{
    broadcast use vstd::std_specs::btree::group_btree_axioms, vstd::laws_cmp::group_laws_cmp;

    let ghost keys = vstd::std_specs::iter::IteratorSpec::remaining(&vstd::std_specs::btree::spec_btree_keys_iter(set));
    let mut table: Vec<(u8, u8)> = Vec::new();
    for p in it: set.iter()
        invariant
            it.seq() == keys,
            table@.len() == it.index(),
            table@ == keys.take(it.index()).unref(),
    {
        table.push(*p);
        assert(table@ =~= it.seq().take(it.index() + 1).unref());
    }
    proof {
        assert(table@ =~= keys.unref());
        assert(keys.unref().to_set() == set@);
        assert forall|a: int, b: int| 0 <= a < b < table@.len() implies pair_lt(
            #[trigger] table@[a],
            #[trigger] table@[b],
        ) by {
            assert(vstd::std_specs::cmp::OrdSpec::cmp_spec(&keys[a], &keys[b]) == core::cmp::Ordering::Less);
        }
        assert forall|p: (u8, u8)| #[trigger] table@.contains(p) <==> set@.contains(p) by {
            if table@.contains(p) {
                assert(keys.unref().to_set().contains(p));
            }
            if set@.contains(p) {
                assert(keys.unref().to_set().contains(p));
            }
        }
    }
    table
}

/// The distinct color pairs that the characters of `items` are drawn in, in
/// increasing order: they are gathered in a `BTreeSet`, whose iteration gives
/// them in order.
pub fn color_mapping(items: &[Ansi]) -> (table: Vec<(u8, u8)>)
    ensures
        is_color_table(items@, table@),
        table@ == color_table(items@),
{
    let set = gather_colors(items);
    let table = ordered_colors(&set);
    proof {
        lemma_color_table_unique(items@, table@);
    }
    table
}

/// The code point of a character.
pub open spec fn code(c: char) -> u32 {
    c as u32
}

/// Distinct characters have distinct code points.
pub proof fn lemma_code_injective(c: char, d: char)
    ensures
        code(c) == code(d) ==> c == d,
{
    vstd::utf8::char_u32_cast(c, c as u32);
    vstd::utf8::char_u32_cast(d, d as u32);
}

/// Code points compare as integers and obey the laws of an order.
proof fn lemma_codes_ordered()
    ensures
        vstd::laws_cmp::obeys_cmp::<u32>(),
{
    broadcast use vstd::laws_cmp::group_laws_cmp;

}

/// The characters of `items`, each under its code point.
fn gather_chars(items: &[Ansi]) -> (map: std::collections::BTreeMap<u32, char>)
    ensures
        forall|k: u32| #[trigger] map@.contains_key(k) ==> code(map@[k]) == k,
        forall|c: char| #[trigger] map@.contains_key(code(c)) <==> uses_char(items@, c),
{
    proof {
        lemma_codes_ordered();
    }
    let n = items.len();
    let mut map: std::collections::BTreeMap<u32, char> = std::collections::BTreeMap::new();
    let mut i: usize = 0;
    while i < n
        invariant
            n == items@.len(),
            i <= n,
            forall|k: u32| #[trigger] map@.contains_key(k) ==> code(map@[k]) == k,
            forall|c: char| #[trigger] map@.contains_key(code(c)) <==> uses_char(items@.take(i as int), c),
        decreases n - i,
    {
        let ghost old_map = map@;
        match items[i] {
            Ansi::Character { character, .. } => {
                map.insert(character as u32, character);
            },
            Ansi::Newline => {},
        }
        proof {
            assert forall|c: char| #[trigger] map@.contains_key(code(c)) <==> uses_char(items@.take(i + 1), c) by {
                let t = items@.take(i + 1);
                if uses_char(t, c) {
                    let k = choose|k: int| 0 <= k < t.len() && char_of(#[trigger] t[k]) == Some(c);
                    if k < i {
                        assert(items@.take(i as int)[k] == t[k]);
                        assert(uses_char(items@.take(i as int), c));
                    }
                }
                if uses_char(items@.take(i as int), c) {
                    let k = choose|k: int|
                        0 <= k < i && char_of(#[trigger] items@.take(i as int)[k]) == Some(c);
                    assert(t[k] == items@.take(i as int)[k]);
                }
                if map@.contains_key(code(c)) && !old_map.contains_key(code(c)) {
                    assert(t[i as int] == items@[i as int]);
                    if let Ansi::Character { character, .. } = items@[i as int] {
                        lemma_code_injective(c, character);
                    }
                }
            }
        }
        i = i + 1;
    }
    proof {
        assert(items@.take(n as int) =~= items@);
    }
    map
}

/// The characters of `map`, in the increasing order of their code points in
/// which a `BTreeMap` gives them.
fn ordered_chars(map: &std::collections::BTreeMap<u32, char>) -> (table: Vec<char>)
    requires
        forall|k: u32| #[trigger] map@.contains_key(k) ==> code(map@[k]) == k,
    ensures
        chars_increasing(table@),
        forall|c: char| #[trigger] table@.contains(c) <==> map@.contains_key(code(c)),
{
    broadcast use vstd::std_specs::btree::group_btree_axioms, vstd::laws_cmp::group_laws_cmp;

    let ghost pairs = vstd::std_specs::iter::IteratorSpec::remaining(
        &vstd::std_specs::btree::spec_btree_map_iter(map),
    );
    let mut table: Vec<char> = Vec::new();
    for entry in it: map.iter()
        invariant
            it.seq() == pairs,
            table@.len() == it.index(),
            table@ == pairs.take(it.index()).map_values(|kv: (&u32, &char)| *kv.1),
    {
        let (_, c) = entry;
        table.push(*c);
        assert(table@ =~= pairs.take(it.index() + 1).map_values(|kv: (&u32, &char)| *kv.1));
    }
    proof {
        let keys = pairs.map_values(|kv: (&u32, &char)| *kv.0);
        assert(table@ =~= pairs.map_values(|kv: (&u32, &char)| *kv.1));
        assert forall|a: int| 0 <= a < table@.len() implies code(#[trigger] table@[a]) == keys[a] by {
            assert(map@.contains_key(*pairs[a].0) && map@[*pairs[a].0] == *pairs[a].1);
        }
        assert forall|a: int, b: int| 0 <= a < b < table@.len() implies code(#[trigger] table@[a]) < code(
            #[trigger] table@[b],
        ) by {
            assert(vstd::std_specs::cmp::OrdSpec::cmp_spec(&keys[a], &keys[b]) == core::cmp::Ordering::Less);
            assert(code(table@[a]) == keys[a] && code(table@[b]) == keys[b]);
        }
        assert forall|c: char| #[trigger] table@.contains(c) <==> map@.contains_key(code(c)) by {
            if table@.contains(c) {
                let a = choose|a: int| 0 <= a < table@.len() && table@[a] == c;
                assert(map@.contains_key(*pairs[a].0) && map@[*pairs[a].0] == *pairs[a].1);
            }
            if map@.contains_key(code(c)) {
                let k = code(c);
                assert(pairs.contains((&k, &map@[k])));
                let a = choose|a: int| 0 <= a < pairs.len() && pairs[a] == (&k, &map@[k]);
                assert(table@[a] == map@[k]);
                lemma_code_injective(c, map@[k]);
            }
        }
    }
    table
}

/// The distinct characters of `items`, in increasing order of code point:
/// they are gathered in a `BTreeMap` keyed by code point, whose iteration
/// gives them in order.
pub fn char_mapping(items: &[Ansi]) -> (table: Vec<char>)
    ensures
        is_char_table(items@, table@),
        table@ == char_table(items@),
{
    let map = gather_chars(items);
    let table = ordered_chars(&map);
    proof {
        lemma_char_table_unique(items@, table@);
    }
    table
}

/// The parts joined with `sep` between each two of them.
pub open spec fn join(parts: Seq<Seq<char>>, sep: Seq<char>) -> Seq<char>
    decreases parts.len(),
{
    if parts.len() == 0 {
        seq![]
    } else if parts.len() == 1 {
        parts[0]
    } else {
        join(parts.drop_last(), sep) + sep + parts.last()
    }
}

/// The source text of a color pair: `(fg, bg)`.
pub open spec fn color_entry(p: (u8, u8)) -> Seq<char> {
    seq!['('] + decimal(p.0 as nat) + seq![',', ' '] + decimal(p.1 as nat) + seq![')']
}

/// The source text of a character literal: `'c'`.
pub open spec fn char_entry(c: char) -> Seq<char> {
    seq!['\'', c, '\'']
}

/// The separator between the entries of a table.
pub open spec fn entry_separator() -> Seq<char> {
    ",\n    "@
}

/// The source text of an array constant: `header`, its length, and its
/// entries one per line.
pub open spec fn table_text(header: Seq<char>, len: nat, entries: Seq<Seq<char>>) -> Seq<char> {
    header + decimal(len) + "] = [\n    "@ + join(entries, entry_separator()) + ",\n];"@
}

/// The Rust source that declares the two lookup tables.
pub open spec fn mapping_text(colors: Seq<(u8, u8)>, chars: Seq<char>) -> Seq<char> {
    table_text(
        "pub const COLOR_MAPPING: [(u8, u8); "@,
        colors.len(),
        colors.map_values(|p: (u8, u8)| color_entry(p)),
    ) + "\n"@ + table_text(
        "pub const CHAR_MAPPING: [char; "@,
        chars.len(),
        chars.map_values(|c: char| char_entry(c)),
    )
}

/// Joining one more part adds the separator and the part.
proof fn lemma_join_take(parts: Seq<Seq<char>>, sep: Seq<char>, i: int)
    requires
        0 <= i < parts.len(),
    ensures
        join(parts.take(i + 1), sep) == if i == 0 {
            parts[0]
        } else {
            join(parts.take(i), sep) + sep + parts[i]
        },
{
    assert(parts.take(i + 1).drop_last() =~= parts.take(i));
}

/// Appends the text of a color pair to `out`.
fn push_color_entry(out: &mut Vec<u8>, p: (u8, u8))
    ensures
        final(out)@ == old(out)@ + encode_utf8(color_entry(p)),
{
    let ghost start = out@;
    push_char(out, '(');
    push_decimal(out, p.0 as u64);
    push_char(out, ',');
    push_char(out, ' ');
    push_decimal(out, p.1 as u64);
    push_char(out, ')');
    proof {
        let a = seq!['('];
        let b = decimal(p.0 as nat);
        let c = seq![','];
        let d = seq![' '];
        let e = decimal(p.1 as nat);
        let f = seq![')'];
        assert(color_entry(p) =~= a + b + c + d + e + f);
        lemma_encode_utf8_concat(a, b);
        lemma_encode_utf8_concat(a + b, c);
        lemma_encode_utf8_concat(a + b + c, d);
        lemma_encode_utf8_concat(a + b + c + d, e);
        lemma_encode_utf8_concat(a + b + c + d + e, f);
        assert(out@ =~= start + encode_utf8(color_entry(p)));
    }
}

/// Appends the text of a character literal to `out`.
fn push_char_entry(out: &mut Vec<u8>, c: char)
    ensures
        final(out)@ == old(out)@ + encode_utf8(char_entry(c)),
{
    let ghost start = out@;
    push_char(out, '\'');
    push_char(out, c);
    push_char(out, '\'');
    proof {
        let a = seq!['\''];
        let b = seq![c];
        assert(char_entry(c) =~= a + b + a);
        lemma_encode_utf8_concat(a, b);
        lemma_encode_utf8_concat(a + b, a);
        assert(out@ =~= start + encode_utf8(char_entry(c)));
    }
}

/// Appends the declaration of the color table to `out`.
fn push_color_table(out: &mut Vec<u8>, colors: &[(u8, u8)])
    ensures
        final(out)@ == old(out)@ + encode_utf8(
            table_text(
                "pub const COLOR_MAPPING: [(u8, u8); "@,
                colors@.len(),
                colors@.map_values(|p: (u8, u8)| color_entry(p)),
            ),
        ),
{
    let ghost start = out@;
    let ghost entries = colors@.map_values(|p: (u8, u8)| color_entry(p));
    let ghost header = "pub const COLOR_MAPPING: [(u8, u8); "@;
    let ghost opening = "] = [\n    "@;
    push_str(out, "pub const COLOR_MAPPING: [(u8, u8); ");
    push_decimal(out, colors.len() as u64);
    push_str(out, "] = [\n    ");
    let ghost body_start = out@;
    let n = colors.len();
    let mut i: usize = 0;
    while i < n
        invariant
            n == colors@.len(),
            entries == colors@.map_values(|p: (u8, u8)| color_entry(p)),
            i <= n,
            out@ == body_start + encode_utf8(join(entries.take(i as int), entry_separator())),
        decreases n - i,
    {
        proof {
            lemma_join_take(entries, entry_separator(), i as int);
        }
        if i > 0 {
            push_str(out, ",\n    ");
            proof {
                lemma_encode_utf8_concat(join(entries.take(i as int), entry_separator()), entry_separator());
            }
        }
        push_color_entry(out, colors[i]);
        proof {
            if i > 0 {
                lemma_encode_utf8_concat(
                    join(entries.take(i as int), entry_separator()) + entry_separator(),
                    entries[i as int],
                );
            } else {
                assert(entries.take(0) =~= Seq::<Seq<char>>::empty());
            }
            assert(out@ =~= body_start + encode_utf8(join(entries.take(i + 1), entry_separator())));
        }
        i = i + 1;
    }
    push_str(out, ",\n];");
    proof {
        let j = join(entries, entry_separator());
        let closing = ",\n];"@;
        assert(entries.take(n as int) =~= entries);
        let d = decimal(colors@.len());
        lemma_encode_utf8_concat(header, d);
        lemma_encode_utf8_concat(header + d, opening);
        lemma_encode_utf8_concat(header + d + opening, j);
        lemma_encode_utf8_concat(header + d + opening + j, closing);
        assert(out@ =~= start + encode_utf8(header + d + opening + j + closing));
    }
}

/// Appends the declaration of the character table to `out`.
fn push_char_table(out: &mut Vec<u8>, chars: &[char])
    ensures
        final(out)@ == old(out)@ + encode_utf8(
            table_text(
                "pub const CHAR_MAPPING: [char; "@,
                chars@.len(),
                chars@.map_values(|c: char| char_entry(c)),
            ),
        ),
{
    let ghost start = out@;
    let ghost entries = chars@.map_values(|c: char| char_entry(c));
    let ghost header = "pub const CHAR_MAPPING: [char; "@;
    let ghost opening = "] = [\n    "@;
    push_str(out, "pub const CHAR_MAPPING: [char; ");
    push_decimal(out, chars.len() as u64);
    push_str(out, "] = [\n    ");
    let ghost body_start = out@;
    let n = chars.len();
    let mut i: usize = 0;
    while i < n
        invariant
            n == chars@.len(),
            entries == chars@.map_values(|c: char| char_entry(c)),
            i <= n,
            out@ == body_start + encode_utf8(join(entries.take(i as int), entry_separator())),
        decreases n - i,
    {
        proof {
            lemma_join_take(entries, entry_separator(), i as int);
        }
        if i > 0 {
            push_str(out, ",\n    ");
            proof {
                lemma_encode_utf8_concat(join(entries.take(i as int), entry_separator()), entry_separator());
            }
        }
        push_char_entry(out, chars[i]);
        proof {
            if i > 0 {
                lemma_encode_utf8_concat(
                    join(entries.take(i as int), entry_separator()) + entry_separator(),
                    entries[i as int],
                );
            } else {
                assert(entries.take(0) =~= Seq::<Seq<char>>::empty());
            }
            assert(out@ =~= body_start + encode_utf8(join(entries.take(i + 1), entry_separator())));
        }
        i = i + 1;
    }
    push_str(out, ",\n];");
    proof {
        let j = join(entries, entry_separator());
        let closing = ",\n];"@;
        assert(entries.take(n as int) =~= entries);
        let d = decimal(chars@.len());
        lemma_encode_utf8_concat(header, d);
        lemma_encode_utf8_concat(header + d, opening);
        lemma_encode_utf8_concat(header + d + opening, j);
        lemma_encode_utf8_concat(header + d + opening + j, closing);
        assert(out@ =~= start + encode_utf8(header + d + opening + j + closing));
    }
}

/// The UTF-8 text of the Rust source that declares the two lookup tables:
/// `COLOR_MAPPING`, an array of `(foreground, background)` pairs, then on the
/// next line `CHAR_MAPPING`, an array of characters.
pub fn mapping_source(colors: &[(u8, u8)], chars: &[char]) -> (source: Vec<u8>)
    ensures
        source@ == encode_utf8(mapping_text(colors@, chars@)),
{
    let mut source: Vec<u8> = Vec::new();
    push_color_table(&mut source, colors);
    let ghost first = source@;
    push_str(&mut source, "\n");
    push_char_table(&mut source, chars);
    proof {
        let a = table_text(
            "pub const COLOR_MAPPING: [(u8, u8); "@,
            colors@.len(),
            colors@.map_values(|p: (u8, u8)| color_entry(p)),
        );
        let b = "\n"@;
        let c = table_text(
            "pub const CHAR_MAPPING: [char; "@,
            chars@.len(),
            chars@.map_values(|c: char| char_entry(c)),
        );
        assert(Seq::<u8>::empty() + encode_utf8(a) =~= encode_utf8(a));
        lemma_encode_utf8_concat(a, b);
        lemma_encode_utf8_concat(a + b, c);
        assert(source@ =~= encode_utf8(a + b + c));
    }
    source
}

/// A table entry on a line of its own: indented, with a comma after it.
pub open spec fn entry_line(entry: Seq<char>) -> Seq<char> {
    "    "@ + entry + ",\n"@
}

/// Entries joined with the separator, indented before the first and with a
/// comma and a line break after the last, are the entries each on a line of
/// its own.
proof fn lemma_join_lines(entries: Seq<Seq<char>>)
    requires
        entries.len() > 0,
    ensures
        "    "@ + join(entries, entry_separator()) + ",\n"@ == entries.map_values(
            |e: Seq<char>| entry_line(e),
        ).flatten(),
    decreases entries.len(),
{
    reveal_strlit("    ");
    reveal_strlit(",\n");
    reveal_strlit(",\n    ");
    let lines = entries.map_values(|e: Seq<char>| entry_line(e));
    if entries.len() == 1 {
        assert(lines =~= seq![entry_line(entries[0])]);
        lines.lemma_flatten_one_element();
    } else {
        let init = entries.drop_last();
        lemma_join_lines(init);
        let init_lines = init.map_values(|e: Seq<char>| entry_line(e));
        assert(lines =~= init_lines.push(entry_line(entries.last())));
        init_lines.lemma_flatten_push(entry_line(entries.last()));
        assert(entry_separator() =~= ",\n"@ + "    "@);
        assert("    "@ + join(entries, entry_separator()) + ",\n"@ =~= ("    "@ + join(
            init,
            entry_separator(),
        ) + ",\n"@) + entry_line(entries.last()));
    }
}

/// The text of an array constant: its header, its length, the opening bracket
/// at the end of the first line, then each entry in order on a line of its
/// own, indented and followed by a comma, and the closing bracket on the last
/// line. With no entry, the one line between the brackets holds the comma
/// alone.
pub proof fn lemma_table_lines(header: Seq<char>, len: nat, entries: Seq<Seq<char>>)
    ensures
        entries.len() > 0 ==> table_text(header, len, entries) == header + decimal(len)
            + "] = [\n"@ + entries.map_values(|e: Seq<char>| entry_line(e)).flatten() + "];"@,
        entries.len() == 0 ==> table_text(header, len, entries) == header + decimal(len)
            + "] = [\n    ,\n];"@,
{
    reveal_strlit("] = [\n    ");
    reveal_strlit(",\n];");
    reveal_strlit("] = [\n");
    reveal_strlit("];");
    reveal_strlit("    ");
    reveal_strlit(",\n");
    reveal_strlit("] = [\n    ,\n];");
    let d = decimal(len);
    let j = join(entries, entry_separator());
    if entries.len() > 0 {
        lemma_join_lines(entries);
        assert(table_text(header, len, entries) =~= header + d + "] = [\n"@ + ("    "@ + j
            + ",\n"@) + "];"@);
    } else {
        assert(j =~= Seq::<char>::empty());
        assert(table_text(header, len, entries) =~= header + d + "] = [\n    ,\n];"@);
    }
}

/// The source of the lookup tables declares `COLOR_MAPPING` with the number
/// of color pairs and one line per pair, in table order, then on the next
/// line `CHAR_MAPPING` with the number of characters and one line per
/// character, in table order.
pub proof fn lemma_mapping_lines(colors: Seq<(u8, u8)>, chars: Seq<char>)
    requires
        colors.len() > 0,
        chars.len() > 0,
    ensures
        mapping_text(colors, chars) == "pub const COLOR_MAPPING: [(u8, u8); "@ + decimal(colors.len())
            + "] = [\n"@ + colors.map_values(|p: (u8, u8)| entry_line(color_entry(p))).flatten()
            + "];"@ + "\n"@ + "pub const CHAR_MAPPING: [char; "@ + decimal(chars.len())
            + "] = [\n"@ + chars.map_values(|c: char| entry_line(char_entry(c))).flatten()
            + "];"@,
{
    let ce = colors.map_values(|p: (u8, u8)| color_entry(p));
    let he = chars.map_values(|c: char| char_entry(c));
    lemma_table_lines("pub const COLOR_MAPPING: [(u8, u8); "@, colors.len(), ce);
    lemma_table_lines("pub const CHAR_MAPPING: [char; "@, chars.len(), he);
    assert(ce.map_values(|e: Seq<char>| entry_line(e)) =~= colors.map_values(
        |p: (u8, u8)| entry_line(color_entry(p)),
    ));
    assert(he.map_values(|e: Seq<char>| entry_line(e)) =~= chars.map_values(
        |c: char| entry_line(char_entry(c)),
    ));
}

} // verus!
