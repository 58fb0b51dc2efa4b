//! Removal of repeated colors: a character drawn in the same colors as the
//! character just before it on the same line need not select them again.

use vstd::prelude::*;

use crate::ansi::{all_colored, Ansi, Color};

verus! {

/// The token at `i` once repeated colors are removed: a character whose
/// colors equal those of the character just before it inherits them.
pub open spec fn dedupe_at(items: Seq<Ansi>, i: int) -> Ansi {
    match items[i] {
        Ansi::Character { color, character } => if i > 0 && (items[i - 1] matches Ansi::Character {
            color: previous,
            ..
        } && previous == color) {
            Ansi::Character { color: Color::Inherit, character }
        } else {
            items[i]
        },
        Ansi::Newline => Ansi::Newline,
    }
}

/// Whether the token at `i` and the one before it are both characters, drawn
/// in the same colors.
pub open spec fn repeats_color(items: Seq<Ansi>, i: int) -> bool {
    &&& 0 < i < items.len()
    &&& items[i] is Character
    &&& items[i - 1] is Character
    &&& items[i]->color == items[i - 1]->color
}

/// The tokens once repeated colors are removed.
pub open spec fn spec_dedupe(items: Seq<Ansi>) -> Seq<Ansi> {
    Seq::new(items.len(), |i: int| dedupe_at(items, i))
}

/// The colors in effect after the first `k` tokens: those of the last token
/// if it is a character, none at the start or after a line break.
pub open spec fn colors_after(items: Seq<Ansi>, k: int) -> Option<Color> {
    if k > 0 {
        match items[k - 1] {
            Ansi::Character { color, .. } => Some(color),
            Ansi::Newline => None,
        }
    } else {
        None
    }
}

/// The tokens with the colors a terminal draws each character in, given the
/// colors `current` in effect before them: a character that inherits takes
/// the colors in effect, a colored character sets them, a line break resets
/// them.
pub open spec fn restore_from(current: Option<Color>, items: Seq<Ansi>) -> Seq<Ansi>
    decreases items.len(),
{
    if items.len() == 0 {
        seq![]
    } else {
        let rest = items.drop_first();
        match items[0] {
            Ansi::Newline => seq![Ansi::Newline] + restore_from(None, rest),
            Ansi::Character { color: Color::Inherit, character } => match current {
                Some(c) => seq![Ansi::Character { color: c, character }] + restore_from(
                    current,
                    rest,
                ),
                None => seq![items[0]] + restore_from(None, rest),
            },
            Ansi::Character { color, .. } => seq![items[0]] + restore_from(Some(color), rest),
        }
    }
}

/// The tokens with the colors a terminal draws each character in.
pub open spec fn restore(items: Seq<Ansi>) -> Seq<Ansi> {
    restore_from(None, items)
}

/// Removes repeated colors from `items`.
pub fn dedupe_colors(items: &[Ansi]) -> (out: Vec<Ansi>)
    ensures
        out@ == spec_dedupe(items@),
        out@.len() == items@.len(),
        forall|i: int|
            #![trigger out@[i]]
            0 <= i < items@.len() ==> if repeats_color(items@, i) {
                out@[i] == Ansi::Character { color: Color::Inherit, character: items@[i]->character }
            } else {
                out@[i] == items@[i]
            },
{
    let n = items.len();
    let mut out: Vec<Ansi> = Vec::with_capacity(n);
    let mut state: Option<Color> = None;
    let mut i: usize = 0;
    while i < n
        invariant
            n == items@.len(),
            i <= n,
            state == colors_after(items@, i as int),
            out@ == spec_dedupe(items@).take(i as int),
        decreases n - i,
    {
        let ansi = items[i];
        let next = match (state, ansi) {
            (None, Ansi::Character { color, .. }) => {
                state = Some(color);
                ansi
            },
            (_, Ansi::Newline) => {
                state = None;
                ansi
            },
            (Some(previous), Ansi::Character { color, character }) => {
                if previous == color {
                    Ansi::Character { color: Color::Inherit, character }
                } else {
                    state = Some(color);
                    ansi
                }
            },
        };
        assert(next == dedupe_at(items@, i as int));
        out.push(next);
        assert(out@ =~= spec_dedupe(items@).take(i + 1));
        i = i + 1;
    }
    assert(out@ =~= spec_dedupe(items@));
    proof {
        lemma_dedupe_repeated(items@);
    }
    out
}

/// Restoring the colors of the tokens from `k` on, with the colors in effect
/// after the first `k`, undoes the removal of repeated colors.
proof fn lemma_restore_dedupe_from(items: Seq<Ansi>, k: int)
    requires
        all_colored(items),
        0 <= k <= items.len(),
    ensures
        restore_from(colors_after(items, k), spec_dedupe(items).skip(k)) == items.skip(k),
    decreases items.len() - k,
{
    let d = spec_dedupe(items);
    if k == items.len() {
        assert(d.skip(k) =~= Seq::<Ansi>::empty());
        assert(items.skip(k) =~= Seq::<Ansi>::empty());
    } else {
        lemma_restore_dedupe_from(items, k + 1);
        assert(d.skip(k).drop_first() =~= d.skip(k + 1));
        assert(d.skip(k)[0] == dedupe_at(items, k));
        assert(items.skip(k) =~= seq![items[k]] + items.skip(k + 1));
        assert(!(items[k] matches Ansi::Character { color: Color::Inherit, .. }));
    }
}

/// Removing repeated colors loses nothing: a terminal draws every character
/// of the result in the colors it had before.
pub proof fn lemma_restore_dedupe(items: Seq<Ansi>)
    requires
        all_colored(items),
    ensures
        restore(spec_dedupe(items)) == items,
{
    lemma_restore_dedupe_from(items, 0);
    assert(spec_dedupe(items).skip(0) =~= spec_dedupe(items));
    assert(items.skip(0) =~= items);
}

/// Removing repeated colors keeps one token per token. A character drawn in
/// the same colors as the character just before it becomes that character
/// with inherited colors, whatever the character; every other token stays as
/// it is.
pub proof fn lemma_dedupe_repeated(items: Seq<Ansi>)
    ensures
        spec_dedupe(items).len() == items.len(),
        forall|i: int|
            #![trigger spec_dedupe(items)[i]]
            0 <= i < items.len() ==> if repeats_color(items, i) {
                spec_dedupe(items)[i] == Ansi::Character {
                    color: Color::Inherit,
                    character: items[i]->character,
                }
            } else {
                spec_dedupe(items)[i] == items[i]
            },
{
}

/// Removing repeated colors a second time changes nothing.
pub proof fn lemma_dedupe_idempotent(items: Seq<Ansi>)
    ensures
        spec_dedupe(spec_dedupe(items)) == spec_dedupe(items),
{
    let d = spec_dedupe(items);
    assert forall|i: int| 0 <= i < d.len() implies dedupe_at(d, i) == d[i] by {
        if i > 0 {
            assert(d[i - 1] == dedupe_at(items, i - 1));
        }
    }
    assert(spec_dedupe(d) =~= d);
}

} // verus!
