//! Text helpers shared by the renderers: UTF-8 encoding of characters and
//! literals, and decimal numbers.

use vstd::prelude::*;
use vstd::utf8::encode_utf8;

verus! {

/// The character of the decimal digit `d`.
pub open spec fn digit_char(d: nat) -> char
    recommends
        d < 10,
{
    (d + 48) as char
}

/// The decimal representation of `n`, without leading zeros.
pub open spec fn decimal(n: nat) -> Seq<char>
    decreases n,
{
    if n < 10 {
        seq![digit_char(n)]
    } else {
        decimal(n / 10).push(digit_char(n % 10))
    }
}

/// UTF-8 encoding distributes over concatenation.
pub proof fn lemma_encode_utf8_concat(a: Seq<char>, b: Seq<char>)
    ensures
        encode_utf8(a + b) == encode_utf8(a) + encode_utf8(b),
    decreases a.len(),
{
    if a.len() == 0 {
        assert(a + b =~= b);
    } else {
        lemma_encode_utf8_concat(a.drop_first(), b);
        assert((a + b).drop_first() =~= a.drop_first() + b);
        assert(encode_utf8(a + b) =~= encode_utf8(a) + encode_utf8(b));
    }
}

/// Appends the UTF-8 encoding of `c` to `out`.
pub fn push_char(out: &mut Vec<u8>, c: char)
    ensures
        final(out)@ == old(out)@ + encode_utf8(seq![c]),
{
    let v: u32 = c as u32;
    proof {
        vstd::utf8::char_is_scalar(c);
        assert(seq![c].drop_first() =~= Seq::<char>::empty());
        assert(encode_utf8(seq![c]) == vstd::utf8::encode_scalar(v) + encode_utf8(seq![c].drop_first()));
    }
    if v <= 0x7F {
        out.push((v & 0x7F) as u8);
    } else if v <= 0x7FF {
        out.push(0xC0 | ((v >> 6) & 0x1F) as u8);
        out.push(0x80 | (v & 0x3F) as u8);
    } else if v <= 0xFFFF {
        out.push(0xE0 | ((v >> 12) & 0x0F) as u8);
        out.push(0x80 | ((v >> 6) & 0x3F) as u8);
        out.push(0x80 | (v & 0x3F) as u8);
    } else {
        out.push(0xF0 | ((v >> 18) & 0x7) as u8);
        out.push(0x80 | ((v >> 12) & 0x3F) as u8);
        out.push(0x80 | ((v >> 6) & 0x3F) as u8);
        out.push(0x80 | (v & 0x3F) as u8);
    }
    assert(out@ =~= old(out)@ + encode_utf8(seq![c]));
}

/// Appends the UTF-8 bytes of the string `s` to `out`.
pub fn push_str(out: &mut Vec<u8>, s: &str)
    ensures
        final(out)@ == old(out)@ + encode_utf8(s@),
{
    let bytes = s.as_bytes();
    let n = bytes.len();
    let ghost start = out@;
    let mut i: usize = 0;
    while i < n
        invariant
            n == bytes@.len(),
            bytes@ == encode_utf8(s@),
            i <= n,
            out@ == start + bytes@.take(i as int),
        decreases n - i,
    {
        out.push(bytes[i]);
        assert(bytes@.take(i + 1) =~= bytes@.take(i as int).push(bytes@[i as int]));
        i = i + 1;
    }
    assert(bytes@.take(n as int) =~= bytes@);
}

/// The character of the decimal digit `d`.
fn digit(d: u8) -> (c: char)
    requires
        d < 10,
    ensures
        c == digit_char(d as nat),
{
    (d + 48) as char
}

/// A decimal digit is encoded as the single byte `48 + d`.
pub proof fn lemma_digit_utf8(d: nat)
    requires
        d < 10,
    ensures
        encode_utf8(seq![digit_char(d)]) == seq![(48 + d) as u8],
{
    let v = digit_char(d) as u32;
    assert(v == 48 + d);
    assert(v < 128 ==> (v & 0x7F) == v) by (bit_vector);
    assert(seq![digit_char(d)].drop_first() =~= Seq::<char>::empty());
    assert(encode_utf8(seq![digit_char(d)]) == vstd::utf8::encode_scalar(v) + encode_utf8(
        seq![digit_char(d)].drop_first(),
    ));
    assert(encode_utf8(seq![digit_char(d)]) =~= seq![(48 + d) as u8]);
}

/// Writes the ASCII decimal digits of `n`, most significant first, into the
/// start of `buf` without allocating, and gives their number.
pub fn u8_decimal(n: u8, buf: &mut [u8; 3]) -> (len: usize)
    ensures
        1 <= len <= 3,
        final(buf)@.take(len as int) == encode_utf8(decimal(n as nat)),
        forall|k: int| len <= k < 3 ==> final(buf)@[k] == old(buf)@[k],
{
    let mut rest: u8 = n;
    let mut index: usize = 0;
    if rest >= 10 {
        if rest >= 100 {
            buf[index] = 48 + rest / 100;
            index = index + 1;
            rest = rest % 100;
        }
        buf[index] = 48 + rest / 10;
        index = index + 1;
        rest = rest % 10;
    }
    buf[index] = 48 + rest;
    index = index + 1;
    proof {
        let m = n as nat;
        if m < 10 {
            lemma_digit_utf8(m);
            assert(decimal(m) == seq![digit_char(m)]);
            assert(buf@.take(1) =~= seq![(48 + m) as u8]);
        } else if m < 100 {
            lemma_digit_utf8(m / 10);
            lemma_digit_utf8(m % 10);
            assert(decimal(m / 10) == seq![digit_char(m / 10)]);
            assert(decimal(m) =~= seq![digit_char(m / 10)] + seq![digit_char(m % 10)]);
            lemma_encode_utf8_concat(seq![digit_char(m / 10)], seq![digit_char(m % 10)]);
            assert(buf@.take(2) =~= seq![(48 + m / 10) as u8] + seq![(48 + m % 10) as u8]);
        } else {
            lemma_digit_utf8(m / 100);
            lemma_digit_utf8((m % 100) / 10);
            lemma_digit_utf8(m % 10);
            assert(decimal(m / 100) == seq![digit_char(m / 100)]);
            assert((m / 10) / 10 == m / 100 && (m / 10) % 10 == (m % 100) / 10);
            assert(decimal(m / 10) =~= seq![digit_char(m / 100)] + seq![digit_char((m % 100) / 10)]);
            assert(decimal(m) =~= seq![digit_char(m / 100)] + seq![digit_char((m % 100) / 10)]
                + seq![digit_char(m % 10)]);
            lemma_encode_utf8_concat(seq![digit_char(m / 100)], seq![digit_char((m % 100) / 10)]);
            lemma_encode_utf8_concat(
                seq![digit_char(m / 100)] + seq![digit_char((m % 100) / 10)],
                seq![digit_char(m % 10)],
            );
            assert(buf@.take(3) =~= seq![(48 + m / 100) as u8] + seq![(48 + (m % 100) / 10) as u8]
                + seq![(48 + m % 10) as u8]);
        }
    }
    index
}

/// Appends the first `len` bytes of `buf` to `out`.
pub fn push_bytes(out: &mut Vec<u8>, buf: &[u8], len: usize)
    requires
        len <= buf@.len(),
    ensures
        final(out)@ == old(out)@ + buf@.take(len as int),
{
    let ghost start = out@;
    let mut i: usize = 0;
    while i < len
        invariant
            len <= buf@.len(),
            i <= len,
            out@ == start + buf@.take(i as int),
        decreases len - i,
    {
        out.push(buf[i]);
        assert(buf@.take(i + 1) =~= buf@.take(i as int).push(buf@[i as int]));
        i = i + 1;
    }
}

/// Appends the ASCII decimal digits of `n` to `out`.
pub fn push_decimal(out: &mut Vec<u8>, n: u64)
    ensures
        final(out)@ == old(out)@ + encode_utf8(decimal(n as nat)),
    decreases n,
{
    if n >= 10 {
        push_decimal(out, n / 10);
    }
    let ghost mid = out@;
    push_char(out, digit((n % 10) as u8));
    proof {
        let m = n as nat;
        if m < 10 {
            assert(decimal(m) == seq![digit_char(m)]);
            assert(mid == old(out)@);
        } else {
            assert(decimal(m) == decimal(m / 10) + seq![digit_char(m % 10)]);
            lemma_encode_utf8_concat(decimal(m / 10), seq![digit_char(m % 10)]);
        }
    }
}

} // verus!
