//! Percent-encoding of raw bytes for a URL's query.

use vstd::prelude::*;
use crate::text::is_ascii_bytes;

verus! {

/// `%`, which opens an escaped byte.
pub const PERCENT: u8 = 37;

/// A byte that stands for itself in a query: a letter, a digit, or one of
/// `-`, `.`, `_` and `~`.
pub open spec fn unreserved(b: u8) -> bool {
    ||| 48 <= b <= 57
    ||| 65 <= b <= 90
    ||| 97 <= b <= 122
    ||| b == 45
    ||| b == 46
    ||| b == 95
    ||| b == 126
}

/// The hexadecimal digit, in upper case, for a number below 16.
pub open spec fn hex_digit(n: int) -> u8 {
    if n < 10 {
        (48 + n) as u8
    } else {
        (55 + n) as u8
    }
}

/// The number that a hexadecimal digit of either case stands for.
pub open spec fn hex_value(c: u8) -> Option<int> {
    if 48 <= c <= 57 {
        Some(c - 48)
    } else if 65 <= c <= 70 {
        Some(c - 55)
    } else if 97 <= c <= 102 {
        Some(c - 87)
    } else {
        None
    }
}

/// One byte, escaped unless it stands for itself.
pub open spec fn percent_encode_byte(b: u8) -> Seq<u8> {
    if unreserved(b) {
        seq![b]
    } else {
        seq![PERCENT, hex_digit(b as int / 16), hex_digit(b as int % 16)]
    }
}

/// The bytes of `bytes`, each escaped unless it stands for itself.
pub open spec fn percent_encode(bytes: Seq<u8>) -> Seq<u8>
    decreases bytes.len(),
{
    if bytes.len() == 0 {
        Seq::empty()
    } else {
        percent_encode(bytes.drop_last()) + percent_encode_byte(bytes.last())
    }
}

/// The bytes that an escaped text stands for: `%` and two hexadecimal
/// digits give one byte, and every other byte gives itself.
pub open spec fn percent_decode(text: Seq<u8>) -> Seq<u8>
    decreases text.len(),
{
    if text.len() == 0 {
        Seq::empty()
    } else if text[0] == PERCENT && text.len() >= 3 && hex_value(text[1]).is_some() && hex_value(
        text[2],
    ).is_some() {
        seq![(16 * hex_value(text[1]).unwrap() + hex_value(text[2]).unwrap()) as u8]
            + percent_decode(text.skip(3))
    } else {
        seq![text[0]] + percent_decode(text.skip(1))
    }
}

/// Decoding an escaped byte and what follows it gives the byte, and what
/// follows decoded.
proof fn lemma_decode_first(b: u8, rest: Seq<u8>)
    ensures
        percent_decode(percent_encode_byte(b) + rest) == seq![b] + percent_decode(rest),
{
    let text = percent_encode_byte(b) + rest;
    if unreserved(b) {
        assert(text.skip(1) =~= rest);
    } else {
        assert(text.skip(3) =~= rest);
        assert(text[1] == hex_digit(b as int / 16));
        assert(text[2] == hex_digit(b as int % 16));
    }
}

/// The escaped form of a run of bytes is that of its first byte followed by
/// that of the rest.
proof fn lemma_encode_first(bytes: Seq<u8>)
    requires
        bytes.len() > 0,
    ensures
        percent_encode(bytes) == percent_encode_byte(bytes[0]) + percent_encode(
            bytes.drop_first(),
        ),
    decreases bytes.len(),
{
    if bytes.len() == 1 {
        assert(bytes.drop_last() =~= Seq::<u8>::empty());
        assert(bytes.drop_first() =~= Seq::<u8>::empty());
        assert(percent_encode(bytes) =~= percent_encode_byte(bytes[0]) + percent_encode(
            bytes.drop_first(),
        ));
    } else {
        let front = bytes.drop_last();
        lemma_encode_first(front);
        assert(front.drop_first() =~= bytes.drop_first().drop_last());
        assert(bytes.drop_first().last() == bytes.last());
        assert(percent_encode(bytes) =~= percent_encode_byte(bytes[0]) + percent_encode(
            bytes.drop_first(),
        ));
    }
}

/// Percent-decoding what was percent-encoded gives the bytes back, whatever
/// they are.
pub proof fn lemma_percent_round_trip(bytes: Seq<u8>)
    ensures
        percent_decode(percent_encode(bytes)) == bytes,
    decreases bytes.len(),
{
    if bytes.len() > 0 {
        lemma_encode_first(bytes);
        lemma_decode_first(bytes[0], percent_encode(bytes.drop_first()));
        lemma_percent_round_trip(bytes.drop_first());
        assert(seq![bytes[0]] + bytes.drop_first() =~= bytes);
    }
}

/// An escaped text holds ASCII only.
pub proof fn lemma_percent_encode_ascii(bytes: Seq<u8>)
    ensures
        is_ascii_bytes(percent_encode(bytes)),
    decreases bytes.len(),
{
    if bytes.len() > 0 {
        lemma_percent_encode_ascii(bytes.drop_last());
    }
}

/// The hexadecimal digit, in upper case, for `n`.
fn hex(n: u8) -> (r: u8)
    requires
        n < 16,
    ensures
        r == hex_digit(n as int),
{
    if n < 10 {
        48 + n
    } else {
        55 + n
    }
}

/// Whether `b` stands for itself in a query.
fn is_unreserved(b: u8) -> (r: bool)
    ensures
        r == unreserved(b),
{
    (48 <= b && b <= 57) || (65 <= b && b <= 90) || (97 <= b && b <= 122) || b == 45 || b == 46
        || b == 95 || b == 126
}

/// Appends the escaped form of `bytes` to `out`.
pub fn push_percent_encoded(out: &mut Vec<u8>, bytes: &[u8])
    ensures
        final(out)@ == old(out)@ + percent_encode(bytes@),
{
    let mut i: usize = 0;
    while i < bytes.len()
        invariant
            i <= bytes.len(),
            out@ == old(out)@ + percent_encode(bytes@.take(i as int)),
        decreases bytes.len() - i,
    {
        let b: u8 = bytes[i];
        let ghost before = out@;
        if is_unreserved(b) {
            out.push(b);
        } else {
            out.push(PERCENT);
            out.push(hex(b / 16));
            out.push(hex(b % 16));
        }
        i = i + 1;
        proof {
            assert(bytes@.take(i as int).drop_last() =~= bytes@.take(i - 1));
            assert(out@ =~= before + percent_encode_byte(b));
            assert(out@ =~= old(out)@ + percent_encode(bytes@.take(i as int)));
        }
    }
    proof {
        assert(bytes@.take(bytes@.len() as int) =~= bytes@);
    }
}

} // verus!
