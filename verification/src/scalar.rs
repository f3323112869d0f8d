//! Integers and byte strings on the wire, and how to find them in a buffer.

use vstd::prelude::*;
use crate::decimal::{
    decimal, is_digit, lemma_decimal_canonical, lemma_number_at_decimal, lemma_number_at_text,
    number_at, parse_number,
};
use crate::encoding::{
    encode, encode_bytes, encodes_at, lemma_text_at_byte, lemma_text_at_concat, signed_decimal,
    text_at, Value, END, INTEGER_START, LENGTH_END, MINUS,
};

verus! {

/// The largest magnitude of a negative 64-bit integer.
pub const MAX_NEGATIVE: u64 = 0x8000_0000_0000_0000;

/// The integer written at `pos` and the place right after it: `i`, an
/// optional `-`, a canonical number other than `-0` that fits in 64 bits, `e`.
pub open spec fn integer_at(s: Seq<u8>, pos: int) -> Option<(int, int)> {
    if 0 <= pos && pos + 1 < s.len() && s[pos] == INTEGER_START {
        let negative = s[pos + 1] == MINUS;
        let digits = if negative { pos + 2 } else { pos + 1 };
        match number_at(s, digits) {
            Some((m, end)) => {
                if end < s.len() && s[end] == END && (if negative {
                    1 <= m <= MAX_NEGATIVE
                } else {
                    m <= i64::MAX
                }) {
                    Some((if negative { -(m as int) } else { m as int }, end + 1))
                } else {
                    None
                }
            },
            None => None,
        }
    } else {
        None
    }
}

/// The byte string written at `pos` and the place right after it: a
/// canonical length, `:`, and that many bytes, all inside `s`.
pub open spec fn bytes_at(s: Seq<u8>, pos: int) -> Option<(Seq<u8>, int)> {
    match number_at(s, pos) {
        Some((m, end)) => {
            if end < s.len() && s[end] == LENGTH_END && end + 1 + m <= s.len() {
                Some((s.subrange(end + 1, end + 1 + m), end + 1 + m))
            } else {
                None
            }
        },
        None => None,
    }
}

/// What `integer_at` finds is an integer of 64 bits whose encoding stands there.
pub proof fn lemma_integer_at_sound(s: Seq<u8>, pos: int)
    requires
        integer_at(s, pos).is_some(),
    ensures
        ({
            let (n, end) = integer_at(s, pos).unwrap();
            &&& i64::MIN <= n <= i64::MAX
            &&& encodes_at(s, pos, Value::Integer(n))
            &&& end == pos + encode(Value::Integer(n)).len()
        }),
{
    let negative = s[pos + 1] == MINUS;
    let digits = if negative { pos + 2 } else { pos + 1 };
    let (m, end) = number_at(s, digits).unwrap();
    let n = integer_at(s, pos).unwrap().0;
    lemma_number_at_text(s, digits);
    assert(text_at(s, digits, decimal(m)));
    lemma_text_at_byte(s, pos, INTEGER_START);
    lemma_text_at_byte(s, end, END);
    if negative {
        lemma_text_at_byte(s, pos + 1, MINUS);
        lemma_text_at_concat(s, pos + 1, seq![MINUS], decimal(m));
        assert((-n) as nat == m);
    }
    assert(text_at(s, pos + 1, signed_decimal(n)));
    lemma_text_at_concat(s, pos, seq![INTEGER_START], signed_decimal(n));
    lemma_text_at_concat(s, pos, seq![INTEGER_START] + signed_decimal(n), seq![END]);
}

/// An integer of 64 bits whose encoding stands at `pos` is what `integer_at` finds.
pub proof fn lemma_integer_at_complete(s: Seq<u8>, pos: int, n: int)
    requires
        i64::MIN <= n <= i64::MAX,
        encodes_at(s, pos, Value::Integer(n)),
    ensures
        integer_at(s, pos) == Some((n, pos + encode(Value::Integer(n)).len())),
{
    let text = signed_decimal(n);
    lemma_text_at_concat(s, pos, seq![INTEGER_START] + text, seq![END]);
    lemma_text_at_concat(s, pos, seq![INTEGER_START], text);
    lemma_text_at_byte(s, pos, INTEGER_START);
    lemma_text_at_byte(s, pos + 1 + text.len(), END);
    if n < 0 {
        let m = (-n) as nat;
        lemma_text_at_concat(s, pos + 1, seq![MINUS], decimal(m));
        lemma_text_at_byte(s, pos + 1, MINUS);
        lemma_number_at_decimal(s, pos + 2, m);
    } else {
        let m = n as nat;
        lemma_decimal_canonical(m);
        assert(s.subrange(pos + 1, pos + 1 + text.len())[0] == text[0]);
        assert(is_digit(s[pos + 1]));
        lemma_number_at_decimal(s, pos + 1, m);
    }
}

/// What `bytes_at` finds is a byte string whose encoding stands there.
pub proof fn lemma_bytes_at_sound(s: Seq<u8>, pos: int)
    requires
        bytes_at(s, pos).is_some(),
    ensures
        ({
            let (b, end) = bytes_at(s, pos).unwrap();
            &&& text_at(s, pos, encode_bytes(b))
            &&& end == pos + encode_bytes(b).len()
            &&& is_digit(s[pos])
        }),
{
    let (m, end) = number_at(s, pos).unwrap();
    let b = bytes_at(s, pos).unwrap().0;
    lemma_number_at_text(s, pos);
    lemma_decimal_canonical(m);
    assert(s.subrange(pos, end)[0] == s[pos]);
    lemma_text_at_byte(s, end, LENGTH_END);
    lemma_text_at_concat(s, pos, decimal(m), seq![LENGTH_END]);
    assert(text_at(s, end + 1, b));
    lemma_text_at_concat(s, pos, decimal(m) + seq![LENGTH_END], b);
}

/// A byte string whose encoding stands at `pos` is what `bytes_at` finds.
pub proof fn lemma_bytes_at_complete(s: Seq<u8>, pos: int, b: Seq<u8>)
    requires
        s.len() <= usize::MAX,
        text_at(s, pos, encode_bytes(b)),
    ensures
        bytes_at(s, pos) == Some((b, pos + encode_bytes(b).len())),
{
    let m = b.len();
    lemma_text_at_concat(s, pos, decimal(m) + seq![LENGTH_END], b);
    lemma_text_at_concat(s, pos, decimal(m), seq![LENGTH_END]);
    lemma_text_at_byte(s, pos + decimal(m).len(), LENGTH_END);
    lemma_number_at_decimal(s, pos, m);
}

/// Reads the integer written at `pos`.
pub fn parse_integer(bytes: &[u8], pos: usize) -> (r: Option<(i64, usize)>)
    ensures
        match r {
            Some((n, end)) => integer_at(bytes@, pos as int) == Some((n as int, end as int)),
            None => integer_at(bytes@, pos as int).is_none(),
        },
{
    if pos >= bytes.len() || bytes.len() - pos < 2 || bytes[pos] != INTEGER_START {
        return None;
    }
    let negative: bool = bytes[pos + 1] == MINUS;
    let digits: usize = if negative { pos + 2 } else { pos + 1 };
    match parse_number(bytes, digits) {
        None => None,
        Some((m, end)) => {
            proof {
                lemma_number_at_text(bytes@, digits as int);
            }
            if end >= bytes.len() || bytes[end] != END {
                return None;
            }
            if negative {
                if m == 0 || m > MAX_NEGATIVE {
                    None
                } else if m == MAX_NEGATIVE {
                    Some((i64::MIN, end + 1))
                } else {
                    Some((-(m as i64), end + 1))
                }
            } else {
                if m > i64::MAX as u64 {
                    None
                } else {
                    Some((m as i64, end + 1))
                }
            }
        },
    }
}

/// Reads the byte string written at `pos`; the result gives where its bytes
/// begin and where they end.
pub fn parse_bytes(bytes: &[u8], pos: usize) -> (r: Option<(usize, usize)>)
    ensures
        match r {
            Some((from, end)) => {
                &&& from <= end <= bytes.len()
                &&& bytes_at(bytes@, pos as int) == Some(
                    (bytes@.subrange(from as int, end as int), end as int),
                )
            },
            None => bytes_at(bytes@, pos as int).is_none(),
        },
{
    match parse_number(bytes, pos) {
        None => None,
        Some((m, end)) => {
            proof {
                lemma_number_at_text(bytes@, pos as int);
            }
            if end >= bytes.len() || bytes[end] != LENGTH_END {
                return None;
            }
            let rest: usize = bytes.len() - end - 1;
            if m > rest as u64 {
                return None;
            }
            let from: usize = end + 1;
            Some((from, from + m as usize))
        },
    }
}

} // verus!
