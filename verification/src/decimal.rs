//! Decimal text: the digits of a natural number as ASCII bytes.

use vstd::prelude::*;

verus! {

/// `b` is one of the ASCII digits `0` to `9`.
pub open spec fn is_digit(b: u8) -> bool {
    48 <= b <= 57
}

/// Every byte of `s` is an ASCII digit.
pub open spec fn all_digits(s: Seq<u8>) -> bool {
    forall|i: int| 0 <= i < s.len() ==> is_digit(#[trigger] s[i])
}

/// `s` is the shortest way to write a number: at least one digit, and no
/// leading zero unless the text is exactly `0`.
pub open spec fn canonical(s: Seq<u8>) -> bool {
    &&& s.len() >= 1
    &&& all_digits(s)
    &&& s.len() > 1 ==> s[0] != 48
}

/// The decimal digits of `n`, most significant first, without padding.
pub open spec fn decimal(n: nat) -> Seq<u8>
    decreases n,
{
    if n < 10 {
        seq![(48 + n) as u8]
    } else {
        decimal(n / 10).push((48 + n % 10) as u8)
    }
}

/// The number that a run of digits denotes, read most significant first.
pub open spec fn digits_value(s: Seq<u8>) -> nat
    decreases s.len(),
{
    if s.len() == 0 {
        0
    } else {
        digits_value(s.drop_last()) * 10 + (s.last() - 48) as nat
    }
}

/// The first index at or after `pos` that holds no digit.
pub open spec fn run_end(s: Seq<u8>, pos: int) -> int
    decreases s.len() - pos,
{
    if 0 <= pos < s.len() && is_digit(s[pos]) {
        run_end(s, pos + 1)
    } else {
        pos
    }
}

/// The number written at `pos`: the maximal run of digits there, if it is
/// canonical and its value fits in 64 bits.
pub open spec fn number_at(s: Seq<u8>, pos: int) -> Option<(nat, int)> {
    let end = run_end(s, pos);
    let token = s.subrange(pos, end);
    if 0 <= pos <= s.len() && canonical(token) && digits_value(token) <= u64::MAX {
        Some((digits_value(token), end))
    } else {
        None
    }
}

/// The digits of a number are canonical, and denote that number.
pub proof fn lemma_decimal_canonical(n: nat)
    ensures
        canonical(decimal(n)),
        digits_value(decimal(n)) == n,
        n >= 10 ==> decimal(n).len() >= 2,
        n >= 1 ==> decimal(n)[0] != 48,
    decreases n,
{
    if n < 10 {
        let s = decimal(n);
        assert(s.drop_last() =~= Seq::<u8>::empty());
        assert(digits_value(s.drop_last()) == 0);
    } else {
        lemma_decimal_canonical(n / 10);
        let t = decimal(n / 10);
        let s = decimal(n);
        assert(s == t.push((48 + n % 10) as u8));
        assert(s.drop_last() =~= t);
        assert(s[0] == t[0]);
        assert forall|i: int| 0 <= i < s.len() implies is_digit(#[trigger] s[i]) by {
            if i < t.len() {
                assert(s[i] == t[i]);
            }
        }
    }
}

/// Digits that begin with another digit than `0` denote at least one.
proof fn lemma_leading_digit_value(s: Seq<u8>)
    requires
        s.len() >= 1,
        all_digits(s),
        s[0] != 48,
    ensures
        digits_value(s) >= 1,
    decreases s.len(),
{
    if s.len() > 1 {
        let t = s.drop_last();
        assert(t[0] == s[0]);
        assert forall|i: int| 0 <= i < t.len() implies is_digit(#[trigger] t[i]) by {
            assert(t[i] == s[i]);
        }
        lemma_leading_digit_value(t);
    } else {
        assert(s.drop_last().len() == 0);
        assert(is_digit(s[0]));
    }
}

/// Canonical digits are the digits of the number that they denote.
pub proof fn lemma_canonical_decimal(s: Seq<u8>)
    requires
        canonical(s),
    ensures
        decimal(digits_value(s)) == s,
    decreases s.len(),
{
    let t = s.drop_last();
    assert(is_digit(s.last()));
    if s.len() == 1 {
        assert(t.len() == 0);
        assert(digits_value(t) == 0);
        assert(decimal(digits_value(s)) =~= s);
    } else {
        assert(t[0] == s[0]);
        assert forall|i: int| 0 <= i < t.len() implies is_digit(#[trigger] t[i]) by {
            assert(t[i] == s[i]);
        }
        lemma_leading_digit_value(t);
        lemma_canonical_decimal(t);
        let v = digits_value(s);
        let d = (s.last() - 48) as nat;
        assert(v == digits_value(t) * 10 + d);
        assert(v / 10 == digits_value(t));
        assert(v % 10 == d);
        assert(decimal(v) == decimal(v / 10).push((48 + v % 10) as u8));
        assert(t.push(s.last()) =~= s);
    }
}

/// The run of digits at `pos` ends where a stretch of digits meets a byte
/// that is no digit, or the end of the text.
pub proof fn lemma_run_end(s: Seq<u8>, pos: int, end: int)
    requires
        0 <= pos <= end <= s.len(),
        all_digits(s.subrange(pos, end)),
        end == s.len() || !is_digit(s[end]),
    ensures
        run_end(s, pos) == end,
    decreases end - pos,
{
    if pos < end {
        assert(s.subrange(pos, end)[0] == s[pos]);
        assert forall|i: int| 0 <= i < end - (pos + 1) implies is_digit(
            #[trigger] s.subrange(pos + 1, end)[i],
        ) by {
            assert(s.subrange(pos + 1, end)[i] == s.subrange(pos, end)[i + 1]);
        }
        lemma_run_end(s, pos + 1, end);
    }
}

/// A number written out at `pos` and followed by something that is no digit
/// is the number found there.
pub proof fn lemma_number_at_decimal(s: Seq<u8>, pos: int, n: nat)
    requires
        0 <= pos,
        pos + decimal(n).len() <= s.len(),
        s.subrange(pos, pos + decimal(n).len()) == decimal(n),
        pos + decimal(n).len() == s.len() || !is_digit(s[pos + decimal(n).len()]),
    ensures
        run_end(s, pos) == pos + decimal(n).len(),
        n <= u64::MAX ==> number_at(s, pos) == Some((n, pos + decimal(n).len())),
        n > u64::MAX ==> number_at(s, pos).is_none(),
{
    lemma_decimal_canonical(n);
    lemma_run_end(s, pos, pos + decimal(n).len());
}

/// The number found at `pos` is written there canonically.
pub proof fn lemma_number_at_text(s: Seq<u8>, pos: int)
    requires
        number_at(s, pos).is_some(),
    ensures
        ({
            let (n, end) = number_at(s, pos).unwrap();
            &&& pos < end <= s.len()
            &&& end == pos + decimal(n).len()
            &&& s.subrange(pos, end) == decimal(n)
            &&& end == s.len() || !is_digit(s[end])
        }),
{
    let end = run_end(s, pos);
    lemma_run_end_bounds(s, pos);
    lemma_canonical_decimal(s.subrange(pos, end));
}

/// The run of digits at `pos` lies inside the text, holds digits only, and
/// stops at a byte that is no digit.
pub proof fn lemma_run_end_bounds(s: Seq<u8>, pos: int)
    requires
        0 <= pos <= s.len(),
    ensures
        pos <= run_end(s, pos) <= s.len(),
        all_digits(s.subrange(pos, run_end(s, pos))),
        run_end(s, pos) == s.len() || !is_digit(s[run_end(s, pos)]),
    decreases s.len() - pos,
{
    if pos < s.len() && is_digit(s[pos]) {
        lemma_run_end_bounds(s, pos + 1);
        let end = run_end(s, pos);
        assert forall|i: int| 0 <= i < end - pos implies is_digit(
            #[trigger] s.subrange(pos, end)[i],
        ) by {
            if i > 0 {
                assert(s.subrange(pos, end)[i] == s.subrange(pos + 1, end)[i - 1]);
            }
        }
    }
}

/// A longer run of digits denotes at least as much as any of its prefixes.
pub proof fn lemma_value_prefix(s: Seq<u8>, k: int)
    requires
        0 <= k <= s.len(),
    ensures
        digits_value(s.take(k)) <= digits_value(s),
    decreases s.len(),
{
    if k < s.len() {
        let t = s.drop_last();
        lemma_value_prefix(t, k);
        assert(t.take(k) =~= s.take(k));
    } else {
        assert(s.take(k) =~= s);
    }
}

/// Reads the number written at `pos`.
pub fn parse_number(bytes: &[u8], pos: usize) -> (r: Option<(u64, usize)>)
    ensures
        match r {
            Some((n, end)) => number_at(bytes@, pos as int) == Some((n as nat, end as int)),
            None => number_at(bytes@, pos as int).is_none(),
        },
{
    let ghost s = bytes@;
    if pos > bytes.len() {
        return None;
    }
    let mut i: usize = pos;
    let mut acc: u64 = 0;
    proof {
        lemma_run_end_bounds(s, pos as int);
        assert(s.subrange(pos as int, pos as int).len() == 0);
    }
    while i < bytes.len() && 48 <= bytes[i] && bytes[i] <= 57
        invariant
            s == bytes@,
            pos <= i <= bytes.len(),
            i <= run_end(s, pos as int),
            run_end(s, pos as int) == run_end(s, i as int),
            acc == digits_value(s.subrange(pos as int, i as int)),
            i > pos + 1 ==> s[pos as int] != 48,
        decreases bytes.len() - i,
    {
        let d: u64 = (bytes[i] - 48) as u64;
        let ghost token = s.subrange(pos as int, run_end(s, pos as int));
        proof {
            lemma_run_end_bounds(s, i as int + 1);
            assert(s.subrange(pos as int, i + 1).drop_last() =~= s.subrange(pos as int, i as int));
            assert(token.take(i + 1 - pos) =~= s.subrange(pos as int, i + 1));
            lemma_value_prefix(token, i + 1 - pos);
            assert(token[0] == s[pos as int]);
        }
        if i == pos + 1 && bytes[pos] == 48 {
            return None;
        }
        if acc > (u64::MAX - d) / 10 {
            return None;
        }
        acc = acc * 10 + d;
        i = i + 1;
    }
    proof {
        lemma_run_end(s, i as int, i as int);
        lemma_run_end_bounds(s, pos as int);
    }
    if i == pos {
        return None;
    }
    Some((acc, i))
}

/// Appends the decimal digits of `n` to `out`.
pub fn push_decimal(out: &mut Vec<u8>, n: u64)
    ensures
        final(out)@ == old(out)@ + decimal(n as nat),
    decreases n,
{
    if n >= 10 {
        push_decimal(out, n / 10);
    }
    out.push(48 + (n % 10) as u8);
    proof {
        assert(final(out)@ =~= old(out)@ + decimal(n as nat));
    }
}

} // verus!
