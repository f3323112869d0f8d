//! The wire format as mathematics: what a structural value is, and the bytes
//! that stand for it.

use vstd::prelude::*;
use crate::decimal::{decimal, is_digit, lemma_decimal_canonical};

verus! {

/// `i`, which opens an integer.
pub const INTEGER_START: u8 = 105;

/// `l`, which opens a list.
pub const LIST_START: u8 = 108;

/// `d`, which opens a dictionary.
pub const DICTIONARY_START: u8 = 100;

/// `e`, which closes an integer, a list or a dictionary.
pub const END: u8 = 101;

/// `:`, which parts a byte string's length from its bytes.
pub const LENGTH_END: u8 = 58;

/// `-`, the sign of a negative integer.
pub const MINUS: u8 = 45;

/// A structural value of the wire format.
///
/// A dictionary keeps its entries in the order in which they were written.
pub enum Value {
    Integer(int),
    ByteString(Seq<u8>),
    List(Seq<Value>),
    Dictionary(Seq<(Seq<u8>, Value)>),
}

/// The digits of `n`, after a `-` where `n` is negative.
pub open spec fn signed_decimal(n: int) -> Seq<u8> {
    if n < 0 {
        seq![MINUS] + decimal((-n) as nat)
    } else {
        decimal(n as nat)
    }
}

/// A byte string on the wire: its length, a colon, its bytes.
pub open spec fn encode_bytes(b: Seq<u8>) -> Seq<u8> {
    decimal(b.len()) + seq![LENGTH_END] + b
}

/// The bytes that stand for `v`.
pub open spec fn encode(v: Value) -> Seq<u8>
    decreases v,
{
    match v {
        Value::Integer(n) => seq![INTEGER_START] + signed_decimal(n) + seq![END],
        Value::ByteString(b) => encode_bytes(b),
        Value::List(items) => seq![LIST_START] + encode_items(items) + seq![END],
        Value::Dictionary(entries) => seq![DICTIONARY_START] + encode_entries(entries) + seq![END],
    }
}

/// The encodings of `items`, one after the other.
pub open spec fn encode_items(items: Seq<Value>) -> Seq<u8>
    decreases items,
{
    if items.len() == 0 {
        Seq::empty()
    } else {
        encode_items(items.drop_last()) + encode(items.last())
    }
}

/// One dictionary entry on the wire: the key as a byte string, then the value.
pub open spec fn encode_entry(entry: (Seq<u8>, Value)) -> Seq<u8>
    decreases entry,
{
    encode_bytes(entry.0) + encode(entry.1)
}

/// The encodings of `entries`, one after the other.
pub open spec fn encode_entries(entries: Seq<(Seq<u8>, Value)>) -> Seq<u8>
    decreases entries,
{
    if entries.len() == 0 {
        Seq::empty()
    } else {
        encode_entries(entries.drop_last()) + encode_entry(entries.last())
    }
}

/// No key occurs twice among `entries`.
pub open spec fn distinct_keys(entries: Seq<(Seq<u8>, Value)>) -> bool {
    forall|i: int, j: int|
        0 <= i < j < entries.len() ==> (#[trigger] entries[i]).0 != (#[trigger] entries[j]).0
}

/// `v` is well formed and nests at most `budget` levels deep: its integers
/// fit in 64 bits, no dictionary holds a key twice, and a scalar counts as
/// one level.
pub open spec fn valid(v: Value, budget: nat) -> bool
    decreases v,
{
    &&& budget > 0
    &&& match v {
        Value::Integer(n) => i64::MIN <= n <= i64::MAX,
        Value::ByteString(_) => true,
        Value::List(items) => forall|i: int|
            0 <= i < items.len() ==> valid(#[trigger] items[i], (budget - 1) as nat),
        Value::Dictionary(entries) => {
            &&& distinct_keys(entries)
            &&& forall|i: int|
                0 <= i < entries.len() ==> valid((#[trigger] entries[i]).1, (budget - 1) as nat)
        },
    }
}

/// The text `t` stands in `s` from `pos` on.
pub open spec fn text_at(s: Seq<u8>, pos: int, t: Seq<u8>) -> bool {
    &&& 0 <= pos
    &&& pos + t.len() <= s.len()
    &&& s.subrange(pos, pos + t.len()) == t
}

/// The encoding of `v` stands in `s` from `pos` on.
pub open spec fn encodes_at(s: Seq<u8>, pos: int, v: Value) -> bool {
    text_at(s, pos, encode(v))
}

/// A text made of two parts stands at `pos` exactly when the first part
/// stands there and the second right after it.
pub proof fn lemma_text_at_concat(s: Seq<u8>, pos: int, a: Seq<u8>, b: Seq<u8>)
    ensures
        text_at(s, pos, a + b) <==> text_at(s, pos, a) && text_at(s, pos + a.len(), b),
{
    if text_at(s, pos, a + b) {
        assert(s.subrange(pos, pos + a.len()) =~= (a + b).subrange(0, a.len() as int));
        assert((a + b).subrange(0, a.len() as int) =~= a);
        assert(s.subrange(pos + a.len(), pos + a.len() + b.len()) =~= (a + b).subrange(
            a.len() as int,
            (a + b).len() as int,
        ));
        assert((a + b).subrange(a.len() as int, (a + b).len() as int) =~= b);
    }
    if text_at(s, pos, a) && text_at(s, pos + a.len(), b) {
        assert forall|i: int| 0 <= i < (a + b).len() implies s.subrange(
            pos,
            pos + (a + b).len(),
        )[i] == (a + b)[i] by {
            if i < a.len() {
                assert(s.subrange(pos, pos + a.len())[i] == a[i]);
            } else {
                assert(s.subrange(pos + a.len(), pos + a.len() + b.len())[i - a.len()] == b[i
                    - a.len()]);
            }
        }
        assert(s.subrange(pos, pos + (a + b).len()) =~= a + b);
    }
}

/// A single byte stands at `pos` exactly when `s` holds it there.
pub proof fn lemma_text_at_byte(s: Seq<u8>, pos: int, b: u8)
    ensures
        text_at(s, pos, seq![b]) <==> 0 <= pos < s.len() && s[pos] == b,
{
    if text_at(s, pos, seq![b]) {
        assert(s.subrange(pos, pos + 1)[0] == seq![b][0]);
    }
    if 0 <= pos < s.len() && s[pos] == b {
        assert(s.subrange(pos, pos + 1) =~= seq![b]);
    }
}

/// Appending one item appends its encoding.
pub proof fn lemma_encode_items_push(items: Seq<Value>, v: Value)
    ensures
        encode_items(items.push(v)) == encode_items(items) + encode(v),
{
    assert(items.push(v).drop_last() =~= items);
}

/// Appending one entry appends its encoding.
pub proof fn lemma_encode_entries_push(entries: Seq<(Seq<u8>, Value)>, entry: (Seq<u8>, Value))
    ensures
        encode_entries(entries.push(entry)) == encode_entries(entries) + encode_entry(entry),
{
    assert(entries.push(entry).drop_last() =~= entries);
}

/// The encoding of a run of items is that of its first item followed by that
/// of the rest.
pub proof fn lemma_encode_items_first(items: Seq<Value>)
    requires
        items.len() > 0,
    ensures
        encode_items(items) == encode(items[0]) + encode_items(items.drop_first()),
    decreases items.len(),
{
    if items.len() == 1 {
        assert(items.drop_last() =~= Seq::<Value>::empty());
        assert(items.drop_first() =~= Seq::<Value>::empty());
        assert(encode_items(items) =~= encode(items[0]) + encode_items(items.drop_first()));
    } else {
        let front = items.drop_last();
        lemma_encode_items_first(front);
        assert(front.drop_first() =~= items.drop_first().drop_last());
        assert(items.drop_first().last() == items.last());
        assert(front[0] == items[0]);
        assert(encode_items(items) =~= encode(items[0]) + encode_items(items.drop_first()));
    }
}

/// The encoding of a run of entries is that of its first entry followed by
/// that of the rest.
pub proof fn lemma_encode_entries_first(entries: Seq<(Seq<u8>, Value)>)
    requires
        entries.len() > 0,
    ensures
        encode_entries(entries) == encode_entry(entries[0]) + encode_entries(
            entries.drop_first(),
        ),
    decreases entries.len(),
{
    if entries.len() == 1 {
        assert(entries.drop_last() =~= Seq::<(Seq<u8>, Value)>::empty());
        assert(entries.drop_first() =~= Seq::<(Seq<u8>, Value)>::empty());
        assert(encode_entries(entries) =~= encode_entry(entries[0]) + encode_entries(
            entries.drop_first(),
        ));
    } else {
        let front = entries.drop_last();
        lemma_encode_entries_first(front);
        assert(front.drop_first() =~= entries.drop_first().drop_last());
        assert(entries.drop_first().last() == entries.last());
        assert(front[0] == entries[0]);
        assert(encode_entries(entries) =~= encode_entry(entries[0]) + encode_entries(
            entries.drop_first(),
        ));
    }
}

/// A byte that can open an encoded value: `i`, `l`, `d` or a digit.
pub open spec fn opens_value(b: u8) -> bool {
    b == INTEGER_START || b == LIST_START || b == DICTIONARY_START || is_digit(b)
}

/// An encoding has at least two bytes, and its first byte tells the variant.
pub proof fn lemma_first_byte(v: Value)
    ensures
        encode(v).len() >= 2,
        opens_value(encode(v)[0]),
        encode(v)[0] == INTEGER_START <==> v is Integer,
        encode(v)[0] == LIST_START <==> v is List,
        encode(v)[0] == DICTIONARY_START <==> v is Dictionary,
        is_digit(encode(v)[0]) <==> v is ByteString,
{
    match v {
        Value::Integer(n) => {},
        Value::ByteString(b) => {
            lemma_decimal_canonical(b.len());
            assert(encode(v)[0] == decimal(b.len())[0]);
        },
        Value::List(items) => {},
        Value::Dictionary(entries) => {},
    }
}

/// A key on the wire has at least two bytes and opens with a digit.
pub proof fn lemma_first_byte_of_bytes(b: Seq<u8>)
    ensures
        encode_bytes(b).len() >= 2,
        is_digit(encode_bytes(b)[0]),
        encode_bytes(b) == encode(Value::ByteString(b)),
{
    lemma_first_byte(Value::ByteString(b));
}

} // verus!
