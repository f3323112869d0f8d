//! Why a decoder that cannot go on is right to give up: where it stops, no
//! valid value has its encoding.

use vstd::prelude::*;
use crate::decimal::is_digit;
use crate::encoding::{
    distinct_keys, encode, encode_bytes, encode_entries, encode_items, encodes_at,
    lemma_first_byte, lemma_text_at_byte, lemma_text_at_concat, opens_value, text_at, valid,
    Value, DICTIONARY_START, END, INTEGER_START, LIST_START,
};
use crate::scalar::{
    bytes_at, integer_at, lemma_bytes_at_complete, lemma_integer_at_complete,
};
use crate::unique::{
    all_valid, all_values_valid, lemma_entries_common, lemma_entries_end, lemma_entry_position,
    lemma_item_position, lemma_items_common, lemma_items_end,
};

verus! {

/// No value that is valid within `budget` levels has its encoding at `pos`.
pub open spec fn no_value_at(s: Seq<u8>, pos: int, budget: nat) -> bool {
    forall|v: Value| valid(v, budget) ==> !#[trigger] encodes_at(s, pos, v)
}

/// The first byte of an encoding that stands at `pos` is the byte at `pos`.
pub proof fn lemma_opening(s: Seq<u8>, pos: int, v: Value)
    requires
        encodes_at(s, pos, v),
    ensures
        0 <= pos,
        pos + 2 <= s.len(),
        s[pos] == encode(v)[0],
{
    lemma_first_byte(v);
    assert(s.subrange(pos, pos + encode(v).len())[0] == s[pos]);
}

/// Nothing can be decoded with no level left, past the end of the buffer,
/// or from a byte that opens no value.
pub proof fn lemma_no_opening(s: Seq<u8>, pos: int, budget: nat)
    requires
        budget == 0 || pos < 0 || pos >= s.len() || !opens_value(s[pos]),
    ensures
        no_value_at(s, pos, budget),
{
    assert forall|v: Value| valid(v, budget) implies !#[trigger] encodes_at(s, pos, v) by {
        if encodes_at(s, pos, v) {
            lemma_opening(s, pos, v);
            lemma_first_byte(v);
        }
    }
}

/// Where `i` opens no integer of 64 bits, no value stands.
pub proof fn lemma_no_integer(s: Seq<u8>, pos: int, budget: nat)
    requires
        0 <= pos < s.len(),
        s[pos] == INTEGER_START,
        integer_at(s, pos).is_none(),
    ensures
        no_value_at(s, pos, budget),
{
    assert forall|v: Value| valid(v, budget) implies !#[trigger] encodes_at(s, pos, v) by {
        if encodes_at(s, pos, v) {
            lemma_opening(s, pos, v);
            lemma_first_byte(v);
            lemma_integer_at_complete(s, pos, v->Integer_0);
        }
    }
}

/// Where a digit opens no byte string that fits, no value stands.
pub proof fn lemma_no_bytes(s: Seq<u8>, pos: int, budget: nat)
    requires
        s.len() <= usize::MAX,
        0 <= pos < s.len(),
        is_digit(s[pos]),
        bytes_at(s, pos).is_none(),
    ensures
        no_value_at(s, pos, budget),
{
    assert forall|v: Value| valid(v, budget) implies !#[trigger] encodes_at(s, pos, v) by {
        if encodes_at(s, pos, v) {
            lemma_opening(s, pos, v);
            lemma_first_byte(v);
            lemma_bytes_at_complete(s, pos, v->ByteString_0);
        }
    }
}

/// A list whose items have been read up to some place, where neither the
/// closing `e` nor a further item stands, is no list at all.
pub proof fn lemma_list_stuck(s: Seq<u8>, pos: int, read: Seq<Value>, budget: nat)
    requires
        s.len() <= usize::MAX,
        0 <= pos < s.len(),
        s[pos] == LIST_START,
        budget > 0,
        all_valid(read, (budget - 1) as nat),
        text_at(s, pos + 1, encode_items(read)),
        ({
            let cur = pos + 1 + encode_items(read).len();
            cur >= s.len() || (s[cur] != END && no_value_at(s, cur, (budget - 1) as nat))
        }),
    ensures
        no_value_at(s, pos, budget),
{
    let cur = pos + 1 + encode_items(read).len();
    let inner = (budget - 1) as nat;
    assert forall|v: Value| valid(v, budget) implies !#[trigger] encodes_at(s, pos, v) by {
        if encodes_at(s, pos, v) {
            lemma_opening(s, pos, v);
            lemma_first_byte(v);
            let items = v->List_0;
            let t = encode_items(items);
            lemma_text_at_concat(s, pos, seq![LIST_START] + t, seq![END]);
            lemma_text_at_concat(s, pos, seq![LIST_START], t);
            lemma_text_at_byte(s, pos + 1 + t.len(), END);
            assert(all_valid(items, inner));
            lemma_items_common(s, pos + 1, read, inner, items, inner);
            if items.len() < read.len() {
                lemma_items_end(s, pos + 1, items, read);
            } else if items.len() == read.len() {
                assert(items.take(items.len() as int) =~= items);
            } else {
                lemma_item_position(s, pos + 1, items, read.len() as int);
                let next = items[read.len() as int];
                lemma_opening(s, cur, next);
                assert(valid(next, inner));
                assert(encodes_at(s, cur, next));
            }
        }
    }
}

/// A key of `read` equals `key`.
pub open spec fn has_key(read: Seq<(Seq<u8>, Value)>, key: Seq<u8>) -> bool {
    exists|j: int| 0 <= j < read.len() && (#[trigger] read[j]).0 == key
}

/// A dictionary whose entries have been read up to some place, where
/// neither the closing `e` nor a further entry with a fresh key stands, is
/// no dictionary at all.
pub proof fn lemma_dictionary_stuck(
    s: Seq<u8>,
    pos: int,
    read: Seq<(Seq<u8>, Value)>,
    budget: nat,
)
    requires
        s.len() <= usize::MAX,
        0 <= pos < s.len(),
        s[pos] == DICTIONARY_START,
        budget > 0,
        all_values_valid(read, (budget - 1) as nat),
        text_at(s, pos + 1, encode_entries(read)),
        ({
            let cur = pos + 1 + encode_entries(read).len();
            cur >= s.len() || (s[cur] != END && match bytes_at(s, cur) {
                None => true,
                Some((key, after)) => has_key(read, key) || no_value_at(
                    s,
                    after,
                    (budget - 1) as nat,
                ),
            })
        }),
    ensures
        no_value_at(s, pos, budget),
{
    let cur = pos + 1 + encode_entries(read).len();
    let inner = (budget - 1) as nat;
    assert forall|v: Value| valid(v, budget) implies !#[trigger] encodes_at(s, pos, v) by {
        if encodes_at(s, pos, v) {
            lemma_opening(s, pos, v);
            lemma_first_byte(v);
            let entries = v->Dictionary_0;
            let t = encode_entries(entries);
            lemma_text_at_concat(s, pos, seq![DICTIONARY_START] + t, seq![END]);
            lemma_text_at_concat(s, pos, seq![DICTIONARY_START], t);
            lemma_text_at_byte(s, pos + 1 + t.len(), END);
            assert(all_values_valid(entries, inner));
            lemma_entries_common(s, pos + 1, read, inner, entries, inner);
            if entries.len() < read.len() {
                lemma_entries_end(s, pos + 1, entries, read);
            } else if entries.len() == read.len() {
                assert(entries.take(entries.len() as int) =~= entries);
            } else {
                let k = read.len() as int;
                lemma_entry_position(s, pos + 1, entries, k);
                let next = entries[k];
                lemma_text_at_concat(s, cur, encode_bytes(next.0), encode(next.1));
                lemma_bytes_at_complete(s, cur, next.0);
                let after = cur + encode_bytes(next.0).len();
                assert(bytes_at(s, cur) == Some((next.0, after)));
                if has_key(read, next.0) {
                    let j = choose|j: int| 0 <= j < read.len() && (#[trigger] read[j]).0 == next.0;
                    assert(entries.take(k)[j] == entries[j]);
                    assert(distinct_keys(entries));
                    assert(entries[j].0 != entries[k].0);
                } else {
                    assert(valid(next.1, inner));
                    assert(encodes_at(s, after, next.1));
                }
            }
        }
    }
}

} // verus!
