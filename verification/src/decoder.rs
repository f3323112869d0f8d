//! The structural decoder: from a byte buffer to a tree of values.

use vstd::prelude::*;
use vstd::slice::{slice_subrange, slice_to_vec};
use crate::encoding::{
    distinct_keys, encode, encode_bytes, encode_entries, encode_entry, encode_items, encodes_at,
    lemma_encode_entries_push, lemma_encode_items_push, lemma_first_byte,
    lemma_text_at_byte, lemma_text_at_concat, text_at, valid, Value, DICTIONARY_START, END,
    INTEGER_START, LIST_START,
};
use crate::error::{malformed, DecodingError, ErrorKind};
use crate::scalar::{lemma_bytes_at_sound, lemma_integer_at_sound, parse_bytes, parse_integer};
use crate::stuck::{
    has_key, lemma_dictionary_stuck, lemma_list_stuck, lemma_no_bytes, lemma_no_integer,
    lemma_no_opening, no_value_at,
};
use crate::unique::{all_valid, all_values_valid, lemma_unique};
use crate::value::{bytes_equal, entry_views, node_views, Entry, Node, StructuralValue};

verus! {

/// How many levels a value may nest; a scalar counts as one level.
pub const MAX_DEPTH: usize = 50;

/// What a decoder owes for the place `pos`: a node that is anchored there
/// and valid within `budget` levels, or nothing where no such value stands.
pub open spec fn decoded(s: Seq<u8>, pos: int, budget: nat, r: Option<Node>) -> bool {
    match r {
        Some(node) => {
            &&& node.start == pos
            &&& node.anchored(s)
            &&& valid(node@, budget)
        },
        None => no_value_at(s, pos, budget),
    }
}

/// The value encoded at `pos` and the place right after it, if a value that
/// is valid within `MAX_DEPTH` levels stands there.
pub open spec fn decoding_at(s: Seq<u8>, pos: int) -> Option<(Value, int)> {
    if exists|v: Value| valid(v, MAX_DEPTH as nat) && #[trigger] encodes_at(s, pos, v) {
        let v = choose|v: Value| valid(v, MAX_DEPTH as nat) && #[trigger] encodes_at(s, pos, v);
        Some((v, pos + encode(v).len()))
    } else {
        None
    }
}

/// The value that `s` encodes from its first byte to its last, if any.
pub open spec fn decoding(s: Seq<u8>) -> Option<Value> {
    match decoding_at(s, 0) {
        Some((v, end)) => if end == s.len() {
            Some(v)
        } else {
            None
        },
        None => None,
    }
}

/// Whether one of `entries` has the key `key`.
fn contains_key(entries: &Vec<Entry>, key: &[u8]) -> (r: bool)
    ensures
        r == has_key(entry_views(entries@), key@),
{
    let mut i: usize = 0;
    while i < entries.len()
        invariant
            i <= entries.len(),
            forall|j: int| 0 <= j < i ==> entries[j].key@ != key@,
        decreases entries.len() - i,
    {
        if bytes_equal(entries[i].key.as_slice(), key) {
            proof {
                assert(entry_views(entries@)[i as int].0 == key@);
            }
            return true;
        }
        i = i + 1;
    }
    proof {
        assert forall|j: int| 0 <= j < entry_views(entries@).len() implies (
        #[trigger] entry_views(entries@)[j]).0 != key@ by {
            assert(entries[j].key@ != key@);
        }
    }
    false
}

/// Decodes the value that begins at `pos`, nesting at most `budget` levels.
fn decode_value(bytes: &[u8], pos: usize, budget: usize) -> (r: Option<Node>)
    ensures
        decoded(bytes@, pos as int, budget as nat, r),
    decreases budget, 1nat,
{
    let ghost s = bytes@;
    if budget == 0 || pos >= bytes.len() {
        proof {
            lemma_no_opening(s, pos as int, budget as nat);
        }
        return None;
    }
    let first: u8 = bytes[pos];
    if first == INTEGER_START {
        match parse_integer(bytes, pos) {
            Some((n, end)) => {
                proof {
                    lemma_integer_at_sound(s, pos as int);
                }
                Some(Node { start: pos, end, value: StructuralValue::Integer(n) })
            },
            None => {
                proof {
                    lemma_no_integer(s, pos as int, budget as nat);
                }
                None
            },
        }
    } else if first == LIST_START {
        decode_list(bytes, pos, budget)
    } else if first == DICTIONARY_START {
        decode_dictionary(bytes, pos, budget)
    } else if 48 <= first && first <= 57 {
        match parse_bytes(bytes, pos) {
            Some((from, end)) => {
                let content = slice_to_vec(slice_subrange(bytes, from, end));
                proof {
                    lemma_bytes_at_sound(s, pos as int);
                }
                Some(Node { start: pos, end, value: StructuralValue::ByteString(content) })
            },
            None => {
                proof {
                    lemma_no_bytes(s, pos as int, budget as nat);
                }
                None
            },
        }
    } else {
        proof {
            lemma_no_opening(s, pos as int, budget as nat);
        }
        None
    }
}

/// Decodes the list that begins at `pos`.
fn decode_list(bytes: &[u8], pos: usize, budget: usize) -> (r: Option<Node>)
    requires
        pos < bytes.len(),
        bytes[pos as int] == LIST_START,
        budget > 0,
    ensures
        decoded(bytes@, pos as int, budget as nat, r),
    decreases budget, 0nat,
{
    let ghost s = bytes@;
    let ghost inner = (budget - 1) as nat;
    let mut items: Vec<Node> = Vec::new();
    let mut cur: usize = pos + 1;
    proof {
        assert(s.subrange(pos + 1, pos + 1) =~= encode_items(node_views(items@)));
    }
    loop
        invariant
            s == bytes@,
            pos < bytes.len(),
            s[pos as int] == LIST_START,
            budget > 0,
            inner == budget - 1,
            pos + 1 <= cur <= bytes.len(),
            text_at(s, pos + 1, encode_items(node_views(items@))),
            cur == pos + 1 + encode_items(node_views(items@)).len(),
            all_valid(node_views(items@), inner),
            forall|i: int| 0 <= i < items.len() ==> (#[trigger] items[i]).anchored(s),
        decreases bytes.len() - cur,
    {
        if cur >= bytes.len() {
            proof {
                lemma_list_stuck(s, pos as int, node_views(items@), budget as nat);
            }
            return None;
        }
        if bytes[cur] == END {
            let ghost read = node_views(items@);
            let node = Node { start: pos, end: cur + 1, value: StructuralValue::List(items) };
            proof {
                lemma_text_at_byte(s, pos as int, LIST_START);
                lemma_text_at_byte(s, cur as int, END);
                lemma_text_at_concat(s, pos as int, seq![LIST_START], encode_items(read));
                lemma_text_at_concat(
                    s,
                    pos as int,
                    seq![LIST_START] + encode_items(read),
                    seq![END],
                );
                assert(node@ == Value::List(read));
            }
            return Some(node);
        }
        match decode_value(bytes, cur, budget - 1) {
            None => {
                proof {
                    lemma_list_stuck(s, pos as int, node_views(items@), budget as nat);
                }
                return None;
            },
            Some(item) => {
                let ghost before = node_views(items@);
                proof {
                    lemma_first_byte(item@);
                    lemma_encode_items_push(before, item@);
                    lemma_text_at_concat(s, pos + 1, encode_items(before), encode(item@));
                }
                cur = item.end;
                items.push(item);
                proof {
                    assert(node_views(items@) =~= before.push(item@));
                }
            },
        }
    }
}

/// Decodes the dictionary that begins at `pos`.
fn decode_dictionary(bytes: &[u8], pos: usize, budget: usize) -> (r: Option<Node>)
    requires
        pos < bytes.len(),
        bytes[pos as int] == DICTIONARY_START,
        budget > 0,
    ensures
        decoded(bytes@, pos as int, budget as nat, r),
    decreases budget, 0nat,
{
    let ghost s = bytes@;
    let ghost inner = (budget - 1) as nat;
    let mut entries: Vec<Entry> = Vec::new();
    let mut cur: usize = pos + 1;
    proof {
        assert(s.subrange(pos + 1, pos + 1) =~= encode_entries(entry_views(entries@)));
    }
    loop
        invariant
            s == bytes@,
            pos < bytes.len(),
            s[pos as int] == DICTIONARY_START,
            budget > 0,
            inner == budget - 1,
            pos + 1 <= cur <= bytes.len(),
            text_at(s, pos + 1, encode_entries(entry_views(entries@))),
            cur == pos + 1 + encode_entries(entry_views(entries@)).len(),
            all_values_valid(entry_views(entries@), inner),
            distinct_keys(entry_views(entries@)),
            forall|i: int| 0 <= i < entries.len() ==> (#[trigger] entries[i]).node.anchored(s),
        decreases bytes.len() - cur,
    {
        let ghost read = entry_views(entries@);
        if cur >= bytes.len() {
            proof {
                lemma_dictionary_stuck(s, pos as int, read, budget as nat);
            }
            return None;
        }
        if bytes[cur] == END {
            let node = Node {
                start: pos,
                end: cur + 1,
                value: StructuralValue::Dictionary(entries),
            };
            proof {
                lemma_text_at_byte(s, pos as int, DICTIONARY_START);
                lemma_text_at_byte(s, cur as int, END);
                lemma_text_at_concat(s, pos as int, seq![DICTIONARY_START], encode_entries(read));
                lemma_text_at_concat(
                    s,
                    pos as int,
                    seq![DICTIONARY_START] + encode_entries(read),
                    seq![END],
                );
                assert(node@ == Value::Dictionary(read));
            }
            return Some(node);
        }
        let (from, after) = match parse_bytes(bytes, cur) {
            None => {
                proof {
                    lemma_dictionary_stuck(s, pos as int, read, budget as nat);
                }
                return None;
            },
            Some(range) => range,
        };
        let key = slice_to_vec(slice_subrange(bytes, from, after));
        if contains_key(&entries, key.as_slice()) {
            proof {
                lemma_dictionary_stuck(s, pos as int, read, budget as nat);
            }
            return None;
        }
        match decode_value(bytes, after, budget - 1) {
            None => {
                proof {
                    lemma_dictionary_stuck(s, pos as int, read, budget as nat);
                }
                return None;
            },
            Some(node) => {
                let ghost entry = (key@, node@);
                proof {
                    lemma_bytes_at_sound(s, cur as int);
                    lemma_first_byte(node@);
                    lemma_text_at_concat(s, cur as int, encode_bytes(key@), encode(node@));
                    lemma_encode_entries_push(read, entry);
                    lemma_text_at_concat(s, pos + 1, encode_entries(read), encode_entry(entry));
                }
                cur = node.end;
                entries.push(Entry { key, node });
                proof {
                    assert(entry_views(entries@) =~= read.push(entry));
                    assert forall|i: int, j: int|
                        0 <= i < j < read.push(entry).len() implies (#[trigger] read.push(
                        entry,
                    )[i]).0 != (#[trigger] read.push(entry)[j]).0 by {
                        if j == read.len() {
                            assert(read[i].0 != key@);
                        } else {
                            assert(read[i].0 != read[j].0);
                        }
                    }
                }
            },
        }
    }
}

/// Encoding and then decoding gives the value back: a value that is valid
/// within `MAX_DEPTH` levels, and whose encoding fits in a buffer, is what
/// its own encoding decodes to.
pub proof fn lemma_round_trip(v: Value)
    requires
        valid(v, MAX_DEPTH as nat),
        encode(v).len() <= usize::MAX,
    ensures
        decoding(encode(v)) == Some(v),
{
    assert(encode(v).subrange(0, encode(v).len() as int) =~= encode(v));
    lemma_round_trip_at(encode(v), 0, v);
}

/// Where the encoding of a valid value stands in a buffer, that value and
/// the place right after its encoding are what the buffer decodes to there.
pub proof fn lemma_round_trip_at(s: Seq<u8>, pos: int, v: Value)
    requires
        valid(v, MAX_DEPTH as nat),
        s.len() <= usize::MAX,
        0 <= pos,
        pos + encode(v).len() <= s.len(),
        s.subrange(pos, pos + encode(v).len()) == encode(v),
    ensures
        decoding_at(s, pos) == Some((v, pos + encode(v).len())),
{
    assert(encodes_at(s, pos, v));
    let w = choose|w: Value| valid(w, MAX_DEPTH as nat) && #[trigger] encodes_at(s, pos, w);
    lemma_unique(s, pos, w, MAX_DEPTH as nat, v, MAX_DEPTH as nat);
}

/// An encoding that is cut short is no encoding: what is left of the
/// encoding of a valid value after its end was taken away decodes to nothing.
pub proof fn lemma_truncated(v: Value, k: int)
    requires
        valid(v, MAX_DEPTH as nat),
        encode(v).len() <= usize::MAX,
        0 <= k < encode(v).len(),
    ensures
        decoding(encode(v).take(k)).is_none(),
{
    let s = encode(v);
    let cut = s.take(k);
    if decoding(cut).is_some() {
        let w = decoding(cut).unwrap();
        let chosen = choose|w: Value|
            valid(w, MAX_DEPTH as nat) && #[trigger] encodes_at(cut, 0, w);
        assert(w == chosen);
        assert(encode(w).len() == k);
        assert(s.subrange(0, k) =~= cut.subrange(0, k));
        assert(encodes_at(s, 0, w));
        assert(s.subrange(0, s.len() as int) =~= s);
        lemma_unique(s, 0, w, MAX_DEPTH as nat, v, MAX_DEPTH as nat);
    }
}

/// An encoding with bytes after it decodes, from its beginning, to the
/// value and the place where those bytes begin; as a whole buffer it
/// decodes to nothing.
pub proof fn lemma_trailing(v: Value, rest: Seq<u8>)
    requires
        valid(v, MAX_DEPTH as nat),
        (encode(v) + rest).len() <= usize::MAX,
        rest.len() > 0,
    ensures
        decoding_at(encode(v) + rest, 0) == Some((v, encode(v).len() as int)),
        decoding(encode(v) + rest).is_none(),
{
    let s = encode(v) + rest;
    assert(s.subrange(0, encode(v).len() as int) =~= encode(v));
    lemma_round_trip_at(s, 0, v);
}

/// Decodes the value that begins at `start`, and says where its encoding ends.
///
/// Fails exactly where no value that nests at most `MAX_DEPTH` levels has
/// its encoding at `start`. Bytes after the value are left alone.
pub fn decode(bytes: &[u8], start: usize) -> (r: Result<(Node, usize), DecodingError>)
    ensures
        match r {
            Ok((node, end)) => {
                &&& decoding_at(bytes@, start as int) == Some((node@, end as int))
                &&& node.start == start
                &&& node.end == end
                &&& end <= bytes.len()
                &&& node.anchored(bytes@)
                &&& valid(node@, MAX_DEPTH as nat)
            },
            Err(e) => decoding_at(bytes@, start as int).is_none() && e == malformed(),
        },
{
    let total: usize = bytes.len();
    match decode_value(bytes, start, MAX_DEPTH) {
        Some(node) => {
            let end: usize = node.end;
            proof {
                assert(end <= total);
                lemma_round_trip_at(bytes@, start as int, node@);
            }
            Ok((node, end))
        },
        None => Err(DecodingError { kind: ErrorKind::MalformedEncoding }),
    }
}

/// Decodes a buffer that holds one value and nothing else.
///
/// Fails exactly where the buffer is no encoding of a value that nests at
/// most `MAX_DEPTH` levels: also where bytes follow the value.
pub fn bencode_from_bytes(bytes: &[u8]) -> (r: Result<Node, DecodingError>)
    ensures
        match r {
            Ok(node) => {
                &&& decoding(bytes@) == Some(node@)
                &&& encode(node@) == bytes@
                &&& node.start == 0
                &&& node.end == bytes.len()
                &&& node.anchored(bytes@)
                &&& valid(node@, MAX_DEPTH as nat)
            },
            Err(e) => decoding(bytes@).is_none() && e == malformed(),
        },
{
    match decode(bytes, 0) {
        Ok((node, end)) => {
            if end == bytes.len() {
                proof {
                    assert(bytes@.subrange(0, bytes@.len() as int) =~= bytes@);
                }
                Ok(node)
            } else {
                Err(DecodingError { kind: ErrorKind::MalformedEncoding })
            }
        },
        Err(e) => Err(e),
    }
}

} // verus!
