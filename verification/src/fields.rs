//! Looking fields up in a dictionary, by key and by shape.

use vstd::prelude::*;
use vstd::utf8::{decode_utf8, valid_utf8};
use crate::encoding::Value;
use crate::error::{mismatch, missing, DecodingError, ErrorKind, Expected, Field};
use crate::text::text_of;
use crate::value::{bytes_equal, entry_views, Entry, Node, StructuralValue};

verus! {

/// The entry at `i` is the first of `entries` that has the key `key`.
pub open spec fn is_first(entries: Seq<(Seq<u8>, Value)>, key: Seq<u8>, i: int) -> bool {
    &&& 0 <= i < entries.len()
    &&& entries[i].0 == key
    &&& forall|j: int| 0 <= j < i ==> (#[trigger] entries[j]).0 != key
}

/// The index of the first of `entries` that has the key `key`.
pub open spec fn position(entries: Seq<(Seq<u8>, Value)>, key: Seq<u8>) -> Option<int> {
    if exists|i: int| is_first(entries, key, i) {
        Some(choose|i: int| is_first(entries, key, i))
    } else {
        None
    }
}

/// The value that `entries` hold under `key`.
pub open spec fn value_at(entries: Seq<(Seq<u8>, Value)>, key: Seq<u8>) -> Option<Value> {
    match position(entries, key) {
        Some(i) => Some(entries[i].1),
        None => None,
    }
}

/// The first entry with a key is the only first one.
pub proof fn lemma_position(entries: Seq<(Seq<u8>, Value)>, key: Seq<u8>, i: int)
    requires
        is_first(entries, key, i),
    ensures
        position(entries, key) == Some(i),
{
    let c = choose|c: int| is_first(entries, key, c);
    if c < i {
        assert(entries[c].0 != key);
    }
    if i < c {
        assert(entries[i].0 != key);
    }
}

/// The value of the field `field`, or the failure that reports it absent.
pub open spec fn field_value(field: Field, entries: Seq<(Seq<u8>, Value)>) -> Result<
    Value,
    DecodingError,
> {
    match value_at(entries, field.key()) {
        Some(v) => Ok(v),
        None => Err(missing(field)),
    }
}

/// The integer in the field `field`.
pub open spec fn integer_field(field: Field, entries: Seq<(Seq<u8>, Value)>) -> Result<
    int,
    DecodingError,
> {
    match field_value(field, entries) {
        Ok(Value::Integer(n)) => Ok(n),
        Ok(_) => Err(mismatch(field, Expected::Integer)),
        Err(e) => Err(e),
    }
}

/// The byte string in the field `field`.
pub open spec fn bytes_field(field: Field, entries: Seq<(Seq<u8>, Value)>) -> Result<
    Seq<u8>,
    DecodingError,
> {
    match field_value(field, entries) {
        Ok(Value::ByteString(b)) => Ok(b),
        Ok(_) => Err(mismatch(field, Expected::ByteString)),
        Err(e) => Err(e),
    }
}

/// The text in the field `field`: a byte string that holds valid UTF-8.
pub open spec fn text_field(field: Field, entries: Seq<(Seq<u8>, Value)>) -> Result<
    Seq<char>,
    DecodingError,
> {
    match field_value(field, entries) {
        Ok(Value::ByteString(b)) => if valid_utf8(b) {
            Ok(decode_utf8(b))
        } else {
            Err(mismatch(field, Expected::Text))
        },
        Ok(_) => Err(mismatch(field, Expected::Text)),
        Err(e) => Err(e),
    }
}

/// Finds the first entry of `dict` that has the key `key`.
pub fn find(dict: &Vec<Entry>, key: &[u8]) -> (r: Option<usize>)
    ensures
        match r {
            Some(i) => position(entry_views(dict@), key@) == Some(i as int) && i < dict.len(),
            None => position(entry_views(dict@), key@).is_none(),
        },
{
    let ghost entries = entry_views(dict@);
    let mut i: usize = 0;
    while i < dict.len()
        invariant
            i <= dict.len(),
            entries == entry_views(dict@),
            forall|j: int| 0 <= j < i ==> (#[trigger] entries[j]).0 != key@,
        decreases dict.len() - i,
    {
        if bytes_equal(dict[i].key.as_slice(), key) {
            proof {
                assert(entries[i as int].0 == dict[i as int].key@);
                lemma_position(entries, key@, i as int);
            }
            return Some(i);
        }
        proof {
            assert(entries[i as int].0 == dict[i as int].key@);
        }
        i = i + 1;
    }
    None
}

/// Looks up the field `field` in `dict`.
pub fn lookup<'a>(field: Field, dict: &'a Vec<Entry>) -> (r: Result<&'a Node, DecodingError>)
    ensures
        match r {
            Ok(node) => {
                &&& field_value(field, entry_views(dict@)) == Ok::<Value, DecodingError>(node@)
                &&& exists|i: int| 0 <= i < dict.len() && dict[i].node == *node
            },
            Err(e) => field_value(field, entry_views(dict@)) == Err::<Value, DecodingError>(e),
        },
{
    match find(dict, field.key_bytes()) {
        Some(i) => {
            proof {
                assert(entry_views(dict@)[i as int].1 == dict[i as int].node@);
            }
            Ok(&dict[i].node)
        },
        None => Err(DecodingError { kind: ErrorKind::FieldMissing(field) }),
    }
}

/// Looks up the field `field` in `dict` and reads it as an integer.
pub fn lookup_int(field: Field, dict: &Vec<Entry>) -> (r: Result<i64, DecodingError>)
    ensures
        match r {
            Ok(n) => integer_field(field, entry_views(dict@)) == Ok::<int, DecodingError>(
                n as int,
            ),
            Err(e) => integer_field(field, entry_views(dict@)) == Err::<int, DecodingError>(e),
        },
{
    match lookup(field, dict) {
        Ok(node) => match &node.value {
            StructuralValue::Integer(n) => Ok(*n),
            _ => Err(
                DecodingError { kind: ErrorKind::FieldTypeMismatch(field, Expected::Integer) },
            ),
        },
        Err(e) => Err(e),
    }
}

/// Looks up the field `field` in `dict` and reads it as a byte string.
pub fn lookup_bytes<'a>(field: Field, dict: &'a Vec<Entry>) -> (r: Result<
    &'a Vec<u8>,
    DecodingError,
>)
    ensures
        match r {
            Ok(b) => bytes_field(field, entry_views(dict@)) == Ok::<Seq<u8>, DecodingError>(b@),
            Err(e) => bytes_field(field, entry_views(dict@)) == Err::<Seq<u8>, DecodingError>(e),
        },
{
    match lookup(field, dict) {
        Ok(node) => match &node.value {
            StructuralValue::ByteString(b) => Ok(b),
            _ => Err(
                DecodingError { kind: ErrorKind::FieldTypeMismatch(field, Expected::ByteString) },
            ),
        },
        Err(e) => Err(e),
    }
}

/// Looks up the field `field` in `dict` and reads it as text.
pub fn lookup_string(field: Field, dict: &Vec<Entry>) -> (r: Result<String, DecodingError>)
    ensures
        match r {
            Ok(t) => text_field(field, entry_views(dict@)) == Ok::<Seq<char>, DecodingError>(t@),
            Err(e) => text_field(field, entry_views(dict@)) == Err::<Seq<char>, DecodingError>(
                e,
            ),
        },
{
    match lookup(field, dict) {
        Ok(node) => match &node.value {
            StructuralValue::ByteString(b) => match text_of(b.as_slice()) {
                Some(t) => Ok(t),
                None => Err(
                    DecodingError { kind: ErrorKind::FieldTypeMismatch(field, Expected::Text) },
                ),
            },
            _ => Err(DecodingError { kind: ErrorKind::FieldTypeMismatch(field, Expected::Text) }),
        },
        Err(e) => Err(e),
    }
}

} // verus!
