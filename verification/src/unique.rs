//! A buffer holds at most one value at a place: no encoding is the beginning
//! of another, so what stands at a position is determined by the bytes.

use vstd::prelude::*;
use crate::encoding::{
    encode, encode_bytes, encode_entries, encode_entry, encode_items, encodes_at,
    lemma_encode_entries_first, lemma_encode_items_first, lemma_first_byte,
    lemma_first_byte_of_bytes, lemma_text_at_byte, lemma_text_at_concat, text_at, valid, Value,
    DICTIONARY_START, END, LIST_START,
};
use crate::scalar::{lemma_bytes_at_complete, lemma_integer_at_complete};

verus! {

/// Every item is valid within `budget` levels.
pub open spec fn all_valid(items: Seq<Value>, budget: nat) -> bool {
    forall|i: int| 0 <= i < items.len() ==> valid(#[trigger] items[i], budget)
}

/// Every entry's value is valid within `budget` levels.
pub open spec fn all_values_valid(entries: Seq<(Seq<u8>, Value)>, budget: nat) -> bool {
    forall|i: int| 0 <= i < entries.len() ==> valid((#[trigger] entries[i]).1, budget)
}

/// Where a run of items stands, each item stands right after those before it.
pub proof fn lemma_item_position(s: Seq<u8>, p: int, items: Seq<Value>, k: int)
    requires
        text_at(s, p, encode_items(items)),
        0 <= k < items.len(),
    ensures
        text_at(s, p, encode_items(items.take(k))),
        encodes_at(s, p + encode_items(items.take(k)).len(), items[k]),
    decreases items.len(),
{
    let front = items.drop_last();
    lemma_text_at_concat(s, p, encode_items(front), encode(items.last()));
    if k == items.len() - 1 {
        assert(items.take(k) =~= front);
    } else {
        lemma_item_position(s, p, front, k);
        assert(front.take(k) =~= items.take(k));
    }
}

/// Where a run of entries stands, each entry stands right after those before it.
pub proof fn lemma_entry_position(s: Seq<u8>, p: int, entries: Seq<(Seq<u8>, Value)>, k: int)
    requires
        text_at(s, p, encode_entries(entries)),
        0 <= k < entries.len(),
    ensures
        text_at(s, p, encode_entries(entries.take(k))),
        text_at(s, p + encode_entries(entries.take(k)).len(), encode_entry(entries[k])),
    decreases entries.len(),
{
    let front = entries.drop_last();
    lemma_text_at_concat(s, p, encode_entries(front), encode_entry(entries.last()));
    if k == entries.len() - 1 {
        assert(entries.take(k) =~= front);
    } else {
        lemma_entry_position(s, p, front, k);
        assert(front.take(k) =~= entries.take(k));
    }
}

/// Two valid values whose encodings stand at the same place are the same value.
pub proof fn lemma_unique(s: Seq<u8>, pos: int, v1: Value, b1: nat, v2: Value, b2: nat)
    requires
        s.len() <= usize::MAX,
        valid(v1, b1),
        valid(v2, b2),
        encodes_at(s, pos, v1),
        encodes_at(s, pos, v2),
    ensures
        v1 == v2,
    decreases v1, 1nat,
{
    lemma_first_byte(v1);
    lemma_first_byte(v2);
    assert(s.subrange(pos, pos + encode(v1).len())[0] == s[pos]);
    assert(s.subrange(pos, pos + encode(v2).len())[0] == s[pos]);
    match v1 {
        Value::Integer(n1) => {
            let n2 = v2->Integer_0;
            lemma_integer_at_complete(s, pos, n1);
            lemma_integer_at_complete(s, pos, n2);
        },
        Value::ByteString(x1) => {
            let x2 = v2->ByteString_0;
            lemma_bytes_at_complete(s, pos, x1);
            lemma_bytes_at_complete(s, pos, x2);
        },
        Value::List(items1) => {
            let items2 = v2->List_0;
            let t1 = encode_items(items1);
            let t2 = encode_items(items2);
            lemma_text_at_concat(s, pos, seq![LIST_START] + t1, seq![END]);
            lemma_text_at_concat(s, pos, seq![LIST_START], t1);
            lemma_text_at_byte(s, pos + 1 + t1.len(), END);
            lemma_text_at_concat(s, pos, seq![LIST_START] + t2, seq![END]);
            lemma_text_at_concat(s, pos, seq![LIST_START], t2);
            lemma_text_at_byte(s, pos + 1 + t2.len(), END);
            lemma_items_common(s, pos + 1, items1, (b1 - 1) as nat, items2, (b2 - 1) as nat);
            if items1.len() < items2.len() {
                lemma_items_end(s, pos + 1, items1, items2);
            } else if items2.len() < items1.len() {
                lemma_items_end(s, pos + 1, items2, items1);
            } else {
                assert(items1.take(items1.len() as int) =~= items1);
                assert(items2.take(items2.len() as int) =~= items2);
            }
        },
        Value::Dictionary(entries1) => {
            let entries2 = v2->Dictionary_0;
            let t1 = encode_entries(entries1);
            let t2 = encode_entries(entries2);
            lemma_text_at_concat(s, pos, seq![DICTIONARY_START] + t1, seq![END]);
            lemma_text_at_concat(s, pos, seq![DICTIONARY_START], t1);
            lemma_text_at_byte(s, pos + 1 + t1.len(), END);
            lemma_text_at_concat(s, pos, seq![DICTIONARY_START] + t2, seq![END]);
            lemma_text_at_concat(s, pos, seq![DICTIONARY_START], t2);
            lemma_text_at_byte(s, pos + 1 + t2.len(), END);
            lemma_entries_common(
                s,
                pos + 1,
                entries1,
                (b1 - 1) as nat,
                entries2,
                (b2 - 1) as nat,
            );
            if entries1.len() < entries2.len() {
                lemma_entries_end(s, pos + 1, entries1, entries2);
            } else if entries2.len() < entries1.len() {
                lemma_entries_end(s, pos + 1, entries2, entries1);
            } else {
                assert(entries1.take(entries1.len() as int) =~= entries1);
                assert(entries2.take(entries2.len() as int) =~= entries2);
            }
        },
    }
}

/// A run of items that goes on where a shorter one has ended holds no `e` there.
pub proof fn lemma_items_end(s: Seq<u8>, p: int, short: Seq<Value>, long: Seq<Value>)
    requires
        short.len() < long.len(),
        long.take(short.len() as int) == short,
        text_at(s, p, encode_items(long)),
    ensures
        0 <= p + encode_items(short).len() < s.len(),
        s[p + encode_items(short).len()] != END,
{
    let k = short.len() as int;
    lemma_item_position(s, p, long, k);
    lemma_first_byte(long[k]);
    let q = p + encode_items(short).len();
    assert(s.subrange(q, q + encode(long[k]).len())[0] == s[q]);
}

/// A run of entries that goes on where a shorter one has ended holds no `e` there.
pub proof fn lemma_entries_end(
    s: Seq<u8>,
    p: int,
    short: Seq<(Seq<u8>, Value)>,
    long: Seq<(Seq<u8>, Value)>,
)
    requires
        short.len() < long.len(),
        long.take(short.len() as int) == short,
        text_at(s, p, encode_entries(long)),
    ensures
        0 <= p + encode_entries(short).len() < s.len(),
        s[p + encode_entries(short).len()] != END,
{
    let k = short.len() as int;
    lemma_entry_position(s, p, long, k);
    let q = p + encode_entries(short).len();
    lemma_text_at_concat(s, q, encode_bytes(long[k].0), encode(long[k].1));
    lemma_first_byte_of_bytes(long[k].0);
    assert(s.subrange(q, q + encode_bytes(long[k].0).len())[0] == s[q]);
}

/// Two runs of valid items that stand at the same place agree as far as the
/// shorter one goes.
pub proof fn lemma_items_common(
    s: Seq<u8>,
    p: int,
    a: Seq<Value>,
    ba: nat,
    b: Seq<Value>,
    bb: nat,
)
    requires
        s.len() <= usize::MAX,
        all_valid(a, ba),
        all_valid(b, bb),
        text_at(s, p, encode_items(a)),
        text_at(s, p, encode_items(b)),
    ensures
        a.len() <= b.len() ==> b.take(a.len() as int) == a,
        b.len() <= a.len() ==> a.take(b.len() as int) == b,
    decreases a, 0nat,
{
    if a.len() == 0 || b.len() == 0 {
        assert(a.len() == 0 ==> b.take(0) =~= a);
        assert(b.len() == 0 ==> a.take(0) =~= b);
    } else {
        lemma_encode_items_first(a);
        lemma_encode_items_first(b);
        let ra = a.drop_first();
        let rb = b.drop_first();
        lemma_text_at_concat(s, p, encode(a[0]), encode_items(ra));
        lemma_text_at_concat(s, p, encode(b[0]), encode_items(rb));
        lemma_unique(s, p, a[0], ba, b[0], bb);
        assert forall|i: int| 0 <= i < ra.len() implies valid(#[trigger] ra[i], ba) by {
            assert(ra[i] == a[i + 1]);
        }
        assert forall|i: int| 0 <= i < rb.len() implies valid(#[trigger] rb[i], bb) by {
            assert(rb[i] == b[i + 1]);
        }
        lemma_items_common(s, p + encode(a[0]).len(), ra, ba, rb, bb);
        if a.len() <= b.len() {
            assert(b.take(a.len() as int) =~= seq![b[0]] + rb.take(ra.len() as int));
            assert(a =~= seq![a[0]] + ra);
        }
        if b.len() <= a.len() {
            assert(a.take(b.len() as int) =~= seq![a[0]] + ra.take(rb.len() as int));
            assert(b =~= seq![b[0]] + rb);
        }
    }
}

/// Two runs of entries with valid values that stand at the same place agree
/// as far as the shorter one goes.
pub proof fn lemma_entries_common(
    s: Seq<u8>,
    p: int,
    a: Seq<(Seq<u8>, Value)>,
    ba: nat,
    b: Seq<(Seq<u8>, Value)>,
    bb: nat,
)
    requires
        s.len() <= usize::MAX,
        all_values_valid(a, ba),
        all_values_valid(b, bb),
        text_at(s, p, encode_entries(a)),
        text_at(s, p, encode_entries(b)),
    ensures
        a.len() <= b.len() ==> b.take(a.len() as int) == a,
        b.len() <= a.len() ==> a.take(b.len() as int) == b,
    decreases a, 0nat,
{
    if a.len() == 0 || b.len() == 0 {
        assert(a.len() == 0 ==> b.take(0) =~= a);
        assert(b.len() == 0 ==> a.take(0) =~= b);
    } else {
        lemma_encode_entries_first(a);
        lemma_encode_entries_first(b);
        let ra = a.drop_first();
        let rb = b.drop_first();
        lemma_text_at_concat(s, p, encode_entry(a[0]), encode_entries(ra));
        lemma_text_at_concat(s, p, encode_entry(b[0]), encode_entries(rb));
        lemma_text_at_concat(s, p, encode_bytes(a[0].0), encode(a[0].1));
        lemma_text_at_concat(s, p, encode_bytes(b[0].0), encode(b[0].1));
        lemma_bytes_at_complete(s, p, a[0].0);
        lemma_bytes_at_complete(s, p, b[0].0);
        lemma_unique(s, p + encode_bytes(a[0].0).len(), a[0].1, ba, b[0].1, bb);
        assert(a[0] == b[0]);
        assert forall|i: int| 0 <= i < ra.len() implies valid((#[trigger] ra[i]).1, ba) by {
            assert(ra[i] == a[i + 1]);
        }
        assert forall|i: int| 0 <= i < rb.len() implies valid((#[trigger] rb[i]).1, bb) by {
            assert(rb[i] == b[i + 1]);
        }
        lemma_entries_common(s, p + encode_entry(a[0]).len(), ra, ba, rb, bb);
        if a.len() <= b.len() {
            assert(b.take(a.len() as int) =~= seq![b[0]] + rb.take(ra.len() as int));
            assert(a =~= seq![a[0]] + ra);
        }
        if b.len() <= a.len() {
            assert(a.take(b.len() as int) =~= seq![a[0]] + ra.take(rb.len() as int));
            assert(b =~= seq![b[0]] + rb);
        }
    }
}

} // verus!
