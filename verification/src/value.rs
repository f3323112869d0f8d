//! Decoded values as the program holds them: a tree whose nodes remember
//! which bytes of the source buffer they were read from.

use vstd::prelude::*;
use crate::encoding::{encode, encodes_at, Value};

verus! {

/// A decoded value together with the range of the source buffer, from
/// `start` up to `end`, that holds its encoding.
#[derive(Debug)]
pub struct Node {
    pub start: usize,
    pub end: usize,
    pub value: StructuralValue,
}

/// One entry of a dictionary.
#[derive(Debug)]
pub struct Entry {
    pub key: Vec<u8>,
    pub node: Node,
}

/// The four shapes of a value. The entries of a dictionary stand in the
/// order in which the buffer held them.
#[derive(Debug)]
pub enum StructuralValue {
    Integer(i64),
    ByteString(Vec<u8>),
    List(Vec<Node>),
    Dictionary(Vec<Entry>),
}

/// The values that a run of nodes stands for.
pub open spec fn node_views(nodes: Seq<Node>) -> Seq<Value>
    decreases nodes,
{
    Seq::new(
        nodes.len(),
        |i: int|
            if 0 <= i < nodes.len() {
                nodes[i].view()
            } else {
                Value::Integer(0)
            },
    )
}

/// The keys and values that a run of entries stands for.
pub open spec fn entry_views(entries: Seq<Entry>) -> Seq<(Seq<u8>, Value)>
    decreases entries,
{
    Seq::new(
        entries.len(),
        |i: int|
            if 0 <= i < entries.len() {
                (entries[i].key@, entries[i].node.view())
            } else {
                (Seq::empty(), Value::Integer(0))
            },
    )
}

impl Node {
    /// The value that this node stands for, without its place in the buffer.
    pub open spec fn view(&self) -> Value
        decreases self,
    {
        match self.value {
            StructuralValue::Integer(n) => Value::Integer(n as int),
            StructuralValue::ByteString(b) => Value::ByteString(b@),
            StructuralValue::List(items) => Value::List(node_views(items@)),
            StructuralValue::Dictionary(entries) => Value::Dictionary(entry_views(entries@)),
        }
    }

    /// This node and all nodes below it name the ranges of `s` that hold
    /// their encodings.
    pub open spec fn anchored(&self, s: Seq<u8>) -> bool
        decreases self,
    {
        &&& encodes_at(s, self.start as int, self.view())
        &&& self.end == self.start + encode(self.view()).len()
        &&& match self.value {
            StructuralValue::List(items) => forall|i: int|
                0 <= i < items.len() ==> (#[trigger] items[i]).anchored(s),
            StructuralValue::Dictionary(entries) => forall|i: int|
                0 <= i < entries.len() ==> (#[trigger] entries[i]).node.anchored(s),
            _ => true,
        }
    }
}

/// Whether two byte strings hold the same bytes.
pub fn bytes_equal(a: &[u8], b: &[u8]) -> (r: bool)
    ensures
        r == (a@ == b@),
{
    if a.len() != b.len() {
        return false;
    }
    let mut i: usize = 0;
    while i < a.len()
        invariant
            a.len() == b.len(),
            i <= a.len(),
            forall|j: int| 0 <= j < i ==> a@[j] == b@[j],
        decreases a.len() - i,
    {
        if a[i] != b[i] {
            return false;
        }
        i = i + 1;
    }
    proof {
        assert(a@ =~= b@);
    }
    true
}

} // verus!
