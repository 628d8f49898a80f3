use vstd::prelude::*;

use crate::error::ChunkError;
use crate::ops::{lemma_ops_view_push, ops_view, Node, NodeView, Op, OpView};

verus! {

/// One entry of the node store: a node's key and value, and the keys of its
/// children.
#[derive(Debug)]
pub struct StoredNode {
    pub key: Vec<u8>,
    pub value: Vec<u8>,
    pub left: Option<Vec<u8>>,
    pub right: Option<Vec<u8>>,
}

/// A forward cursor over stored nodes sorted by key. In that order a node's
/// left subtree comes wholly before it and its right subtree wholly after it.
#[derive(Debug)]
pub struct NodeCursor {
    pub entries: Vec<StoredNode>,
    pub pos: usize,
}

impl NodeCursor {
    /// A cursor on the first of `entries`.
    pub fn new(entries: Vec<StoredNode>) -> (r: NodeCursor)
        ensures
            r.entries@ == entries@,
            r.pos == 0,
    {
        NodeCursor { entries, pos: 0 }
    }

    /// Whether the cursor stands on an entry.
    pub fn valid(&self) -> (r: bool)
        ensures
            r == (self.pos < self.entries@.len()),
    {
        self.pos < self.entries.len()
    }
}

/// Lexicographic order on byte strings, as slices of bytes compare.
pub open spec fn bytes_lt(a: Seq<u8>, b: Seq<u8>) -> bool
    decreases a.len(),
{
    if a.len() == 0 {
        b.len() > 0
    } else if b.len() == 0 {
        false
    } else if a[0] != b[0] {
        a[0] < b[0]
    } else {
        bytes_lt(a.drop_first(), b.drop_first())
    }
}

pub fn bytes_eq(a: &Vec<u8>, b: &Vec<u8>) -> (r: bool)
    ensures
        r == (a@ == b@),
{
    if a.len() != b.len() {
        return false;
    }
    let mut i: usize = 0;
    while i < a.len()
        invariant
            i <= a@.len(),
            a@.len() == b@.len(),
            forall|j: int| 0 <= j < i ==> a@[j] == b@[j],
        decreases a@.len() - i,
    {
        if a[i] != b[i] {
            return false;
        }
        i = i + 1;
    }
    assert(a@ =~= b@);
    true
}

pub fn bytes_less(a: &Vec<u8>, b: &Vec<u8>) -> (r: bool)
    ensures
        r == bytes_lt(a@, b@),
{
    let mut i: usize = 0;
    assert(a@.skip(0) =~= a@);
    assert(b@.skip(0) =~= b@);
    while i < a.len() && i < b.len()
        invariant
            i <= a@.len(),
            i <= b@.len(),
            forall|j: int| 0 <= j < i ==> a@[j] == b@[j],
            bytes_lt(a@, b@) == bytes_lt(a@.skip(i as int), b@.skip(i as int)),
        decreases a@.len() - i,
    {
        if a[i] != b[i] {
            return a[i] < b[i];
        }
        assert(a@.skip(i as int).drop_first() =~= a@.skip(i + 1));
        assert(b@.skip(i as int).drop_first() =~= b@.skip(i + 1));
        i = i + 1;
    }
    i < b.len()
}

/// How many pending right-child keys a node with key `key` and no right child
/// closes: those on top of the stack that are not greater than `key`.
pub open spec fn drain_count(key: Seq<u8>, pending: Seq<Seq<u8>>) -> nat
    decreases pending.len(),
{
    if pending.len() == 0 || bytes_lt(key, pending.last()) {
        0
    } else {
        1 + drain_count(key, pending.drop_last())
    }
}

pub open spec fn children_ops(n: nat) -> Seq<OpView> {
    Seq::new(n, |i: int| OpView::Child)
}

/// The operations for one stored node, and the stack of pending right-child
/// keys after it.
pub open spec fn entry_ops(e: StoredNode, pending: Seq<Seq<u8>>) -> (Seq<OpView>, Seq<Seq<u8>>) {
    let own = seq![OpView::Push(NodeView::KV(e.key@, e.value@))];
    let with_left = if e.left is Some {
        own.push(OpView::Parent)
    } else {
        own
    };
    match e.right {
        Some(k) => (with_left, pending.push(k@)),
        None => {
            let n = drain_count(e.key@, pending);
            (with_left + children_ops(n), pending.take(pending.len() - n))
        },
    }
}

/// The operations for the stored nodes `from..to`, and the pending stack after
/// them.
pub open spec fn scan_spec(entries: Seq<StoredNode>, from: int, to: int) -> (
    Seq<OpView>,
    Seq<Seq<u8>>,
)
    decreases to - from,
{
    if to <= from {
        (Seq::empty(), Seq::empty())
    } else {
        let prev = scan_spec(entries, from, to - 1);
        let cur = entry_ops(entries[to - 1], prev.1);
        (prev.0 + cur.0, cur.1)
    }
}

/// Index of the first entry from `pos` on whose key is `end_key`, or the
/// number of entries when there is none.
pub open spec fn chunk_end(entries: Seq<StoredNode>, pos: int, end_key: Option<Seq<u8>>) -> int
    decreases entries.len() - pos,
{
    if pos >= entries.len() {
        entries.len() as int
    } else if end_key is Some && entries[pos].key@ == end_key->Some_0 {
        pos
    } else {
        chunk_end(entries, pos + 1, end_key)
    }
}

pub open spec fn key_view(k: Option<&Vec<u8>>) -> Option<Seq<u8>> {
    match k {
        Some(v) => Some(v@),
        None => None,
    }
}

pub open spec fn pending_view(p: Seq<Vec<u8>>) -> Seq<Seq<u8>> {
    p.map_values(|k: Vec<u8>| k@)
}

/// Builds the chunk for the complete subtree whose nodes start at the cursor
/// and end before the node with key `end_key` (or at the last node). Moves the
/// cursor past every node of the chunk and past the `end_key` node, if any, so
/// that the next chunk starts right after it.
pub fn get_next_chunk(iter: &mut NodeCursor, end_key: Option<&Vec<u8>>) -> (r: Result<
    Vec<Op>,
    ChunkError,
>)
    requires
        old(iter).pos <= old(iter).entries@.len(),
    ensures
        final(iter).entries == old(iter).entries,
        r is Ok,
        ({
            let stop = chunk_end(old(iter).entries@, old(iter).pos as int, key_view(end_key));
            &&& ops_view(r->Ok_0@) == scan_spec(old(iter).entries@, old(iter).pos as int, stop).0
            &&& final(iter).pos == if stop < old(iter).entries@.len() {
                stop + 1
            } else {
                stop
            }
        }),
{
    let ghost orig = iter.entries;
    let ghost entries = iter.entries@;
    let ghost start = iter.pos as int;
    let ghost ek = key_view(end_key);
    let mut chunk: Vec<Op> = Vec::new();
    let mut stack: Vec<Vec<u8>> = Vec::new();
    assert(ops_view(chunk@) =~= Seq::<OpView>::empty());
    assert(pending_view(stack@) =~= Seq::<Seq<u8>>::empty());
    while iter.pos < iter.entries.len()
        invariant
            iter.entries == orig,
            entries == orig@,
            start <= iter.pos <= entries.len(),
            ek == key_view(end_key),
            chunk_end(entries, start, ek) == chunk_end(entries, iter.pos as int, ek),
            ops_view(chunk@) == scan_spec(entries, start, iter.pos as int).0,
            pending_view(stack@) == scan_spec(entries, start, iter.pos as int).1,
        ensures
            iter.entries == orig,
            start <= iter.pos <= entries.len(),
            chunk_end(entries, start, ek) == iter.pos,
            ops_view(chunk@) == scan_spec(entries, start, iter.pos as int).0,
        decreases entries.len() - iter.pos,
    {
        let i = iter.pos;
        if let Some(end) = end_key {
            if bytes_eq(&iter.entries[i].key, end) {
                assert(chunk_end(entries, i as int, ek) == i);
                break;
            }
        }
        let ghost c0 = chunk@;
        let ghost snap0 = pending_view(stack@);
        let entry = &iter.entries[i];
        chunk.push(Op::Push(Node::KV(entry.key.clone(), entry.value.clone())));
        proof { lemma_ops_view_push(c0, chunk@.last()); }
        if entry.left.is_some() {
            let ghost c1 = chunk@;
            chunk.push(Op::Parent);
            proof { lemma_ops_view_push(c1, Op::Parent); }
        }
        let ghost own = ops_view(chunk@);
        assert(own + children_ops(0) =~= own);
        match &entry.right {
            Some(child) => {
                stack.push(child.clone());
                assert(pending_view(stack@) =~= snap0.push(child@));
            },
            None => {
                let ghost mut n: nat = 0;
                while stack.len() > 0
                    invariant
                        n <= snap0.len(),
                        pending_view(stack@) == snap0.take(snap0.len() - n),
                        drain_count(entry.key@, snap0) == n + drain_count(
                            entry.key@,
                            pending_view(stack@),
                        ),
                        ops_view(chunk@) == own + children_ops(n),
                    ensures
                        n <= snap0.len(),
                        pending_view(stack@) == snap0.take(snap0.len() - n),
                        drain_count(entry.key@, snap0) == n,
                        ops_view(chunk@) == own + children_ops(n),
                    decreases stack@.len(),
                {
                    let top = stack.len() - 1;
                    let ghost cur = pending_view(stack@);
                    assert(cur.last() == stack@[top as int]@);
                    if bytes_less(&entry.key, &stack[top]) {
                        break;
                    }
                    stack.pop();
                    assert(pending_view(stack@) =~= cur.drop_last());
                    let ghost c1 = chunk@;
                    chunk.push(Op::Child);
                    proof {
                        lemma_ops_view_push(c1, Op::Child);
                        n = n + 1;
                    }
                    assert(pending_view(stack@) =~= snap0.take(snap0.len() - n));
                    assert(ops_view(chunk@) =~= own + children_ops(n));
                }
            },
        }
        assert(ops_view(chunk@) =~= ops_view(c0) + entry_ops(entries[i as int], snap0).0);
        assert(pending_view(stack@) =~= entry_ops(entries[i as int], snap0).1);
        iter.pos = iter.pos + 1;
    }
    if iter.pos < iter.entries.len() {
        iter.pos = iter.pos + 1;
    }
    Ok(chunk)
}

} // verus!
