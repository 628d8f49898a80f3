//! Proofs that a leaf chunk scanned from an ordered store rebuilds the tree.
use vstd::prelude::*;

use crate::error::ChunkError;
use crate::leaf::{
    bytes_lt, children_ops, chunk_end, drain_count, entry_ops, scan_spec, StoredNode,
};
use crate::ops::{
    execute_spec, leaf_view, lemma_run_append, run_spec, step_spec, tree_hash, NodeView, OpView,
    ProofTreeView,
};
use crate::tree::{src_hash, Tree};

verus! {

proof fn lemma_lt_irreflexive(a: Seq<u8>)
    ensures
        !bytes_lt(a, a),
    decreases a.len(),
{
    if a.len() > 0 {
        lemma_lt_irreflexive(a.drop_first());
    }
}

proof fn lemma_lt_transitive(a: Seq<u8>, b: Seq<u8>, c: Seq<u8>)
    requires
        bytes_lt(a, b),
        bytes_lt(b, c),
    ensures
        bytes_lt(a, c),
    decreases a.len(),
{
    if a.len() > 0 && b.len() > 0 && c.len() > 0 && a[0] == b[0] && b[0] == c[0] {
        lemma_lt_transitive(a.drop_first(), b.drop_first(), c.drop_first());
    }
}

proof fn lemma_lt_total(a: Seq<u8>, b: Seq<u8>)
    ensures
        a == b || bytes_lt(a, b) || bytes_lt(b, a),
    decreases a.len(),
{
    if a.len() > 0 && b.len() > 0 && a[0] == b[0] {
        lemma_lt_total(a.drop_first(), b.drop_first());
        if a.drop_first() == b.drop_first() {
            assert(a =~= seq![a[0]] + a.drop_first());
            assert(b =~= seq![b[0]] + b.drop_first());
        }
    } else if a.len() == 0 && b.len() == 0 {
        assert(a =~= b);
    }
}

/// Number of nodes of `t`.
pub open spec fn size(t: Tree) -> nat
    decreases t,
{
    1 + match t.left {
        Some(c) => size(*c),
        None => 0,
    } + match t.right {
        Some(c) => size(*c),
        None => 0,
    }
}

pub open spec fn size_opt(t: Option<Box<Tree>>) -> nat {
    match t {
        Some(c) => size(*c),
        None => 0,
    }
}

/// Greatest key of `t` when `t` is ordered.
pub open spec fn max_key(t: Tree) -> Seq<u8>
    decreases t,
{
    match t.right {
        Some(c) => max_key(*c),
        None => t.key@,
    }
}

/// Smallest key of `t` when `t` is ordered.
pub open spec fn min_key(t: Tree) -> Seq<u8>
    decreases t,
{
    match t.left {
        Some(c) => min_key(*c),
        None => t.key@,
    }
}

/// Whether the keys of `t` strictly increase from left to right.
pub open spec fn ordered(t: Tree) -> bool
    decreases t,
{
    &&& match t.left {
        Some(c) => ordered(*c) && bytes_lt(max_key(*c), t.key@),
        None => true,
    }
    &&& match t.right {
        Some(c) => ordered(*c) && bytes_lt(t.key@, min_key(*c)),
        None => true,
    }
}

/// Whether `e` is the stored form of the root of `t`.
pub open spec fn stores_node(e: StoredNode, t: Tree) -> bool {
    &&& e.key@ == t.key@
    &&& e.value@ == t.value@
    &&& (e.left is Some) == (t.left is Some)
    &&& match t.right {
        Some(c) => e.right is Some && e.right->Some_0@ == c.key@,
        None => e.right is None,
    }
}

/// Whether `entries` are the stored forms of the nodes of `t`, in key order.
pub open spec fn stores(entries: Seq<StoredNode>, t: Tree) -> bool
    decreases t,
{
    let nl = size_opt(t.left) as int;
    &&& entries.len() == size(t)
    &&& match t.left {
        Some(c) => stores(entries.take(nl), *c),
        None => true,
    }
    &&& stores_node(entries[nl], t)
    &&& match t.right {
        Some(c) => stores(entries.skip(nl + 1), *c),
        None => true,
    }
}

/// The tree of `t` with every pair revealed.
pub open spec fn full_tree(t: Tree) -> ProofTreeView
    decreases t,
{
    ProofTreeView {
        node: NodeView::KV(t.key@, t.value@),
        left: match t.left {
            Some(c) => Some(Box::new(full_tree(*c))),
            None => None,
        },
        right: match t.right {
            Some(c) => Some(Box::new(full_tree(*c))),
            None => None,
        },
    }
}

/// `x` hung as the right child of the last of `parents`, and so on down to
/// the first.
pub open spec fn hang(parents: Seq<ProofTreeView>, x: ProofTreeView) -> ProofTreeView
    decreases parents.len(),
{
    if parents.len() == 0 {
        x
    } else {
        hang(parents.drop_last(), ProofTreeView { right: Some(Box::new(x)), ..parents.last() })
    }
}

/// The operations for `entries` from the pending stack `pending`, and the
/// pending stack after them.
pub open spec fn scan_from(entries: Seq<StoredNode>, pending: Seq<Seq<u8>>) -> (
    Seq<OpView>,
    Seq<Seq<u8>>,
)
    decreases entries.len(),
{
    if entries.len() == 0 {
        (Seq::empty(), pending)
    } else {
        let prev = scan_from(entries.drop_last(), pending);
        let cur = entry_ops(entries.last(), prev.1);
        (prev.0 + cur.0, cur.1)
    }
}

proof fn lemma_scan_from_append(a: Seq<StoredNode>, b: Seq<StoredNode>, pending: Seq<Seq<u8>>)
    ensures
        scan_from(a + b, pending) == (
            scan_from(a, pending).0 + scan_from(b, scan_from(a, pending).1).0,
            scan_from(b, scan_from(a, pending).1).1,
        ),
    decreases b.len(),
{
    if b.len() == 0 {
        assert(a + b =~= a);
        assert(scan_from(a, pending).0 + Seq::<OpView>::empty() =~= scan_from(a, pending).0);
    } else {
        assert((a + b).drop_last() =~= a + b.drop_last());
        assert((a + b).last() == b.last());
        lemma_scan_from_append(a, b.drop_last(), pending);
        let x = scan_from(a, pending);
        let y = scan_from(b.drop_last(), x.1);
        let cur = entry_ops(b.last(), y.1);
        assert(x.0 + y.0 + cur.0 =~= x.0 + (y.0 + cur.0));
    }
}

proof fn lemma_scan_spec_is_scan_from(entries: Seq<StoredNode>, to: int)
    requires
        0 <= to <= entries.len(),
    ensures
        scan_spec(entries, 0, to) == scan_from(entries.take(to), Seq::empty()),
    decreases to,
{
    if to > 0 {
        lemma_scan_spec_is_scan_from(entries, to - 1);
        assert(entries.take(to).drop_last() =~= entries.take(to - 1));
        assert(entries.take(to).last() == entries[to - 1]);
    }
}


proof fn lemma_lt_le_lt(a: Seq<u8>, b: Seq<u8>, c: Seq<u8>)
    requires
        bytes_lt(a, b),
        !bytes_lt(c, b),
    ensures
        bytes_lt(a, c),
{
    lemma_lt_total(b, c);
    if b != c {
        lemma_lt_transitive(a, b, c);
    }
}

proof fn lemma_key_bounds(t: Tree)
    requires
        ordered(t),
    ensures
        !bytes_lt(max_key(t), t.key@),
    decreases t, 0nat,
{
    lemma_lt_irreflexive(t.key@);
    if let Some(c) = t.right {
        lemma_min_le_max(*c);
        lemma_lt_le_lt(t.key@, min_key(*c), max_key(*c));
        lemma_lt_total(t.key@, max_key(*c));
        if bytes_lt(max_key(*c), t.key@) {
            lemma_lt_transitive(t.key@, max_key(*c), t.key@);
        }
    }
}

proof fn lemma_min_le_max(t: Tree)
    requires
        ordered(t),
    ensures
        !bytes_lt(max_key(t), min_key(t)),
    decreases t, 1nat,
{
    lemma_key_bounds(t);
    match t.left {
        Some(c) => {
            lemma_min_le_max(*c);
            // min(c) <= max(c) < key <= max(t)
            lemma_lt_total(min_key(*c), max_key(*c));
            lemma_lt_irreflexive(min_key(*c));
            if min_key(*c) == max_key(*c) {
                lemma_lt_le_lt(min_key(*c), t.key@, max_key(t));
            } else {
                lemma_lt_transitive(min_key(*c), max_key(*c), t.key@);
                lemma_lt_le_lt(min_key(*c), t.key@, max_key(t));
            }
            if bytes_lt(max_key(t), min_key(t)) {
                lemma_lt_transitive(min_key(t), max_key(t), min_key(t));
                lemma_lt_irreflexive(min_key(t));
            }
        },
        None => {},
    }
}

proof fn lemma_drain_all_pending(k: Seq<u8>, p: Seq<Seq<u8>>, q: Seq<Seq<u8>>)
    requires
        p.len() > 0 ==> bytes_lt(k, p.last()),
        forall|i: int| 0 <= i < q.len() ==> !bytes_lt(k, #[trigger] q[i]),
    ensures
        drain_count(k, p + q) == q.len(),
    decreases q.len(),
{
    if q.len() == 0 {
        assert(p + q =~= p);
    } else {
        assert((p + q).last() == q.last());
        assert((p + q).drop_last() =~= p + q.drop_last());
        lemma_drain_all_pending(k, p, q.drop_last());
    }
}

proof fn lemma_run_single(stack: Seq<ProofTreeView>, o: OpView, f: bool)
    ensures
        run_spec(stack, seq![o], f) == step_spec(stack, o, f),
{
    assert(seq![o].drop_first() =~= Seq::<OpView>::empty());
    assert(seq![o][0] == o);
    match step_spec(stack, o, f) {
        Ok(s2) => {
            assert(run_spec(s2, Seq::<OpView>::empty(), f) == Ok::<
                Seq<ProofTreeView>,
                ChunkError,
            >(s2));
        },
        Err(_) => {},
    }
}

proof fn lemma_run_children(
    s: Seq<ProofTreeView>,
    a: Seq<ProofTreeView>,
    x: ProofTreeView,
)
    requires
        forall|i: int| 0 <= i < a.len() ==> (#[trigger] a[i]).right is None,
    ensures
        run_spec(s + a.push(x), children_ops(a.len()), true) == Ok::<
            Seq<ProofTreeView>,
            ChunkError,
        >(s.push(hang(a, x))),
    decreases a.len(),
{
    let m = a.len();
    if m == 0 {
        assert(s + a.push(x) =~= s.push(x));
        assert(children_ops(0) =~= Seq::<OpView>::empty());
    } else {
        let st = s + a.push(x);
        let y = ProofTreeView { right: Some(Box::new(x)), ..a.last() };
        assert(children_ops(m)[0] == OpView::Child);
        assert(children_ops(m).drop_first() =~= children_ops((m - 1) as nat));
        assert(st.last() == x);
        assert(st[st.len() - 2] == a.last());
        assert(st.take(st.len() - 2).push(y) =~= s + a.drop_last().push(y));
        lemma_run_children(s, a.drop_last(), y);
    }
}

proof fn lemma_full_tree_hash(t: Tree)
    ensures
        tree_hash(full_tree(t)) == src_hash(t),
    decreases t,
{
    if let Some(c) = t.left {
        lemma_full_tree_hash(*c);
    }
    if let Some(c) = t.right {
        lemma_full_tree_hash(*c);
    }
}


/// The node `u` revealed, with its left subtree and without its right one.
pub open spec fn open_node(u: Tree) -> ProofTreeView {
    ProofTreeView {
        node: NodeView::KV(u.key@, u.value@),
        left: match u.left {
            Some(l) => Some(Box::new(full_tree(*l))),
            None => None,
        },
        right: None,
    }
}

/// The operations that reveal `u` and attach its left subtree.
pub open spec fn node_ops(u: Tree) -> Seq<OpView> {
    let own = seq![OpView::Push(NodeView::KV(u.key@, u.value@))];
    if u.left is Some {
        own.push(OpView::Parent)
    } else {
        own
    }
}

proof fn lemma_scan_single(e: StoredNode, pending: Seq<Seq<u8>>)
    ensures
        scan_from(seq![e], pending) == entry_ops(e, pending),
{
    assert(seq![e].drop_last() =~= Seq::<StoredNode>::empty());
    assert(seq![e].last() == e);
    assert(scan_from(Seq::<StoredNode>::empty(), pending) == (Seq::<OpView>::empty(), pending));
    assert(Seq::<OpView>::empty() + entry_ops(e, pending).0 =~= entry_ops(e, pending).0);
}

proof fn lemma_node_ops(u: Tree, sa: Seq<ProofTreeView>)
    ensures
        run_spec(
            match u.left {
                Some(l) => sa.push(full_tree(*l)),
                None => sa,
            },
            node_ops(u),
            true,
        ) == Ok::<Seq<ProofTreeView>, ChunkError>(sa.push(open_node(u))),
{
    let base = match u.left {
        Some(l) => sa.push(full_tree(*l)),
        None => sa,
    };
    let kv = NodeView::KV(u.key@, u.value@);
    let own = seq![OpView::Push(kv)];
    lemma_run_single(base, OpView::Push(kv), true);
    if u.left is Some {
        assert(own.push(OpView::Parent) =~= own + seq![OpView::Parent]);
        lemma_run_append(base, own, seq![OpView::Parent], true);
        let st = base.push(leaf_view(kv));
        lemma_run_single(st, OpView::Parent, true);
        assert(st.take(st.len() - 2).push(open_node(u)) =~= sa.push(open_node(u)));
    } else {
        assert(base.push(leaf_view(kv)) =~= sa.push(open_node(u)));
    }
}

/// Scanning the left subtree of `u` from the pending stack `pq` leaves `pq`
/// and pushes the left subtree's full tree.
proof fn lemma_scan_left(u: Tree, le: Seq<StoredNode>, sa: Seq<ProofTreeView>, pq: Seq<Seq<u8>>)
    requires
        ordered(u),
        match u.left {
            Some(l) => stores(le, *l),
            None => le.len() == 0,
        },
        u.left is Some && pq.len() > 0 ==> bytes_lt(max_key(*u.left->Some_0), pq.last()),
    ensures
        scan_from(le, pq).1 == pq,
        run_spec(sa, scan_from(le, pq).0, true) == Ok::<Seq<ProofTreeView>, ChunkError>(
            match u.left {
                Some(l) => sa.push(full_tree(*l)),
                None => sa,
            },
        ),
    decreases u, 0nat,
{
    match u.left {
        Some(l) => {
            let e0 = Seq::<ProofTreeView>::empty();
            let q0 = Seq::<Seq<u8>>::empty();
            assert(pq + q0 =~= pq);
            assert(sa + e0 =~= sa);
            lemma_scan_subtree(*l, le, sa, e0, pq, q0);
        },
        None => {
            assert(le =~= Seq::<StoredNode>::empty());
        },
    }
}

/// Scanning the stored form of an ordered subtree `u` pushes its fully
/// revealed tree. Pending right-child keys `q` that the subtree closes hang
/// it under the open parents `a`; the pending keys `p` below them outlast it.
#[verifier::rlimit(60)]
proof fn lemma_scan_subtree(
    u: Tree,
    entries: Seq<StoredNode>,
    s: Seq<ProofTreeView>,
    a: Seq<ProofTreeView>,
    p: Seq<Seq<u8>>,
    q: Seq<Seq<u8>>,
)
    requires
        stores(entries, u),
        ordered(u),
        a.len() == q.len(),
        forall|i: int| 0 <= i < a.len() ==> (#[trigger] a[i]).right is None,
        p.len() > 0 ==> bytes_lt(max_key(u), p.last()),
        forall|i: int| 0 <= i < q.len() ==> !bytes_lt(max_key(u), #[trigger] q[i]),
        q.len() > 0 ==> q.last() == u.key@,
    ensures
        scan_from(entries, p + q).1 == p,
        run_spec(s + a, scan_from(entries, p + q).0, true) == Ok::<
            Seq<ProofTreeView>,
            ChunkError,
        >(s.push(hang(a, full_tree(u)))),
    decreases u, 1nat,
{
    let nl = size_opt(u.left) as int;
    let le = entries.take(nl);
    let e = entries[nl];
    let re = entries.skip(nl + 1);
    assert(entries =~= le + seq![e] + re);
    lemma_key_bounds(u);
    let pq = p + q;
    let sa = s + a;
    if u.left is Some {
        let l = *u.left->Some_0;
        if q.len() > 0 {
            assert(pq.last() == q.last());
        } else {
            assert(pq =~= p);
            if p.len() > 0 {
                lemma_lt_le_lt(max_key(l), u.key@, max_key(u));
                lemma_lt_transitive(max_key(l), max_key(u), p.last());
            }
        }
    } else {
        assert(le.len() == 0);
    }
    lemma_scan_left(u, le, sa, pq);
    let left_scan = scan_from(le, pq);
    lemma_node_ops(u, sa);
    lemma_scan_single(e, pq);
    let mid = scan_from(seq![e], pq);
    lemma_scan_from_append(le, seq![e], pq);
    lemma_scan_from_append(le + seq![e], re, pq);
    lemma_run_append(sa, left_scan.0, mid.0, true);
    let base = match u.left {
        Some(l) => sa.push(full_tree(*l)),
        None => sa,
    };
    assert(run_spec(sa, left_scan.0, true) == Ok::<Seq<ProofTreeView>, ChunkError>(base));
    if u.right is Some {
        let r = *u.right->Some_0;
        let a2 = a.push(open_node(u));
        let q2 = q.push(r.key@);
        lemma_key_bounds(r);
        assert(pq.push(r.key@) =~= p + q2);
        assert(mid.0 == node_ops(u));
        assert forall|i: int| 0 <= i < a2.len() implies (#[trigger] a2[i]).right is None by {
            if i < a.len() {
                assert(a2[i] == a[i]);
            }
        }
        assert forall|i: int| 0 <= i < q2.len() implies !bytes_lt(max_key(r), #[trigger] q2[i]) by {
            if i < q.len() {
                assert(q2[i] == q[i]);
            }
        }
        lemma_scan_subtree(r, re, s, a2, p, q2);
        assert(s + a2 =~= sa.push(open_node(u)));
        assert(mid.1 == p + q2);
        assert(run_spec(base, mid.0, true) == Ok::<Seq<ProofTreeView>, ChunkError>(sa.push(open_node(u))));
        assert(run_spec(sa, left_scan.0 + mid.0, true) == Ok::<Seq<ProofTreeView>, ChunkError>(sa.push(open_node(u))));
        lemma_run_append(sa, left_scan.0 + mid.0, scan_from(re, p + q2).0, true);
        assert(scan_from(entries, pq).0 == left_scan.0 + mid.0 + scan_from(re, p + q2).0);
        assert(a2.drop_last() =~= a);
        assert(hang(a2, full_tree(r)) == hang(a, full_tree(u)));
    } else {
        assert(re =~= Seq::<StoredNode>::empty());
        lemma_drain_all_pending(u.key@, p, q);
        assert(pq.take(pq.len() - q.len()) =~= p);
        assert(mid.0 == node_ops(u) + children_ops(q.len()));
        lemma_run_children(s, a, open_node(u));
        assert(s + a.push(open_node(u)) =~= sa.push(open_node(u)));
        lemma_run_append(base, node_ops(u), children_ops(q.len()), true);
        assert(left_scan.0 + mid.0 + Seq::<OpView>::empty() =~= left_scan.0 + mid.0);
        assert(open_node(u) == full_tree(u));
    }
}


proof fn lemma_chunk_end_without_end_key(entries: Seq<StoredNode>, pos: int)
    requires
        0 <= pos <= entries.len(),
    ensures
        chunk_end(entries, pos, None) == entries.len(),
    decreases entries.len() - pos,
{
    if pos < entries.len() {
        lemma_chunk_end_without_end_key(entries, pos + 1);
    }
}

/// A leaf chunk scanned, with no end key, from the stored form of an ordered
/// tree covers the whole store and executes, with only revealed pairs, to
/// the whole tree; that tree hashes to the source tree's digest, so the chunk
/// verifies against it.
pub proof fn lemma_leaf_chunk_round_trip(t: Tree, entries: Seq<StoredNode>)
    requires
        stores(entries, t),
        ordered(t),
    ensures
        chunk_end(entries, 0, None) == entries.len(),
        execute_spec(scan_spec(entries, 0, entries.len() as int).0, true) == Ok::<
            ProofTreeView,
            ChunkError,
        >(full_tree(t)),
        tree_hash(full_tree(t)) == src_hash(t),
{
    lemma_chunk_end_without_end_key(entries, 0);
    lemma_scan_spec_is_scan_from(entries, entries.len() as int);
    assert(entries.take(entries.len() as int) =~= entries);
    let e0 = Seq::<ProofTreeView>::empty();
    let q0 = Seq::<Seq<u8>>::empty();
    assert(q0 + q0 =~= q0);
    assert(e0 + e0 =~= e0);
    lemma_scan_subtree(t, entries, e0, e0, q0, q0);
    assert(e0.push(hang(e0, full_tree(t))).len() == 1);
    lemma_full_tree_hash(t);
}

} // verus!
