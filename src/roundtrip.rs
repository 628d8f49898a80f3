//! Proofs that a generated trunk proof verifies.
use vstd::prelude::*;

use crate::chunk::{
    completeness_spec, height_proof_below, height_proof_ops, height_proof_spec, trunk_body_ops,
    trunk_height, trunk_proof_ops, verify_trunk_spec,
};
use crate::error::ChunkError;
use crate::hash::kv_hash_spec;
use crate::ops::{
    execute_spec, lemma_run_append, leaf_view, run_spec, step_spec, tree_hash, NodeView, OpView,
    ProofTreeView,
};
use crate::tree::{left_depth, src_hash, Tree};

verus! {

/// Whether every node of `t` that lies fewer than `remaining` levels down has
/// both children.
pub open spec fn complete_to(t: Tree, remaining: nat) -> bool
    decreases t,
{
    remaining == 0 || match (t.left, t.right) {
        (Some(l), Some(r)) => complete_to(*l, (remaining - 1) as nat) && complete_to(
            *r,
            (remaining - 1) as nat,
        ),
        _ => false,
    }
}

/// The tree that the height proof of `t` rebuilds when `t` lies below the
/// trunk: pair digests down the left path, right subtrees as opaque digests.
pub open spec fn spine_tree(t: Tree) -> ProofTreeView
    decreases t,
{
    ProofTreeView {
        node: NodeView::KVHash(kv_hash_spec(t.key@, t.value@)),
        left: match t.left {
            Some(c) => Some(Box::new(spine_tree(*c))),
            None => None,
        },
        right: match t.right {
            Some(c) => Some(Box::new(leaf_view(NodeView::Hash(src_hash(*c))))),
            None => None,
        },
    }
}

/// The node `n` levels down the left path of `t`.
pub open spec fn left_descendant(t: Tree, n: nat) -> Tree
    decreases t,
{
    if n == 0 {
        t
    } else {
        match t.left {
            Some(c) => left_descendant(*c, (n - 1) as nat),
            None => t,
        }
    }
}

/// The tree that the trunk body of `t` rebuilds, `remaining` levels above the
/// frontier, with the height proof's tree in place of the leftmost frontier
/// node.
pub open spec fn body_tree(t: Tree, remaining: nat, leftmost: bool) -> ProofTreeView
    decreases t,
{
    if remaining == 0 {
        if leftmost {
            spine_tree(t)
        } else {
            leaf_view(NodeView::Hash(src_hash(t)))
        }
    } else {
        ProofTreeView {
            node: NodeView::KV(t.key@, t.value@),
            left: match t.left {
                Some(c) => Some(Box::new(body_tree(*c, (remaining - 1) as nat, leftmost))),
                None => None,
            },
            right: match t.right {
                Some(c) => Some(Box::new(body_tree(*c, (remaining - 1) as nat, false))),
                None => None,
            },
        }
    }
}

proof fn lemma_run_push(stack: Seq<ProofTreeView>, a: Seq<OpView>, o: OpView)
    ensures
        run_spec(stack, a.push(o), false) == match run_spec(stack, a, false) {
            Ok(s) => step_spec(s, o, false),
            Err(e) => Err(e),
        },
{
    assert(a.push(o) =~= a + seq![o]);
    lemma_run_append(stack, a, seq![o], false);
    match run_spec(stack, a, false) {
        Ok(s) => {
            assert(seq![o].drop_first() =~= Seq::<OpView>::empty());
            assert(seq![o][0] == o);
            match step_spec(s, o, false) {
                Ok(s2) => {
                    lemma_run_empty(s2);
                },
                Err(_) => {},
            }
        },
        Err(_) => {},
    }
}

proof fn lemma_run_empty(stack: Seq<ProofTreeView>)
    ensures
        run_spec(stack, Seq::empty(), false) == Ok::<Seq<ProofTreeView>, ChunkError>(
            stack,
        ),
{
}

/// Running the height proof of a subtree below the trunk pushes its spine tree.
proof fn lemma_height_ops_below_trunk(t: Tree, depth: nat, th: nat, stack: Seq<ProofTreeView>)
    requires
        depth > th,
    ensures
        run_spec(stack, height_proof_ops(t, depth, th), false) == Ok::<
            Seq<ProofTreeView>,
            ChunkError,
        >(stack.push(spine_tree(t))),
    decreases t,
{
    let below = height_proof_below(t, depth, th);
    let base = match t.left {
        Some(c) => {
            lemma_height_ops_below_trunk(*c, depth + 1, th, stack);
            stack.push(spine_tree(*c))
        },
        None => {
            lemma_run_empty(stack);
            stack
        },
    };
    assert(run_spec(stack, below, false) == Ok::<Seq<ProofTreeView>, ChunkError>(
        base,
    ));
    let kvh = NodeView::KVHash(kv_hash_spec(t.key@, t.value@));
    let own = below.push(OpView::Push(kvh));
    lemma_run_push(stack, below, OpView::Push(kvh));
    let s1 = base.push(leaf_view(kvh));
    let with_left = if t.left is Some {
        own.push(OpView::Parent)
    } else {
        own
    };
    let node_l = ProofTreeView {
        node: kvh,
        left: match t.left {
            Some(c) => Some(Box::new(spine_tree(*c))),
            None => None,
        },
        right: None,
    };
    if t.left is Some {
        lemma_run_push(stack, own, OpView::Parent);
        assert(s1.take(s1.len() - 2).push(node_l) =~= stack.push(node_l));
    } else {
        assert(s1 =~= stack.push(node_l));
    }
    assert(run_spec(stack, with_left, false) == Ok::<Seq<ProofTreeView>, ChunkError>(
        stack.push(node_l),
    ));
    match t.right {
        Some(c) => {
            let h = OpView::Push(NodeView::Hash(src_hash(*c)));
            lemma_run_push(stack, with_left, h);
            lemma_run_push(stack, with_left.push(h), OpView::Child);
            let s2 = stack.push(node_l).push(leaf_view(NodeView::Hash(src_hash(*c))));
            assert(s2.take(s2.len() - 2).push(spine_tree(t)) =~= stack.push(spine_tree(t)));
        },
        None => {
            assert(node_l == spine_tree(t));
        },
    }
}


/// Running the height proof from a node at `depth`, above or at the trunk's
/// lower edge, pushes the spine tree of the first node below the trunk.
proof fn lemma_height_ops(t: Tree, depth: nat, th: nat, stack: Seq<ProofTreeView>)
    requires
        1 <= depth <= th + 1,
        depth + left_depth(t) >= th + 2,
    ensures
        run_spec(stack, height_proof_ops(t, depth, th), false) == Ok::<
            Seq<ProofTreeView>,
            ChunkError,
        >(stack.push(spine_tree(left_descendant(t, (th + 1 - depth) as nat)))),
    decreases t,
{
    if depth > th {
        lemma_height_ops_below_trunk(t, depth, th, stack);
    } else {
        assert(t.left is Some);
        let c = *t.left->Some_0;
        assert(left_depth(t) == 1 + left_depth(c));
        lemma_height_ops(c, depth + 1, th, stack);
        assert(left_descendant(t, (th + 1 - depth) as nat) == left_descendant(
            c,
            (th + 1 - (depth + 1)) as nat,
        ));
    }
}

/// Running the trunk body of a subtree that is complete down to the frontier
/// pushes its body tree. On the leftmost path the body expects the height
/// proof's tree on top of the stack, and consumes it.
proof fn lemma_body_ops(t: Tree, r: nat, lm: bool, stack: Seq<ProofTreeView>)
    requires
        complete_to(t, r),
    ensures
        run_spec(
            if lm {
                stack.push(spine_tree(left_descendant(t, r)))
            } else {
                stack
            },
            trunk_body_ops(t, r, lm),
            false,
        ) == Ok::<Seq<ProofTreeView>, ChunkError>(stack.push(body_tree(t, r, lm))),
    decreases t,
{
    let pre = if lm {
        stack.push(spine_tree(left_descendant(t, r)))
    } else {
        stack
    };
    if r == 0 {
        if lm {
            lemma_run_empty(pre);
        } else {
            let o = OpView::Push(NodeView::Hash(src_hash(t)));
            assert(seq![o] =~= Seq::<OpView>::empty().push(o));
            lemma_run_empty(pre);
            lemma_run_push(pre, Seq::empty(), o);
        }
    } else {
        let l = *t.left->Some_0;
        let rt = *t.right->Some_0;
        let rm = (r - 1) as nat;
        lemma_body_ops(l, rm, lm, stack);
        assert(left_descendant(t, r) == left_descendant(l, rm));
        let bl = body_tree(l, rm, lm);
        let kv = NodeView::KV(t.key@, t.value@);
        let a = trunk_body_ops(l, rm, lm);
        lemma_run_push(pre, a, OpView::Push(kv));
        lemma_run_push(pre, a.push(OpView::Push(kv)), OpView::Parent);
        let s1 = stack.push(bl).push(leaf_view(kv));
        let p = ProofTreeView { node: kv, left: Some(Box::new(bl)), right: None };
        assert(s1.take(s1.len() - 2).push(p) =~= stack.push(p));
        let lpart = a.push(OpView::Push(kv)).push(OpView::Parent);
        let b = trunk_body_ops(rt, rm, false);
        lemma_run_append(pre, lpart, b.push(OpView::Child), false);
        lemma_body_ops(rt, rm, false, stack.push(p));
        lemma_run_push(stack.push(p), b, OpView::Child);
        let br = body_tree(rt, rm, false);
        let s2 = stack.push(p).push(br);
        assert(s2.take(s2.len() - 2).push(body_tree(t, r, lm)) =~= stack.push(body_tree(t, r, lm)));
    }
}


proof fn lemma_left_depth_positive(t: Tree)
    ensures
        left_depth(t) >= 1,
{
}

proof fn lemma_spine_hash(t: Tree)
    ensures
        tree_hash(spine_tree(t)) == src_hash(t),
    decreases t,
{
    if let Some(c) = t.left {
        lemma_spine_hash(*c);
    }
    if let Some(c) = t.right {
        assert(tree_hash(leaf_view(NodeView::Hash(src_hash(*c)))) == src_hash(*c));
    }
}

proof fn lemma_spine_checks(t: Tree)
    requires
        left_depth(t) <= usize::MAX,
    ensures
        height_proof_spec(spine_tree(t)) == Ok::<usize, ChunkError>(
            left_depth(t) as usize,
        ),
    decreases t,
{
    if let Some(c) = t.left {
        lemma_spine_checks(*c);
    }
}

proof fn lemma_body_checks(t: Tree, r: nat, lm: bool)
    requires
        complete_to(t, r),
        lm ==> left_depth(t) <= usize::MAX,
    ensures
        lm ==> height_proof_spec(body_tree(t, r, lm)) == Ok::<usize, ChunkError>(
            left_depth(t) as usize,
        ),
        completeness_spec(body_tree(t, r, lm), r, lm) == Ok::<(), ChunkError>(()),
        tree_hash(body_tree(t, r, lm)) == src_hash(t),
    decreases t,
{
    if r == 0 {
        if lm {
            lemma_spine_checks(t);
        }
        lemma_spine_hash(t);
    } else {
        let l = *t.left->Some_0;
        let rt = *t.right->Some_0;
        lemma_body_checks(l, (r - 1) as nat, lm);
        lemma_body_checks(rt, (r - 1) as nat, false);
    }
}

/// A trunk proof generated from a tree verifies whenever every node above the
/// trunk's frontier has both children: the verifier reports the length of the
/// tree's leftmost path as its height, and the rebuilt tree hashes to the
/// source tree's digest.
pub proof fn lemma_trunk_round_trip(t: Tree)
    requires
        left_depth(t) <= usize::MAX,
        complete_to(t, trunk_height(t)),
    ensures
        verify_trunk_spec(trunk_proof_ops(t)) is Ok,
        verify_trunk_spec(trunk_proof_ops(t))->Ok_0.1 == left_depth(t),
        tree_hash(verify_trunk_spec(trunk_proof_ops(t))->Ok_0.0) == src_hash(t),
{
    let th = trunk_height(t);
    let empty = Seq::<ProofTreeView>::empty();
    lemma_left_depth_positive(t);
    lemma_height_ops(t, 1, th, empty);
    assert(left_descendant(t, (th + 1 - 1) as nat) == left_descendant(t, th));
    lemma_body_ops(t, th, true, empty);
    lemma_run_append(empty, height_proof_ops(t, 1, th), trunk_body_ops(t, th, true), false);
    let bt = body_tree(t, th, true);
    assert(empty.push(bt).len() == 1);
    assert(execute_spec(trunk_proof_ops(t), false) == Ok::<
        ProofTreeView,
        ChunkError,
    >(bt));
    lemma_body_checks(t, th, true);
}

} // verus!
