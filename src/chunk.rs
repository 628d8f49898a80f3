use vstd::prelude::*;

use crate::error::ChunkError;
use crate::hash::{hash_eq, kv_hash_spec, Digest};
use crate::ops::{
    execute, execute_spec, lemma_ops_view_push, ops_view, tree_hash, Node, NodeView, Op, OpView,
    ProofTree, ProofTreeView,
};
use crate::tree::{left_depth, src_hash, Tree};

verus! {

/// A read-only position in a source tree, from which proofs are generated.
pub struct RefWalker<'a> {
    pub tree: &'a Tree,
}

/// Operations of the height proof for the left subtree of `t`.
pub open spec fn height_proof_below(t: Tree, depth: nat, th: nat) -> Seq<OpView>
    decreases t, 0nat,
{
    match t.left {
        Some(c) => height_proof_ops(*c, depth + 1, th),
        None => Seq::empty(),
    }
}

/// Operations of the height proof for the subtree `t`, whose root lies at
/// `depth` on the leftmost path, given the trunk height `th`: each node below
/// the trunk commits to its pair's digest, takes its left subtree, and takes
/// its right subtree as an opaque digest.
pub open spec fn height_proof_ops(t: Tree, depth: nat, th: nat) -> Seq<OpView>
    decreases t, 1nat,
{
    let below = height_proof_below(t, depth, th);
    if depth > th {
        let own = below.push(OpView::Push(NodeView::KVHash(kv_hash_spec(t.key@, t.value@))));
        let with_left = if t.left is Some {
            own.push(OpView::Parent)
        } else {
            own
        };
        match t.right {
            Some(c) => with_left.push(OpView::Push(NodeView::Hash(src_hash(*c)))).push(
                OpView::Child,
            ),
            None => with_left,
        }
    } else {
        below
    }
}

/// Operations of the trunk body for the subtree `t`, `remaining` levels above
/// the frontier, `leftmost` when every step from the root went left: revealed
/// pairs above the frontier, opaque digests at it, and nothing at the leftmost
/// frontier node, which the height proof already stands for.
pub open spec fn trunk_body_ops(t: Tree, remaining: nat, leftmost: bool) -> Seq<OpView>
    decreases t,
{
    if remaining == 0 {
        if leftmost {
            Seq::empty()
        } else {
            seq![OpView::Push(NodeView::Hash(src_hash(t)))]
        }
    } else {
        let l = match t.left {
            Some(c) => trunk_body_ops(*c, (remaining - 1) as nat, leftmost).push(
                OpView::Push(NodeView::KV(t.key@, t.value@)),
            ).push(OpView::Parent),
            None => seq![OpView::Push(NodeView::KV(t.key@, t.value@))],
        };
        match t.right {
            Some(c) => l + trunk_body_ops(*c, (remaining - 1) as nat, false).push(OpView::Child),
            None => l,
        }
    }
}

/// Half the length of the leftmost path, rounded down: how deep the trunk goes.
pub open spec fn trunk_height(t: Tree) -> nat {
    left_depth(t) / 2
}

/// The whole trunk proof of `t`: its height proof, then its trunk body.
pub open spec fn trunk_proof_ops(t: Tree) -> Seq<OpView> {
    height_proof_ops(t, 1, trunk_height(t)) + trunk_body_ops(t, trunk_height(t), true)
}

impl<'a> RefWalker<'a> {
    pub fn new(tree: &'a Tree) -> (r: RefWalker<'a>)
        ensures
            *r.tree == *tree,
    {
        RefWalker { tree }
    }

    /// Generates a trunk proof by walking the tree: a proof of the height of
    /// its leftmost path, then the nodes above half that height.
    pub fn create_trunk_proof(&self) -> (r: Result<Vec<Op>, ChunkError>)
        requires
            left_depth(*self.tree) <= usize::MAX,
        ensures
            r is Ok,
            r is Ok ==> ops_view(r->Ok_0@) == trunk_proof_ops(*self.tree),
    {
        let mut ops: Vec<Op> = Vec::new();
        let trunk_height = self.traverse_for_height_proof(&mut ops, 1);
        self.traverse_for_trunk(&mut ops, trunk_height, true);
        assert(ops_view(ops@) =~= trunk_proof_ops(*self.tree));
        Ok(ops)
    }

    /// Pushes the height proof of this walker's subtree, whose root lies at
    /// `depth` on the leftmost path, and returns the trunk height: half the
    /// depth of the end of that path.
    fn traverse_for_height_proof(&self, ops: &mut Vec<Op>, depth: usize) -> (th: usize)
        requires
            depth >= 1,
            depth + left_depth(*self.tree) - 1 <= usize::MAX,
        ensures
            th == (depth + left_depth(*self.tree) - 1) / 2,
            ops_view(final(ops)@) == ops_view(old(ops)@) + height_proof_ops(*self.tree, depth as nat, th as nat),
        decreases *self.tree,
    {
        let t = self.tree;
        let ghost start = ops_view(ops@);
        let th = match &t.left {
            Some(c) => {
                assert(left_depth(*self.tree) == 1 + left_depth(**c));
                RefWalker { tree: c }.traverse_for_height_proof(ops, depth + 1)
            },
            None => depth / 2,
        };
        let ghost below = height_proof_below(*self.tree, depth as nat, th as nat);
        assert(ops_view(ops@) =~= start + below);
        if depth > th {
            let ghost snap0 = ops@;
            ops.push(Op::Push(Node::KVHash(t.kv_hash())));
            proof { lemma_ops_view_push(snap0, ops@.last()); }
            if t.left.is_some() {
                let ghost snap1 = ops@;
                ops.push(Op::Parent);
                proof { lemma_ops_view_push(snap1, Op::Parent); }
            }
            if let Some(right) = &t.right {
                let ghost snap2 = ops@;
                ops.push(Op::Push(Node::Hash(right.hash())));
                proof { lemma_ops_view_push(snap2, ops@.last()); }
                let ghost snap3 = ops@;
                ops.push(Op::Child);
                proof { lemma_ops_view_push(snap3, Op::Child); }
            }
        }
        assert(ops_view(ops@) =~= start + height_proof_ops(*self.tree, depth as nat, th as nat));
        th
    }

    /// Pushes the trunk body of this walker's subtree, which lies `remaining`
    /// levels above the frontier. A missing child is skipped; the verifier
    /// refuses such a trunk.
    fn traverse_for_trunk(&self, ops: &mut Vec<Op>, remaining: usize, leftmost: bool)
        ensures
            ops_view(final(ops)@) == ops_view(old(ops)@) + trunk_body_ops(*self.tree, remaining as nat, leftmost),
        decreases *self.tree,
    {
        let t = self.tree;
        let ghost start = ops_view(ops@);
        if remaining == 0 {
            if !leftmost {
                ops.push(Op::Push(Node::Hash(t.hash())));
            }
            assert(ops_view(ops@) =~= start + trunk_body_ops(*self.tree, remaining as nat, leftmost));
            return;
        }
        if let Some(left) = &t.left {
            RefWalker { tree: left }.traverse_for_trunk(ops, remaining - 1, leftmost);
        }
        let ghost snap0 = ops@;
        ops.push(Op::Push(Node::KV(t.key.clone(), t.value.clone())));
        proof { lemma_ops_view_push(snap0, ops@.last()); }
        if t.left.is_some() {
            let ghost snap1 = ops@;
            ops.push(Op::Parent);
            proof { lemma_ops_view_push(snap1, Op::Parent); }
        }
        let ghost mid = ops_view(ops@);
        if let Some(right) = &t.right {
            RefWalker { tree: right }.traverse_for_trunk(ops, remaining - 1, false);
            let ghost snap2 = ops@;
            ops.push(Op::Child);
            proof { lemma_ops_view_push(snap2, Op::Child); }
            assert(ops_view(ops@) =~= mid + trunk_body_ops(**right, (remaining - 1) as nat, false).push(OpView::Child));
        }
        assert(ops_view(ops@) =~= start + trunk_body_ops(*self.tree, remaining as nat, leftmost));
    }
}

/// Length of the leftmost path of a rebuilt tree, or the error that its check
/// meets: an opaque `Hash` node anywhere on that path is refused.
pub open spec fn height_proof_spec(t: ProofTreeView) -> Result<usize, ChunkError>
    decreases t,
{
    if t.node is Hash {
        Err(ChunkError::UnexpectedNodeKind)
    } else {
        match t.left {
            None => Ok(1),
            Some(c) => match height_proof_spec(*c) {
                Ok(h) => if h >= usize::MAX {
                    Err(ChunkError::MalformedProof)
                } else {
                    Ok((h + 1) as usize)
                },
                Err(e) => Err(e),
            },
        }
    }
}

/// Checks that a rebuilt tree is a complete trunk `remaining` levels deep:
/// revealed pairs with both children above the frontier; at the frontier a
/// pair digest on the leftmost path and an opaque digest elsewhere.
pub open spec fn completeness_spec(t: ProofTreeView, remaining: nat, leftmost: bool) -> Result<
    (),
    ChunkError,
>
    decreases t,
{
    if remaining > 0 {
        if !(t.node is KV) {
            Err(ChunkError::UnexpectedNodeKind)
        } else {
            match t.left {
                None => Err(ChunkError::IncompleteTrunk),
                Some(l) => match completeness_spec(*l, (remaining - 1) as nat, leftmost) {
                    Err(e) => Err(e),
                    Ok(_) => match t.right {
                        None => Err(ChunkError::IncompleteTrunk),
                        Some(r) => completeness_spec(*r, (remaining - 1) as nat, false),
                    },
                },
            }
        }
    } else if !leftmost {
        if t.node is Hash {
            Ok(())
        } else {
            Err(ChunkError::UnexpectedNodeKind)
        }
    } else {
        if t.node is KVHash {
            Ok(())
        } else {
            Err(ChunkError::UnexpectedNodeKind)
        }
    }
}

/// The outcome of verifying a trunk proof: the rebuilt tree and the height
/// that its height proof shows, or the first error met.
pub open spec fn verify_trunk_spec(ops: Seq<OpView>) -> Result<(ProofTreeView, usize), ChunkError> {
    match execute_spec(ops, false) {
        Err(e) => Err(e),
        Ok(t) => match height_proof_spec(t) {
            Err(e) => Err(e),
            Ok(h) => match completeness_spec(t, (h / 2) as nat, true) {
                Err(e) => Err(e),
                Ok(_) => Ok((t, h)),
            },
        },
    }
}

fn verify_height_proof(t: &ProofTree) -> (r: Result<usize, ChunkError>)
    ensures
        r == height_proof_spec(t@),
    decreases t,
{
    if let Node::Hash(_) = &t.node {
        return Err(ChunkError::UnexpectedNodeKind);
    }
    match &t.left {
        None => Ok(1),
        Some(c) => {
            let h = verify_height_proof(c)?;
            if h == usize::MAX {
                Err(ChunkError::MalformedProof)
            } else {
                Ok(h + 1)
            }
        },
    }
}

fn verify_completeness(t: &ProofTree, remaining: usize, leftmost: bool) -> (r: Result<(), ChunkError>)
    ensures
        r == completeness_spec(t@, remaining as nat, leftmost),
    decreases t,
{
    if remaining > 0 {
        match &t.node {
            Node::KV(_, _) => {},
            _ => return Err(ChunkError::UnexpectedNodeKind),
        }
        match &t.left {
            None => return Err(ChunkError::IncompleteTrunk),
            Some(l) => verify_completeness(l, remaining - 1, leftmost)?,
        }
        match &t.right {
            None => Err(ChunkError::IncompleteTrunk),
            Some(r) => verify_completeness(r, remaining - 1, false),
        }
    } else if !leftmost {
        match &t.node {
            Node::Hash(_) => Ok(()),
            _ => Err(ChunkError::UnexpectedNodeKind),
        }
    } else {
        match &t.node {
            Node::KVHash(_) => Ok(()),
            _ => Err(ChunkError::UnexpectedNodeKind),
        }
    }
}

/// Verifies a trunk proof: executes it, checks the height proof on its
/// leftmost path, and checks that the trunk is complete down to half that
/// height. Returns the rebuilt tree and the height.
pub fn verify_trunk(ops: &Vec<Op>) -> (r: Result<(ProofTree, usize), ChunkError>)
    ensures
        match (r, verify_trunk_spec(ops_view(ops@))) {
            (Ok((t, h)), Ok((tv, hv))) => t@ == tv && h == hv,
            (Err(e), Err(ev)) => e == ev,
            _ => false,
        },
{
    let tree = execute(ops, false)?;
    let height = verify_height_proof(&tree)?;
    verify_completeness(&tree, height / 2, true)?;
    Ok((tree, height))
}

/// Verifies a leaf chunk: every node must be a revealed pair, and the rebuilt
/// tree must hash to `expected`.
pub fn verify_leaf(ops: &Vec<Op>, expected: Digest) -> (r: Result<ProofTree, ChunkError>)
    ensures
        execute_spec(ops_view(ops@), true) is Err ==> r is Err && r->Err_0 == execute_spec(
            ops_view(ops@),
            true,
        )->Err_0,
        execute_spec(ops_view(ops@), true) is Ok ==> {
            let tv = execute_spec(ops_view(ops@), true)->Ok_0;
            if tree_hash(tv) == expected@ {
                r is Ok && r->Ok_0@ == tv
            } else {
                r is Err && r->Err_0 is HashMismatch && r->Err_0->HashMismatch_expected == expected
                    && r->Err_0->HashMismatch_actual@ == tree_hash(tv)
            }
        },
{
    let tree = execute(ops, true)?;
    let actual = tree.hash();
    if !hash_eq(&actual, &expected) {
        return Err(ChunkError::HashMismatch { expected, actual });
    }
    Ok(tree)
}

} // verus!
