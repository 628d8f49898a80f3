//! What the verifiers refuse, and with which error.
use vstd::prelude::*;

use crate::chunk::{completeness_spec, height_proof_spec, verify_trunk_spec};
use crate::error::ChunkError;
use crate::ops::{
    execute_spec, lemma_run_append, run_spec, step_spec, tree_hash, OpView, ProofTreeView,
};

verus! {

/// Executing a sequence that leaves any number of entries but one on the
/// stack fails as a malformed proof, and so does verifying it as a trunk.
pub proof fn lemma_unbalanced_stack_is_malformed(ops: Seq<OpView>, full_only: bool)
    requires
        run_spec(Seq::empty(), ops, full_only) is Ok,
        run_spec(Seq::empty(), ops, full_only)->Ok_0.len() != 1,
    ensures
        execute_spec(ops, full_only) == Err::<ProofTreeView, ChunkError>(ChunkError::MalformedProof),
        !full_only ==> verify_trunk_spec(ops) == Err::<(ProofTreeView, usize), ChunkError>(
            ChunkError::MalformedProof,
        ),
{
}

/// A `Parent` or `Child` met with fewer than two entries on the stack makes
/// execution fail as a malformed proof.
pub proof fn lemma_stack_underflow_is_malformed(ops: Seq<OpView>, i: int, full_only: bool)
    requires
        0 <= i < ops.len(),
        ops[i] is Parent || ops[i] is Child,
        run_spec(Seq::empty(), ops.take(i), full_only) is Ok,
        run_spec(Seq::empty(), ops.take(i), full_only)->Ok_0.len() < 2,
    ensures
        execute_spec(ops, full_only) == Err::<ProofTreeView, ChunkError>(ChunkError::MalformedProof),
{
    lemma_run_from(ops, i, full_only);
}

proof fn lemma_run_from(ops: Seq<OpView>, i: int, full_only: bool)
    requires
        0 <= i < ops.len(),
    ensures
        run_spec(Seq::empty(), ops, full_only) == match run_spec(
            Seq::empty(),
            ops.take(i),
            full_only,
        ) {
            Ok(s) => match step_spec(s, ops[i], full_only) {
                Ok(s2) => run_spec(s2, ops.skip(i + 1), full_only),
                Err(e) => Err(e),
            },
            Err(e) => Err(e),
        },
{
    assert(ops =~= ops.take(i) + ops.skip(i));
    lemma_run_append(Seq::empty(), ops.take(i), ops.skip(i), full_only);
    assert(ops.skip(i)[0] == ops[i]);
    assert(ops.skip(i).drop_first() =~= ops.skip(i + 1));
}

/// A leaf chunk holding an opaque `Hash` or `KVHash` node never executes; it
/// fails as an unexpected node kind when the operations before that node are
/// well formed.
pub proof fn lemma_abridged_node_rejected_in_leaf(ops: Seq<OpView>, i: int)
    requires
        0 <= i < ops.len(),
        ops[i] is Push,
        !(ops[i]->Push_0 is KV),
    ensures
        execute_spec(ops, true) is Err,
        run_spec(Seq::empty(), ops.take(i), true) is Ok ==> execute_spec(ops, true) == Err::<
            ProofTreeView,
            ChunkError,
        >(ChunkError::UnexpectedNodeKind),
{
    lemma_run_from(ops, i, true);
}

/// Whether the node kinds of a rebuilt tree suit a trunk `remaining` levels
/// deep, wherever a node is present.
pub open spec fn trunk_kinds_ok(t: ProofTreeView, remaining: nat, leftmost: bool) -> bool
    decreases t,
{
    if remaining == 0 {
        if leftmost {
            t.node is KVHash
        } else {
            t.node is Hash
        }
    } else {
        &&& t.node is KV
        &&& match t.left {
            Some(l) => trunk_kinds_ok(*l, (remaining - 1) as nat, leftmost),
            None => true,
        }
        &&& match t.right {
            Some(r) => trunk_kinds_ok(*r, (remaining - 1) as nat, false),
            None => true,
        }
    }
}

/// Whether a node fewer than `remaining` levels down lacks a child.
pub open spec fn trunk_missing_child(t: ProofTreeView, remaining: nat) -> bool
    decreases t,
{
    remaining > 0 && match (t.left, t.right) {
        (Some(l), Some(r)) => trunk_missing_child(*l, (remaining - 1) as nat)
            || trunk_missing_child(*r, (remaining - 1) as nat),
        _ => true,
    }
}

proof fn lemma_completeness_when_kinds_ok(t: ProofTreeView, remaining: nat, leftmost: bool)
    requires
        trunk_kinds_ok(t, remaining, leftmost),
    ensures
        completeness_spec(t, remaining, leftmost) == if trunk_missing_child(t, remaining) {
            Err::<(), ChunkError>(ChunkError::IncompleteTrunk)
        } else {
            Ok(())
        },
    decreases t,
{
    if remaining > 0 {
        if let Some(l) = t.left {
            lemma_completeness_when_kinds_ok(*l, (remaining - 1) as nat, leftmost);
        }
        if let Some(r) = t.right {
            lemma_completeness_when_kinds_ok(*r, (remaining - 1) as nat, false);
        }
    }
}

/// A trunk proof whose rebuilt tree has a valid height proof and nodes of the
/// right kinds, but lacks a child above the frontier, fails as an incomplete
/// trunk.
pub proof fn lemma_missing_child_is_incomplete_trunk(ops: Seq<OpView>)
    requires
        execute_spec(ops, false) is Ok,
        height_proof_spec(execute_spec(ops, false)->Ok_0) is Ok,
        trunk_kinds_ok(
            execute_spec(ops, false)->Ok_0,
            (height_proof_spec(execute_spec(ops, false)->Ok_0)->Ok_0 / 2) as nat,
            true,
        ),
        trunk_missing_child(
            execute_spec(ops, false)->Ok_0,
            (height_proof_spec(execute_spec(ops, false)->Ok_0)->Ok_0 / 2) as nat,
        ),
    ensures
        verify_trunk_spec(ops) == Err::<(ProofTreeView, usize), ChunkError>(
            ChunkError::IncompleteTrunk,
        ),
{
    let t = execute_spec(ops, false)->Ok_0;
    let h = height_proof_spec(t)->Ok_0;
    lemma_completeness_when_kinds_ok(t, (h / 2) as nat, true);
}

/// Verifying the same operations twice gives the same outcome, and on success
/// rebuilt trees with the same root digest.
pub proof fn lemma_verification_is_deterministic(a: Seq<OpView>, b: Seq<OpView>)
    requires
        a == b,
    ensures
        verify_trunk_spec(a) == verify_trunk_spec(b),
        verify_trunk_spec(a) is Ok ==> tree_hash(verify_trunk_spec(a)->Ok_0.0) == tree_hash(
            verify_trunk_spec(b)->Ok_0.0,
        ),
        execute_spec(a, true) == execute_spec(b, true),
        execute_spec(a, true) is Ok ==> tree_hash(execute_spec(a, true)->Ok_0) == tree_hash(
            execute_spec(b, true)->Ok_0,
        ),
{
}

} // verus!
