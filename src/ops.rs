use vstd::prelude::*;

use crate::error::ChunkError;
use crate::hash::{
    kv_hash, kv_hash_spec, node_hash, node_hash_spec, null_hash, null_hash_spec, Digest,
};

verus! {

/// What one proof step asserts about a subtree.
#[derive(Debug)]
pub enum Node {
    /// An opaque commitment: the subtree is hidden and this is its digest.
    Hash(Digest),
    /// The digest of a hidden key-value pair at this position.
    KVHash(Digest),
    /// A key and value revealed in full.
    KV(Vec<u8>, Vec<u8>),
}

/// The mathematical value of a [`Node`].
pub enum NodeView {
    Hash(Seq<u8>),
    KVHash(Seq<u8>),
    KV(Seq<u8>, Seq<u8>),
}

impl View for Node {
    type V = NodeView;

    open spec fn view(&self) -> NodeView {
        match self {
            Node::Hash(h) => NodeView::Hash(h@),
            Node::KVHash(h) => NodeView::KVHash(h@),
            Node::KV(k, v) => NodeView::KV(k@, v@),
        }
    }
}

/// One instruction of the stack machine that builds a tree bottom-up.
#[derive(Debug)]
pub enum Op {
    /// Pushes a subtree made of one node.
    Push(Node),
    /// Pops the top subtree and the one below it, and attaches the second as
    /// the left child of the first, which goes back on the stack.
    Parent,
    /// Pops the top subtree and the one below it, and attaches the first as
    /// the right child of the second, which goes back on the stack.
    Child,
}

/// The mathematical value of an [`Op`].
pub enum OpView {
    Push(NodeView),
    Parent,
    Child,
}

impl View for Op {
    type V = OpView;

    open spec fn view(&self) -> OpView {
        match self {
            Op::Push(n) => OpView::Push(n@),
            Op::Parent => OpView::Parent,
            Op::Child => OpView::Child,
        }
    }
}

pub open spec fn ops_view(ops: Seq<Op>) -> Seq<OpView> {
    ops.map_values(|o: Op| o@)
}

pub proof fn lemma_ops_view_push(v: Seq<Op>, o: Op)
    ensures
        ops_view(v.push(o)) == ops_view(v).push(o@),
{
    assert(ops_view(v.push(o)) =~= ops_view(v).push(o@));
}

/// Kind of a node, without its contents.
#[derive(Debug, Clone, Copy, PartialEq, Eq, Structural)]
pub enum NodeKind {
    Hash,
    KVHash,
    KV,
}

pub open spec fn kind_of(n: NodeView) -> NodeKind {
    match n {
        NodeView::Hash(_) => NodeKind::Hash,
        NodeView::KVHash(_) => NodeKind::KVHash,
        NodeView::KV(_, _) => NodeKind::KV,
    }
}

/// A tree rebuilt by executing a proof: a node and at most two children.
pub struct ProofTreeView {
    pub node: NodeView,
    pub left: Option<Box<ProofTreeView>>,
    pub right: Option<Box<ProofTreeView>>,
}

pub open spec fn leaf_view(n: NodeView) -> ProofTreeView {
    ProofTreeView { node: n, left: None, right: None }
}

/// Digest of a rebuilt subtree. A `Hash` node stands for its whole subtree.
pub open spec fn tree_hash(t: ProofTreeView) -> Seq<u8>
    decreases t,
{
    let l = match t.left {
        Some(c) => tree_hash(*c),
        None => null_hash_spec(),
    };
    let r = match t.right {
        Some(c) => tree_hash(*c),
        None => null_hash_spec(),
    };
    match t.node {
        NodeView::Hash(h) => h,
        NodeView::KVHash(h) => node_hash_spec(h, l, r),
        NodeView::KV(k, v) => node_hash_spec(kv_hash_spec(k, v), l, r),
    }
}

/// Kinds of the nodes of a rebuilt tree, in order: left subtree, node, right
/// subtree.
pub open spec fn tree_kinds(t: ProofTreeView) -> Seq<NodeKind>
    decreases t,
{
    let l = match t.left {
        Some(c) => tree_kinds(*c),
        None => Seq::empty(),
    };
    let r = match t.right {
        Some(c) => tree_kinds(*c),
        None => Seq::empty(),
    };
    l.push(kind_of(t.node)) + r
}

/// A tree rebuilt by executing a proof.
#[derive(Debug)]
pub struct ProofTree {
    pub node: Node,
    pub left: Option<Box<ProofTree>>,
    pub right: Option<Box<ProofTree>>,
}

pub open spec fn proof_tree_view(t: ProofTree) -> ProofTreeView
    decreases t,
{
    ProofTreeView {
        node: t.node@,
        left: match t.left {
            Some(c) => Some(Box::new(proof_tree_view(*c))),
            None => None,
        },
        right: match t.right {
            Some(c) => Some(Box::new(proof_tree_view(*c))),
            None => None,
        },
    }
}

impl View for ProofTree {
    type V = ProofTreeView;

    open spec fn view(&self) -> ProofTreeView {
        proof_tree_view(*self)
    }
}

impl ProofTree {
    /// The digest of this subtree.
    pub fn hash(&self) -> (r: Digest)
        ensures
            r@ == tree_hash(self@),
        decreases self,
    {
        let l = match &self.left {
            Some(c) => c.hash(),
            None => null_hash(),
        };
        let r = match &self.right {
            Some(c) => c.hash(),
            None => null_hash(),
        };
        match &self.node {
            Node::Hash(h) => *h,
            Node::KVHash(h) => node_hash(h, &l, &r),
            Node::KV(k, v) => node_hash(&kv_hash(k, v), &l, &r),
        }
    }

    /// Appends the kinds of this subtree's nodes, in key order, to `out`.
    pub fn collect_kinds(&self, out: &mut Vec<NodeKind>)
        ensures
            final(out)@ == old(out)@ + tree_kinds(self@),
        decreases self,
    {
        if let Some(c) = &self.left {
            c.collect_kinds(out);
        }
        out.push(node_kind(&self.node));
        if let Some(c) = &self.right {
            c.collect_kinds(out);
        }
        assert(final(out)@ =~= old(out)@ + tree_kinds(self@));
    }

    /// The kinds of this subtree's nodes, in key order.
    pub fn kinds(&self) -> (r: Vec<NodeKind>)
        ensures
            r@ == tree_kinds(self@),
    {
        let mut out: Vec<NodeKind> = Vec::new();
        self.collect_kinds(&mut out);
        assert(out@ =~= tree_kinds(self@));
        out
    }
}

pub fn node_kind(n: &Node) -> (r: NodeKind)
    ensures
        r == kind_of(n@),
{
    match n {
        Node::Hash(_) => NodeKind::Hash,
        Node::KVHash(_) => NodeKind::KVHash,
        Node::KV(_, _) => NodeKind::KV,
    }
}


/// `parent` with `child` attached on the given side; attaching where a child
/// already stands is malformed.
pub open spec fn attach_spec(parent: ProofTreeView, left: bool, child: ProofTreeView) -> Result<
    ProofTreeView,
    ChunkError,
> {
    if left {
        if parent.left is Some {
            Err(ChunkError::MalformedProof)
        } else {
            Ok(ProofTreeView { left: Some(Box::new(child)), ..parent })
        }
    } else {
        if parent.right is Some {
            Err(ChunkError::MalformedProof)
        } else {
            Ok(ProofTreeView { right: Some(Box::new(child)), ..parent })
        }
    }
}

/// Whether a node may be pushed: with `full_only`, only revealed pairs may.
pub open spec fn node_allowed(n: NodeView, full_only: bool) -> bool {
    !full_only || n is KV
}

/// One step of the stack machine.
pub open spec fn step_spec(stack: Seq<ProofTreeView>, op: OpView, full_only: bool) -> Result<
    Seq<ProofTreeView>,
    ChunkError,
> {
    match op {
        OpView::Push(n) => if node_allowed(n, full_only) {
            Ok(stack.push(leaf_view(n)))
        } else {
            Err(ChunkError::UnexpectedNodeKind)
        },
        OpView::Parent => if stack.len() < 2 {
            Err(ChunkError::MalformedProof)
        } else {
            match attach_spec(stack.last(), true, stack[stack.len() - 2]) {
                Ok(p) => Ok(stack.take(stack.len() - 2).push(p)),
                Err(e) => Err(e),
            }
        },
        OpView::Child => if stack.len() < 2 {
            Err(ChunkError::MalformedProof)
        } else {
            match attach_spec(stack[stack.len() - 2], false, stack.last()) {
                Ok(p) => Ok(stack.take(stack.len() - 2).push(p)),
                Err(e) => Err(e),
            }
        },
    }
}

/// Runs `ops` in order from `stack`, stopping at the first error.
pub open spec fn run_spec(stack: Seq<ProofTreeView>, ops: Seq<OpView>, full_only: bool) -> Result<
    Seq<ProofTreeView>,
    ChunkError,
>
    decreases ops.len(),
{
    if ops.len() == 0 {
        Ok(stack)
    } else {
        match step_spec(stack, ops[0], full_only) {
            Ok(s) => run_spec(s, ops.drop_first(), full_only),
            Err(e) => Err(e),
        }
    }
}

/// The tree that `ops` builds from an empty stack: the one entry left at the
/// end, or the first error met.
pub open spec fn execute_spec(ops: Seq<OpView>, full_only: bool) -> Result<
    ProofTreeView,
    ChunkError,
> {
    match run_spec(Seq::empty(), ops, full_only) {
        Ok(s) => if s.len() == 1 {
            Ok(s[0])
        } else {
            Err(ChunkError::MalformedProof)
        },
        Err(e) => Err(e),
    }
}

pub open spec fn tree_result_view(r: Result<ProofTree, ChunkError>) -> Result<
    ProofTreeView,
    ChunkError,
> {
    match r {
        Ok(t) => Ok(t@),
        Err(e) => Err(e),
    }
}

pub open spec fn stack_view(s: Seq<ProofTree>) -> Seq<ProofTreeView> {
    s.map_values(|t: ProofTree| t@)
}

/// Running `a + b` is running `a`, then `b` from where `a` left the stack.
pub proof fn lemma_run_append(
    stack: Seq<ProofTreeView>,
    a: Seq<OpView>,
    b: Seq<OpView>,
    full_only: bool,
)
    ensures
        run_spec(stack, a + b, full_only) == match run_spec(stack, a, full_only) {
            Ok(s) => run_spec(s, b, full_only),
            Err(e) => Err(e),
        },
    decreases a.len(),
{
    if a.len() == 0 {
        assert(a + b =~= b);
    } else {
        assert((a + b)[0] == a[0]);
        assert((a + b).drop_first() =~= a.drop_first() + b);
        match step_spec(stack, a[0], full_only) {
            Ok(s) => lemma_run_append(s, a.drop_first(), b, full_only),
            Err(_) => {},
        }
    }
}

/// A copy of `n`.
pub fn copy_node(n: &Node) -> (r: Node)
    ensures
        r@ == n@,
{
    match n {
        Node::Hash(h) => Node::Hash(*h),
        Node::KVHash(h) => Node::KVHash(*h),
        Node::KV(k, v) => Node::KV(k.clone(), v.clone()),
    }
}

/// Executes `ops` on the stack machine. With `full_only`, any node that is
/// not a revealed key-value pair is refused.
pub fn execute(ops: &Vec<Op>, full_only: bool) -> (r: Result<ProofTree, ChunkError>)
    ensures
        tree_result_view(r) == execute_spec(ops_view(ops@), full_only),
{
    let ghost all = ops_view(ops@);
    let mut stack: Vec<ProofTree> = Vec::new();
    let mut i: usize = 0;
    assert(all.skip(0) =~= all);
    assert(stack_view(stack@) =~= Seq::<ProofTreeView>::empty());
    while i < ops.len()
        invariant
            i <= ops@.len(),
            all == ops_view(ops@),
            run_spec(Seq::empty(), all, full_only) == run_spec(
                stack_view(stack@),
                all.skip(i as int),
                full_only,
            ),
        decreases ops@.len() - i,
    {
        let ghost before = stack_view(stack@);
        let ghost rest = all.skip(i as int);
        assert(rest[0] == ops@[i as int]@);
        assert(rest.drop_first() =~= all.skip(i + 1));
        match &ops[i] {
            Op::Push(n) => {
                let allowed = match n {
                    Node::KV(_, _) => true,
                    _ => !full_only,
                };
                if !allowed {
                    return Err(ChunkError::UnexpectedNodeKind);
                }
                stack.push(ProofTree { node: copy_node(n), left: None, right: None });
                assert(stack_view(stack@) =~= before.push(leaf_view(n@)));
            },
            Op::Parent => {
                if stack.len() < 2 {
                    return Err(ChunkError::MalformedProof);
                }
                let mut parent = stack.pop().unwrap();
                let child = stack.pop().unwrap();
                if parent.left.is_some() {
                    return Err(ChunkError::MalformedProof);
                }
                parent.left = Some(Box::new(child));
                stack.push(parent);
                assert(stack_view(stack@) =~= before.take(before.len() - 2).push(
                    attach_spec(before.last(), true, before[before.len() - 2])->Ok_0,
                ));
            },
            Op::Child => {
                if stack.len() < 2 {
                    return Err(ChunkError::MalformedProof);
                }
                let child = stack.pop().unwrap();
                let mut parent = stack.pop().unwrap();
                if parent.right.is_some() {
                    return Err(ChunkError::MalformedProof);
                }
                parent.right = Some(Box::new(child));
                stack.push(parent);
                assert(stack_view(stack@) =~= before.take(before.len() - 2).push(
                    attach_spec(before[before.len() - 2], false, before.last())->Ok_0,
                ));
            },
        }
        i = i + 1;
    }
    assert(all.skip(i as int).len() == 0);
    if stack.len() != 1 {
        return Err(ChunkError::MalformedProof);
    }
    let t = stack.pop().unwrap();
    Ok(t)
}

} // verus!
