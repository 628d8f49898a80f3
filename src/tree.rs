use vstd::prelude::*;

use crate::hash::{kv_hash, kv_hash_spec, node_hash, node_hash_spec, null_hash, null_hash_spec, Digest};

verus! {

/// A node of the source tree, held in memory with its whole subtree.
#[derive(Debug)]
pub struct Tree {
    pub key: Vec<u8>,
    pub value: Vec<u8>,
    pub left: Option<Box<Tree>>,
    pub right: Option<Box<Tree>>,
}

/// Digest of a source subtree.
pub open spec fn src_hash(t: Tree) -> Seq<u8>
    decreases t,
{
    let l = match t.left {
        Some(c) => src_hash(*c),
        None => null_hash_spec(),
    };
    let r = match t.right {
        Some(c) => src_hash(*c),
        None => null_hash_spec(),
    };
    node_hash_spec(kv_hash_spec(t.key@, t.value@), l, r)
}

/// Number of nodes on the longest path from `t` down.
pub open spec fn src_height(t: Tree) -> nat
    decreases t,
{
    let l = match t.left {
        Some(c) => src_height(*c),
        None => 0,
    };
    let r = match t.right {
        Some(c) => src_height(*c),
        None => 0,
    };
    1 + if l > r { l } else { r }
}

/// Number of nodes on the path that always goes left from `t`.
pub open spec fn left_depth(t: Tree) -> nat
    decreases t,
{
    match t.left {
        Some(c) => 1 + left_depth(*c),
        None => 1,
    }
}

impl Tree {
    /// A tree of one node.
    pub fn new(key: Vec<u8>, value: Vec<u8>) -> (r: Tree)
        ensures
            r.key@ == key@,
            r.value@ == value@,
            r.left is None,
            r.right is None,
    {
        Tree { key, value, left: None, right: None }
    }

    /// This tree with `child` as its left (`left`) or right child, replacing
    /// what stood there.
    pub fn attach(self, left: bool, child: Option<Tree>) -> (r: Tree)
        ensures
            r.key == self.key,
            r.value == self.value,
            left ==> r.right == self.right,
            !left ==> r.left == self.left,
            left ==> r.left == match child {
                Some(c) => Some(Box::new(c)),
                None => None::<Box<Tree>>,
            },
            !left ==> r.right == match child {
                Some(c) => Some(Box::new(c)),
                None => None::<Box<Tree>>,
            },
    {
        let boxed = match child {
            Some(c) => Some(Box::new(c)),
            None => None,
        };
        let mut t = self;
        if left {
            t.left = boxed;
        } else {
            t.right = boxed;
        }
        t
    }

    /// Digest of this node's own key-value pair.
    pub fn kv_hash(&self) -> (r: Digest)
        ensures
            r@ == kv_hash_spec(self.key@, self.value@),
    {
        kv_hash(&self.key, &self.value)
    }

    /// Digest of this subtree.
    pub fn hash(&self) -> (r: Digest)
        ensures
            r@ == src_hash(*self),
        decreases self,
    {
        let l = match &self.left {
            Some(c) => c.hash(),
            None => null_hash(),
        };
        let r = match &self.right {
            Some(c) => c.hash(),
            None => null_hash(),
        };
        node_hash(&self.kv_hash(), &l, &r)
    }
}

} // verus!
