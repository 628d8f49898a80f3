use merk::chunk::{verify_leaf, verify_trunk, RefWalker};
use merk::error::ChunkError;
use merk::leaf::{get_next_chunk, NodeCursor, StoredNode};
use merk::ops::{execute, Node, NodeKind, Op, ProofTree};
use merk::tree::Tree;

struct NodeCounts {
    hash: usize,
    kvhash: usize,
    kv: usize,
}

fn count_node_types(tree: &ProofTree) -> NodeCounts {
    let mut counts = NodeCounts { hash: 0, kvhash: 0, kv: 0 };
    for kind in tree.kinds() {
        match kind {
            NodeKind::Hash => counts.hash += 1,
            NodeKind::KVHash => counts.kvhash += 1,
            NodeKind::KV => counts.kv += 1,
        }
    }
    counts
}

fn seq_key(n: u64) -> Vec<u8> {
    n.to_be_bytes().to_vec()
}

/// A perfectly balanced tree over the sequential keys `lo..hi`.
fn make_tree_range(lo: u64, hi: u64) -> Option<Tree> {
    if lo >= hi {
        return None;
    }
    let mid = lo + (hi - lo) / 2;
    let node = Tree::new(seq_key(mid), vec![123; 60]);
    let node = node.attach(true, make_tree_range(lo, mid));
    Some(node.attach(false, make_tree_range(mid + 1, hi)))
}

fn make_tree_seq(n: u64) -> Tree {
    make_tree_range(0, n).unwrap()
}

/// The stored form of a tree: one entry per node, sorted by key.
fn stored_nodes(tree: &Tree, out: &mut Vec<StoredNode>) {
    if let Some(left) = &tree.left {
        stored_nodes(left, out);
    }
    out.push(StoredNode {
        key: tree.key.clone(),
        value: tree.value.clone(),
        left: tree.left.as_ref().map(|c| c.key.clone()),
        right: tree.right.as_ref().map(|c| c.key.clone()),
    });
    if let Some(right) = &tree.right {
        stored_nodes(right, out);
    }
}

fn cursor_over(tree: &Tree) -> NodeCursor {
    let mut entries = Vec::new();
    stored_nodes(tree, &mut entries);
    NodeCursor::new(entries)
}

fn kv(key: u8) -> Op {
    Op::Push(Node::KV(vec![key], vec![]))
}

#[test]
fn trunk_roundtrip() {
    let tree = make_tree_seq(31);
    let walker = RefWalker::new(&tree);

    let proof = walker.create_trunk_proof().unwrap();
    let (trunk, _) = verify_trunk(&proof).unwrap();

    let counts = count_node_types(&trunk);
    // counted based on the deterministic structure of this 31-node tree
    assert_eq!(counts.hash, 5);
    assert_eq!(counts.kv, 3);
    assert_eq!(counts.kvhash, 3);
}

#[test]
fn three_node_tree_trunk_roundtrip() {
    //   1
    //  / \
    // 0   2
    let tree = Tree::new(vec![1], vec![])
        .attach(true, Some(Tree::new(vec![0], vec![])))
        .attach(false, Some(Tree::new(vec![2], vec![])));

    let walker = RefWalker::new(&tree);
    let proof = walker.create_trunk_proof().unwrap();

    let (trunk, _) = verify_trunk(&proof).unwrap();
    let counts = count_node_types(&trunk);
    assert_eq!(counts.hash, 1);
    assert_eq!(counts.kv, 1);
    assert_eq!(counts.kvhash, 1);
}

#[test]
fn trunk_reports_leftmost_path_length_and_root_hash() {
    let tree = make_tree_seq(31);
    let proof = RefWalker::new(&tree).create_trunk_proof().unwrap();
    let (trunk, height) = verify_trunk(&proof).unwrap();
    assert_eq!(height, 5);
    assert_eq!(trunk.hash(), tree.hash());
}

#[test]
fn one_node_trunk_is_a_single_pair_digest() {
    let tree = Tree::new(vec![0], vec![]);
    let proof = RefWalker::new(&tree).create_trunk_proof().unwrap();
    let (trunk, height) = verify_trunk(&proof).unwrap();
    assert_eq!(height, 1);
    let counts = count_node_types(&trunk);
    assert_eq!((counts.hash, counts.kv, counts.kvhash), (0, 0, 1));
    assert_eq!(trunk.hash(), tree.hash());
}

#[test]
fn right_heavy_two_node_trunk_roundtrip() {
    // 0
    //  \
    //   1
    let tree = Tree::new(vec![0], vec![]).attach(false, Some(Tree::new(vec![1], vec![])));
    let proof = RefWalker::new(&tree).create_trunk_proof().unwrap();
    let (trunk, height) = verify_trunk(&proof).unwrap();
    assert_eq!(height, 1);
    let counts = count_node_types(&trunk);
    assert_eq!((counts.hash, counts.kv, counts.kvhash), (1, 0, 1));
}

#[test]
fn left_heavy_two_node_trunk_is_incomplete() {
    //   1
    //  /
    // 0
    let tree = Tree::new(vec![1], vec![]).attach(true, Some(Tree::new(vec![0], vec![])));
    let proof = RefWalker::new(&tree).create_trunk_proof().unwrap();
    assert!(matches!(verify_trunk(&proof), Err(ChunkError::IncompleteTrunk)));
}

#[test]
fn trunk_missing_child_above_frontier_is_incomplete() {
    // a left path of four nodes under a root with no right child
    let chain = Tree::new(vec![3], vec![])
        .attach(true, Some(Tree::new(vec![2], vec![])
            .attach(true, Some(Tree::new(vec![1], vec![])
                .attach(true, Some(Tree::new(vec![0], vec![])))))));
    let tree = Tree::new(vec![4], vec![]).attach(true, Some(chain));
    let proof = RefWalker::new(&tree).create_trunk_proof().unwrap();
    assert!(matches!(verify_trunk(&proof), Err(ChunkError::IncompleteTrunk)));
}

#[test]
fn trunk_with_hash_on_spine_is_refused() {
    let ops = vec![
        Op::Push(Node::Hash([1; 20])),
        kv(1),
        Op::Parent,
    ];
    assert!(matches!(verify_trunk(&ops), Err(ChunkError::UnexpectedNodeKind)));
}

#[test]
fn trunk_with_wrong_frontier_kind_is_refused() {
    // height 2, so the frontier is one level down and must hold a KVHash on
    // the left and a Hash on the right
    let ops = vec![
        Op::Push(Node::KVHash([1; 20])),
        kv(1),
        Op::Parent,
        Op::Push(Node::KVHash([2; 20])),
        Op::Child,
    ];
    assert!(matches!(verify_trunk(&ops), Err(ChunkError::UnexpectedNodeKind)));
}

#[test]
fn leaf_chunk_whole_tree() {
    let tree = make_tree_seq(31);
    let mut iter = cursor_over(&tree);
    let chunk = get_next_chunk(&mut iter, None).unwrap();
    assert!(!iter.valid());
    let chunk = verify_leaf(&chunk, tree.hash()).unwrap();
    let counts = count_node_types(&chunk);
    assert_eq!(counts.kv, 31);
    assert_eq!(counts.hash, 0);
    assert_eq!(counts.kvhash, 0);
}

#[test]
fn leaf_chunks_split_at_root() {
    let tree = make_tree_seq(31);
    let root_key = tree.key.clone();
    let mut iter = cursor_over(&tree);

    let left = get_next_chunk(&mut iter, Some(&root_key)).unwrap();
    assert_eq!(iter.pos, 16);
    let left = verify_leaf(&left, tree.left.as_ref().unwrap().hash()).unwrap();
    let counts = count_node_types(&left);
    assert_eq!((counts.kv, counts.hash, counts.kvhash), (15, 0, 0));

    let right = get_next_chunk(&mut iter, None).unwrap();
    assert!(!iter.valid());
    let right = verify_leaf(&right, tree.right.as_ref().unwrap().hash()).unwrap();
    let counts = count_node_types(&right);
    assert_eq!((counts.kv, counts.hash, counts.kvhash), (15, 0, 0));
}

#[test]
fn leaf_chunk_ops_of_three_nodes() {
    let tree = Tree::new(vec![1], vec![])
        .attach(true, Some(Tree::new(vec![0], vec![])))
        .attach(false, Some(Tree::new(vec![2], vec![])));
    let mut iter = cursor_over(&tree);
    let ops = get_next_chunk(&mut iter, None).unwrap();
    let shape: Vec<&str> = ops
        .iter()
        .map(|op| match op {
            Op::Push(_) => "push",
            Op::Parent => "parent",
            Op::Child => "child",
        })
        .collect();
    assert_eq!(shape, vec!["push", "push", "parent", "push", "child"]);
}

#[test]
fn leaf_with_hash_node_is_refused() {
    let ops = vec![Op::Push(Node::Hash([0; 20]))];
    assert!(matches!(verify_leaf(&ops, [0; 20]), Err(ChunkError::UnexpectedNodeKind)));
}

#[test]
fn leaf_with_kvhash_node_is_refused() {
    let ops = vec![kv(0), Op::Push(Node::KVHash([0; 20])), Op::Parent];
    assert!(matches!(verify_leaf(&ops, [0; 20]), Err(ChunkError::UnexpectedNodeKind)));
}

#[test]
fn leaf_with_wrong_hash_is_refused() {
    let tree = Tree::new(vec![1], vec![2]);
    let ops = vec![Op::Push(Node::KV(vec![1], vec![2]))];
    match verify_leaf(&ops, [7; 20]) {
        Err(ChunkError::HashMismatch { expected, actual }) => {
            assert_eq!(expected, [7; 20]);
            assert_eq!(actual, tree.hash());
        }
        other => panic!("unexpected outcome: {:?}", other),
    }
}

#[test]
fn two_entries_left_on_stack_is_malformed() {
    let ops = vec![kv(0), kv(1)];
    assert!(matches!(execute(&ops, false), Err(ChunkError::MalformedProof)));
    assert!(matches!(verify_trunk(&ops), Err(ChunkError::MalformedProof)));
    assert!(matches!(verify_leaf(&ops, [0; 20]), Err(ChunkError::MalformedProof)));
}

#[test]
fn empty_proof_is_malformed() {
    let ops: Vec<Op> = Vec::new();
    assert!(matches!(execute(&ops, false), Err(ChunkError::MalformedProof)));
}

#[test]
fn parent_on_short_stack_is_malformed() {
    let ops = vec![kv(0), Op::Parent];
    assert!(matches!(execute(&ops, false), Err(ChunkError::MalformedProof)));
    let ops = vec![kv(0), Op::Child];
    assert!(matches!(execute(&ops, false), Err(ChunkError::MalformedProof)));
}

#[test]
fn attaching_twice_is_malformed() {
    let ops = vec![kv(0), kv(1), Op::Parent, kv(2), Op::Child, kv(3), Op::Child];
    assert!(matches!(execute(&ops, false), Err(ChunkError::MalformedProof)));
}

#[test]
fn verifying_twice_gives_same_root_hash() {
    let tree = make_tree_seq(31);
    let proof = RefWalker::new(&tree).create_trunk_proof().unwrap();
    let (a, ha) = verify_trunk(&proof).unwrap();
    let (b, hb) = verify_trunk(&proof).unwrap();
    assert_eq!(a.hash(), b.hash());
    assert_eq!(ha, hb);

    let mut iter = cursor_over(&tree);
    let chunk = get_next_chunk(&mut iter, None).unwrap();
    let a = verify_leaf(&chunk, tree.hash()).unwrap();
    let b = verify_leaf(&chunk, tree.hash()).unwrap();
    assert_eq!(a.hash(), b.hash());
}

#[test]
fn single_node_hash_is_blake2b_of_its_pair() {
    let tree = Tree::new(vec![1], vec![2]);
    assert_eq!(
        tree.kv_hash(),
        [134, 103, 149, 7, 44, 231, 75, 227, 255, 178, 46, 149, 173, 42, 249, 35, 100, 231, 203, 91]
    );
    assert_eq!(
        tree.hash(),
        [199, 140, 133, 219, 149, 23, 196, 96, 130, 167, 52, 13, 86, 187, 82, 88, 35, 219, 174, 39]
    );
}

#[test]
fn leaf_chunk_roundtrip() {
    let tree = make_tree_seq(31);
    let root_key = tree.key.clone();

    // whole tree as 1 leaf
    let mut iter = cursor_over(&tree);
    let chunk = get_next_chunk(&mut iter, None).unwrap();
    let chunk = verify_leaf(&chunk, tree.hash()).unwrap();
    let counts = count_node_types(&chunk);
    assert_eq!(counts.kv, 31);
    assert_eq!(counts.hash, 0);
    assert_eq!(counts.kvhash, 0);

    let mut iter = cursor_over(&tree);

    // left leaf
    let chunk = get_next_chunk(&mut iter, Some(&root_key)).unwrap();
    let chunk = verify_leaf(
        &chunk,
        [
            10, 147, 175, 167, 145, 38, 181, 73, 116, 253, 95, 138, 110, 222, 254, 197, 189,
            68, 11, 151,
        ],
    )
    .unwrap();
    let counts = count_node_types(&chunk);
    assert_eq!(counts.kv, 15);
    assert_eq!(counts.hash, 0);
    assert_eq!(counts.kvhash, 0);

    // right leaf
    let chunk = get_next_chunk(&mut iter, None).unwrap();
    let chunk = verify_leaf(
        &chunk,
        [
            128, 166, 214, 176, 167, 251, 11, 84, 228, 2, 97, 239, 253, 75, 184, 16, 137, 134,
            72, 154,
        ],
    )
    .unwrap();
    let counts = count_node_types(&chunk);
    assert_eq!(counts.kv, 15);
    assert_eq!(counts.hash, 0);
    assert_eq!(counts.kvhash, 0);
}


#[test]
fn leaf_chunk_of_unbalanced_tree() {
    //     3
    //    / \
    //   1   4
    //  / \   \
    // 0   2   6
    //        /
    //       5
    let tree = Tree::new(vec![3], vec![30])
        .attach(true, Some(Tree::new(vec![1], vec![10])
            .attach(true, Some(Tree::new(vec![0], vec![])))
            .attach(false, Some(Tree::new(vec![2], vec![20])))))
        .attach(false, Some(Tree::new(vec![4], vec![40])
            .attach(false, Some(Tree::new(vec![6], vec![60])
                .attach(true, Some(Tree::new(vec![5], vec![50])))))));
    let mut iter = cursor_over(&tree);
    let chunk = get_next_chunk(&mut iter, None).unwrap();
    let rebuilt = verify_leaf(&chunk, tree.hash()).unwrap();
    assert_eq!(rebuilt.kinds().len(), 7);
    assert_eq!(rebuilt.hash(), tree.hash());
}

#[test]
fn three_node_trunk_ops() {
    let tree = Tree::new(vec![1], vec![])
        .attach(true, Some(Tree::new(vec![0], vec![])))
        .attach(false, Some(Tree::new(vec![2], vec![])));
    let ops = RefWalker::new(&tree).create_trunk_proof().unwrap();
    assert_eq!(ops.len(), 5);
    let left_kv_hash = tree.left.as_ref().unwrap().kv_hash();
    let right_hash = tree.right.as_ref().unwrap().hash();
    assert!(matches!(&ops[0], Op::Push(Node::KVHash(h)) if *h == left_kv_hash));
    assert!(matches!(&ops[1], Op::Push(Node::KV(k, v)) if *k == vec![1] && v.is_empty()));
    assert!(matches!(&ops[2], Op::Parent));
    assert!(matches!(&ops[3], Op::Push(Node::Hash(h)) if *h == right_hash));
    assert!(matches!(&ops[4], Op::Child));
}
