use kaspa_atan::bitmap::{bitmap_bit_at, MutableBitmap};
use kaspa_atan::hash::{bit_at, is_sorted, zero_hash, Hash256, DEPTH};
use kaspa_atan::hasher::{empty_hashes, SeqCommitActiveNode, SmtHasher};
use kaspa_atan::proof_multi::{OwnedSmtMultiProof, SmtMultiProofError};
use kaspa_atan::proof_single::{OwnedSmtProof, ProofTerminal, SmtProofError};
use kaspa_atan::store::{BranchKey, CollapsedLeaf, MemoryStore, Node, SmtStore};
use kaspa_atan::tree::{ProveError, SparseMerkleTree};
use kaspa_hashes::HasherBase;

type TestHasher = SeqCommitActiveNode;
type Smt = SparseMerkleTree<TestHasher, MemoryStore>;

fn test_key(seed: &[u8]) -> Hash256 {
    let mut h = kaspa_hashes::SeqCommitActiveNode::new();
    h.update(b"test_key:");
    h.update(seed);
    Hash256(h.finalize().as_bytes())
}

fn test_leaf(seed: &[u8]) -> Hash256 {
    let mut h = kaspa_hashes::SeqCommitActiveNode::new();
    h.update(b"test_leaf:");
    h.update(seed);
    Hash256(h.finalize().as_bytes())
}

enum Sub {
    Empty,
    Collapsed(CollapsedLeaf),
    Internal(Hash256),
}

fn sub_hash(s: &Sub, parent_depth: usize, empties: &[Hash256]) -> Hash256 {
    match s {
        Sub::Empty => empties[DEPTH - 1 - parent_depth],
        Sub::Collapsed(cl) => TestHasher::hash_collapsed(&cl.lane_key, &cl.leaf_hash),
        Sub::Internal(h) => *h,
    }
}

/// Builds the stored nodes of the subtree at `depth` holding the sorted `leaves`.
fn build(store: &mut MemoryStore, leaves: &[(Hash256, Hash256)], depth: usize, empties: &[Hash256]) -> Sub {
    if leaves.is_empty() {
        return Sub::Empty;
    }
    let bk = BranchKey::new(depth as u8, &leaves[0].0);
    if leaves.len() == 1 {
        let cl = CollapsedLeaf { lane_key: leaves[0].0, leaf_hash: leaves[0].1 };
        if depth < DEPTH {
            store.insert_node(bk, Some(Node::Collapsed(cl)));
        }
        return Sub::Collapsed(cl);
    }
    let split = leaves.iter().position(|(k, _)| bit_at(k, depth)).unwrap_or(leaves.len());
    let (left, right) = leaves.split_at(split);
    let (l, r) = if depth == DEPTH - 1 {
        let side = |part: &[(Hash256, Hash256)]| match part {
            [] => Sub::Empty,
            [(k, v)] => Sub::Collapsed(CollapsedLeaf { lane_key: *k, leaf_hash: *v }),
            _ => panic!("duplicate keys"),
        };
        (side(left), side(right))
    } else {
        (build(store, left, depth + 1, empties), build(store, right, depth + 1, empties))
    };
    let hash = TestHasher::hash_node(&sub_hash(&l, depth, empties), &sub_hash(&r, depth, empties));
    store.insert_node(bk, Some(Node::Internal(hash)));
    Sub::Internal(hash)
}

/// A tree holding the given leaves (keys distinct).
fn tree_of(leaves: &[(Hash256, Hash256)]) -> Smt {
    let mut sorted = leaves.to_vec();
    sorted.sort_by(|a, b| a.0.cmp(&b.0));
    let empties = empty_hashes::<TestHasher>();
    let mut store = MemoryStore::new();
    for (k, v) in &sorted {
        store.insert_leaf(*k, Some(*v));
    }
    let root = match build(&mut store, &sorted, 0, &empties) {
        Sub::Empty => empties[DEPTH],
        Sub::Collapsed(cl) => TestHasher::hash_collapsed(&cl.lane_key, &cl.leaf_hash),
        Sub::Internal(h) => h,
    };
    SparseMerkleTree::from_root(store, root)
}

fn nine_leaves() -> Vec<(Hash256, Hash256)> {
    (0..9u32).map(|i| (test_key(&i.to_le_bytes()), test_leaf(&i.to_le_bytes()))).collect()
}

#[test]
fn test_multi_proof() {
    let leaves = nine_leaves();
    let tree = tree_of(&leaves);
    let mut keys_with_leaf_hashes: Vec<(Hash256, Hash256)> =
        leaves.iter().enumerate().filter(|(i, _)| i % 5 == 0).map(|(_, kv)| *kv).collect();
    keys_with_leaf_hashes.sort_by(|a, b| a.0.cmp(&b.0));
    let keys = keys_with_leaf_hashes.iter().map(|(key, _)| *key).collect::<Vec<_>>();
    let proof = tree.prove_multiple(&keys).ok().unwrap();
    assert!(
        proof.as_proof().verify::<TestHasher>(&keys_with_leaf_hashes, tree.root()).unwrap(),
        "multi_proof failed"
    );
}

fn sorted_subset(leaves: &[(Hash256, Hash256)], pick: impl Fn(usize) -> bool) -> Vec<(Hash256, Hash256)> {
    let mut v: Vec<(Hash256, Hash256)> = leaves.iter().enumerate().filter(|(i, _)| pick(*i)).map(|(_, kv)| *kv).collect();
    v.sort_by(|a, b| a.0.cmp(&b.0));
    v
}

fn keys_of(kv: &[(Hash256, Hash256)]) -> Vec<Hash256> {
    kv.iter().map(|(k, _)| *k).collect()
}

#[test]
fn bit_at_reads_most_significant_bit_first() {
    let mut bytes = [0u8; 32];
    bytes[0] = 0x80;
    bytes[1] = 0x01;
    bytes[31] = 0x01;
    let key = Hash256(bytes);
    assert!(bit_at(&key, 0));
    assert!(!bit_at(&key, 1));
    assert!(!bit_at(&key, 8));
    assert!(bit_at(&key, 15));
    assert!(bit_at(&key, 255));
    assert!(!bit_at(&key, 254));
}

#[test]
fn zero_hash_is_all_zero_bytes() {
    assert_eq!(zero_hash(), Hash256([0u8; 32]));
    assert_eq!(Hash256::from_bytes([7u8; 32]).as_bytes(), [7u8; 32]);
}

#[test]
fn is_sorted_compares_bytes_lexicographically() {
    let a = Hash256([1u8; 32]);
    let mut b_bytes = [1u8; 32];
    b_bytes[31] = 2;
    let b = Hash256(b_bytes);
    assert!(is_sorted(&[]));
    assert!(is_sorted(&[a]));
    assert!(is_sorted(&[a, a, b]));
    assert!(!is_sorted(&[b, a]));
}

#[test]
fn test_branch_key_depth_255() {
    let key = Hash256([0xFF; 32]);
    let bk = BranchKey::new(255, &key);
    assert_eq!(bk.depth, 255);
    let mut expected = [0xFF; 32];
    expected[31] = 0xFE;
    assert_eq!(bk.node_key, Hash256(expected));
}

#[test]
fn test_branch_key_depth_247() {
    let key = Hash256([0xFF; 32]);
    let bk = BranchKey::new(247, &key);
    let mut expected = [0xFF; 32];
    expected[30] = 0xFE;
    expected[31] = 0x00;
    assert_eq!(bk.node_key, Hash256(expected));
}

#[test]
fn test_branch_key_depth_0() {
    let key = Hash256([0xFF; 32]);
    let bk = BranchKey::new(0, &key);
    assert_eq!(bk.node_key, Hash256([0x00; 32]));
}

#[test]
fn test_branch_key_partial_byte() {
    let key = Hash256([0xFF; 32]);
    let bk = BranchKey::new(252, &key);
    let mut expected = [0xFF; 32];
    expected[31] = 0xF0;
    assert_eq!(bk.node_key, Hash256(expected));
}

#[test]
fn child_branch_key_sets_the_branching_bit() {
    let key = Hash256([0xFF; 32]);
    let parent = BranchKey::new(9, &key);
    let left = kaspa_atan::store::child_branch_key(&parent, false);
    let right = kaspa_atan::store::child_branch_key(&parent, true);
    let mut left_key = [0u8; 32];
    left_key[0] = 0xFF;
    left_key[1] = 0x80;
    assert_eq!(left, BranchKey { depth: 10, node_key: Hash256(left_key) });
    assert_eq!(right, BranchKey::new(10, &key));
    assert_eq!(kaspa_atan::store::flip_bit(&key, 9).0[1], 0xBF);
}

#[test]
fn memory_store_newest_write_wins() {
    let mut store = MemoryStore::new();
    let key = Hash256([1; 32]);
    let val = Hash256([2; 32]);
    assert_eq!(store.get_leaf(&key), Ok(None));
    store.insert_leaf(key, Some(val));
    assert_eq!(store.get_leaf(&key), Ok(Some(val)));
    store.insert_leaf(key, None);
    assert_eq!(store.get_leaf(&key), Ok(None));
    let bk = BranchKey { depth: 5, node_key: zero_hash() };
    let hash = Hash256([1; 32]);
    assert_eq!(store.get_node(&bk), Ok(None));
    store.insert_node(bk, Some(Node::Internal(hash)));
    assert_eq!(store.get_node(&bk), Ok(Some(Node::Internal(hash))));
}

#[test]
fn mutable_bitmap_appends_least_significant_bit_first() {
    let mut bm = MutableBitmap::new();
    assert_eq!(bm.len(), 0);
    let bits = [true, false, false, true, false, false, false, false, true, true];
    for b in bits {
        bm.append(b);
    }
    assert_eq!(bm.len(), 10);
    let bytes = bm.bitmap();
    assert_eq!(bytes, vec![0b0000_1001, 0b0000_0011]);
    for (i, b) in bits.iter().enumerate() {
        assert_eq!(bitmap_bit_at(&bytes, i), *b);
    }
}

#[test]
fn empty_hashes_hash_two_empty_children() {
    let e = empty_hashes::<TestHasher>();
    assert_eq!(e.len(), DEPTH + 1);
    assert_eq!(e[0], zero_hash());
    assert_eq!(e[1], TestHasher::hash_node(&e[0], &e[0]));
    assert_eq!(e[DEPTH], TestHasher::hash_node(&e[DEPTH - 1], &e[DEPTH - 1]));
}

#[test]
fn node_hasher_hashes_the_concatenation() {
    let a = Hash256([3u8; 32]);
    let b = Hash256([4u8; 32]);
    let mut data = a.0.to_vec();
    data.extend_from_slice(&b.0);
    let direct = <kaspa_hashes::SeqCommitActiveNode as kaspa_hashes::Hasher>::hash(&data);
    assert_eq!(TestHasher::hash_node(&a, &b), Hash256(direct.as_bytes()));
    assert_ne!(TestHasher::hash_node(&a, &b), TestHasher::hash_node(&b, &a));
    let collapsed = <kaspa_hashes::SeqCommitActiveCollapsedNode as kaspa_hashes::Hasher>::hash(&data);
    assert_eq!(TestHasher::hash_collapsed(&a, &b), Hash256(collapsed.as_bytes()));
    assert_ne!(TestHasher::hash_collapsed(&a, &b), TestHasher::hash_node(&a, &b));
}

#[test]
fn single_proof_of_each_present_key_verifies() {
    let leaves = nine_leaves();
    let tree = tree_of(&leaves);
    for (key, leaf) in &leaves {
        let proof = tree.prove(key).ok().unwrap();
        assert_eq!(proof.compute_root::<TestHasher>(key, Some(*leaf)), Ok(tree.root()));
        assert_eq!(proof.verify::<TestHasher>(key, Some(*leaf), tree.root()), Ok(true));
        assert_eq!(proof.verify::<TestHasher>(key, Some(Hash256([9u8; 32])), tree.root()), Ok(false));
        assert_eq!(proof.verify::<TestHasher>(key, None, tree.root()), Ok(false));
    }
}

#[test]
fn single_proof_of_an_absent_key_proves_exclusion() {
    let leaves = nine_leaves();
    let tree = tree_of(&leaves);
    let absent = test_key(b"absent");
    let proof = tree.prove(&absent).ok().unwrap();
    assert_eq!(proof.verify::<TestHasher>(&absent, None, tree.root()), Ok(true));
    assert_eq!(proof.verify::<TestHasher>(&absent, Some(test_leaf(b"absent")), tree.root()), Ok(false));
}

#[test]
fn single_proof_in_an_empty_tree() {
    let tree = tree_of(&[]);
    assert_eq!(tree.root(), empty_hashes::<TestHasher>()[DEPTH]);
    let key = test_key(b"k");
    let proof = tree.prove(&key).ok().unwrap();
    assert_eq!(proof.terminal, ProofTerminal::Full);
    assert!(proof.siblings.is_empty());
    assert_eq!(proof.bitmap, [0xFF; 32]);
    assert_eq!(proof.verify::<TestHasher>(&key, None, tree.root()), Ok(true));
}

#[test]
fn single_proof_of_a_lone_leaf_is_collapsed_at_the_root() {
    let key = test_key(b"only");
    let leaf = test_leaf(b"only");
    let tree = tree_of(&[(key, leaf)]);
    let proof = tree.prove(&key).ok().unwrap();
    assert_eq!(proof.terminal, ProofTerminal::Collapsed { depth: 0 });
    assert_eq!(proof.verify::<TestHasher>(&key, Some(leaf), tree.root()), Ok(true));
    let other = test_key(b"other");
    let proof_other = tree.prove(&other).ok().unwrap();
    assert!(matches!(proof_other.terminal, ProofTerminal::CollapsedOther { depth: 0, .. }));
    assert_eq!(proof_other.verify::<TestHasher>(&other, None, tree.root()), Ok(true));
}

#[test]
fn single_proof_with_a_missing_sibling_is_rejected() {
    let leaves = nine_leaves();
    let tree = tree_of(&leaves);
    let (key, leaf) = leaves[3];
    let mut proof = tree.prove(&key).ok().unwrap();
    assert!(!proof.siblings.is_empty());
    let expected = proof.siblings.len();
    proof.siblings.pop();
    assert_eq!(
        proof.compute_root::<TestHasher>(&key, Some(leaf)),
        Err(SmtProofError::SiblingCountMismatch { expected, actual: expected - 1 })
    );
}

#[test]
fn multi_proof_of_every_key_verifies() {
    let leaves = nine_leaves();
    let tree = tree_of(&leaves);
    let kv = sorted_subset(&leaves, |_| true);
    let proof = tree.prove_multiple(&keys_of(&kv)).ok().unwrap();
    assert_eq!(proof.terminals.len(), kv.len());
    assert_eq!(proof.as_proof().compute_root::<TestHasher>(&kv), Ok(tree.root()));
}

#[test]
fn multi_proof_of_one_key_verifies() {
    let leaves = nine_leaves();
    let tree = tree_of(&leaves);
    for i in 0..leaves.len() {
        let kv = sorted_subset(&leaves, |j| j == i);
        let proof = tree.prove_multiple(&keys_of(&kv)).ok().unwrap();
        assert_eq!(proof.as_proof().verify::<TestHasher>(&kv, tree.root()), Ok(true));
    }
}

#[test]
fn multi_proof_with_a_wrong_leaf_does_not_verify() {
    let leaves = nine_leaves();
    let tree = tree_of(&leaves);
    let mut kv = sorted_subset(&leaves, |i| i % 2 == 0);
    let proof = tree.prove_multiple(&keys_of(&kv)).ok().unwrap();
    kv[1].1 = Hash256([5u8; 32]);
    assert_eq!(proof.as_proof().verify::<TestHasher>(&kv, tree.root()), Ok(false));
}

#[test]
fn multi_proof_of_unsorted_keys_is_refused() {
    let leaves = nine_leaves();
    let tree = tree_of(&leaves);
    let mut keys = keys_of(&sorted_subset(&leaves, |_| true));
    keys.swap(0, 1);
    assert!(matches!(tree.prove_multiple(&keys), Err(ProveError::KeysNotSorted)));
}

#[test]
fn multi_proof_of_a_repeated_key_is_refused() {
    let leaves = nine_leaves();
    let tree = tree_of(&leaves);
    let key = leaves[4].0;
    match tree.prove_multiple(&[key, key]) {
        Err(ProveError::TerminalForMultipleKeys(v)) => assert_eq!(v, vec![key, key]),
        _ => panic!("expected TerminalForMultipleKeys"),
    }
}

#[test]
fn multi_proof_of_a_key_beside_a_lone_leaf_is_refused() {
    let key = test_key(b"only");
    let tree = tree_of(&[(key, test_leaf(b"only"))]);
    let other = test_key(b"other");
    assert!(matches!(
        tree.prove_multiple(&[other]),
        Err(ProveError::CollapsedOtherInMultiProof(ProofTerminal::CollapsedOther { depth: 0, .. }))
    ));
}

#[test]
fn multi_proof_of_a_key_in_an_empty_tree_is_refused() {
    let tree = tree_of(&[]);
    let key = test_key(b"k");
    match tree.prove_multiple(&[key]) {
        Err(ProveError::EmptySubtreeKey(k)) => assert_eq!(k, key),
        _ => panic!("expected EmptySubtreeKey"),
    }
}

#[test]
fn multi_proof_verification_errors() {
    let leaves = nine_leaves();
    let tree = tree_of(&leaves);
    let kv = sorted_subset(&leaves, |i| i % 3 == 0);
    let proof = tree.prove_multiple(&keys_of(&kv)).ok().unwrap();

    let short = &kv[..kv.len() - 1];
    assert_eq!(
        proof.as_proof().compute_root::<TestHasher>(short),
        Err(SmtMultiProofError::KeyWithLeafHashesCountMismatch { expected: kv.len(), actual: kv.len() - 1 })
    );

    let mut unsorted = kv.clone();
    unsorted.swap(0, 1);
    assert_eq!(
        proof.as_proof().compute_root::<TestHasher>(&unsorted),
        Err(SmtMultiProofError::KeyWithLeafHashesAreNotSorted)
    );

    let mut fewer = OwnedSmtMultiProof {
        bitmap: proof.bitmap.clone(),
        total_sibling_count: proof.total_sibling_count,
        siblings: proof.siblings.clone(),
        terminals: proof.terminals.clone(),
    };
    let expected = fewer.siblings.len();
    fewer.siblings.pop();
    assert_eq!(
        fewer.as_proof().compute_root::<TestHasher>(&kv),
        Err(SmtMultiProofError::SiblingCountMismatch { expected, actual: expected - 1 })
    );

    let mut other = proof.clone();
    other.terminals[0] = ProofTerminal::CollapsedOther { depth: 3, leaf: CollapsedLeaf { lane_key: zero_hash(), leaf_hash: zero_hash() } };
    assert_eq!(other.as_proof().compute_root::<TestHasher>(&kv), Err(SmtMultiProofError::CollapsedOtherInMultiProof));
}

#[test]
fn multi_proof_with_an_extra_sibling_is_refused() {
    let key = test_key(b"only");
    let leaf = test_leaf(b"only");
    let tree = tree_of(&[(key, leaf)]);
    let proof = OwnedSmtMultiProof {
        bitmap: vec![0],
        total_sibling_count: 1,
        siblings: vec![Hash256([1u8; 32])],
        terminals: vec![ProofTerminal::Collapsed { depth: 0 }],
    };
    assert_eq!(
        proof.as_proof().compute_root::<TestHasher>(&[(key, leaf)]),
        Err(SmtMultiProofError::MoreSiblingsThenNeeded)
    );
    let exact = tree.prove_multiple(&[key]).ok().unwrap();
    assert_eq!(exact.total_sibling_count, 0);
    assert_eq!(exact.as_proof().compute_root::<TestHasher>(&[(key, leaf)]), Ok(tree.root()));
}

#[test]
fn bitmap_value_at_index_reads_the_proof_bitmap() {
    let proof = OwnedSmtMultiProof {
        bitmap: vec![0b0000_0101, 0b1000_0000],
        total_sibling_count: 16,
        siblings: vec![],
        terminals: vec![],
    };
    let p = proof.as_proof();
    assert!(p.bitmap_value_at_index(0));
    assert!(!p.bitmap_value_at_index(1));
    assert!(p.bitmap_value_at_index(2));
    assert!(p.bitmap_value_at_index(15));
    assert!(!p.bitmap_value_at_index(14));
}

#[test]
fn multi_proof_without_the_siblings_a_key_needs_is_refused() {
    let key = test_key(b"full");
    let leaf = test_leaf(b"full");
    let proof = OwnedSmtMultiProof {
        bitmap: vec![],
        total_sibling_count: 0,
        siblings: vec![],
        terminals: vec![ProofTerminal::Full],
    };
    assert_eq!(
        proof.as_proof().compute_root::<TestHasher>(&[(key, leaf)]),
        Err(SmtMultiProofError::MissingSiblings)
    );
}

#[test]
fn multi_proof_with_keys_that_never_merge_is_refused() {
    let leaves = nine_leaves();
    let tree = tree_of(&leaves);
    let kv = sorted_subset(&leaves, |i| i < 2);
    let proof = tree.prove_multiple(&keys_of(&kv)).ok().unwrap();
    let cut = OwnedSmtMultiProof {
        bitmap: vec![],
        total_sibling_count: 0,
        siblings: vec![],
        terminals: proof.terminals.clone(),
    };
    assert_eq!(cut.as_proof().compute_root::<TestHasher>(&kv), Err(SmtMultiProofError::MissingSiblings));
}

#[test]
fn multi_proof_of_one_key_is_its_single_proof_reversed() {
    let leaves = nine_leaves();
    let tree = tree_of(&leaves);
    for (key, _) in &leaves {
        let single = tree.prove(key).ok().unwrap();
        let multi = tree.prove_multiple(&[*key]).ok().unwrap();
        let n = multi.total_sibling_count;
        assert!(n > 0);
        assert_eq!(multi.terminals, vec![single.terminal]);
        let mut reversed = single.siblings.clone();
        reversed.reverse();
        assert_eq!(multi.siblings, reversed);
        let p = multi.as_proof();
        for i in 0..n {
            assert_eq!(p.bitmap_value_at_index(i), bitmap_bit_at(&single.bitmap, n - 1 - i));
        }
    }
}

#[test]
fn multi_proof_with_a_short_bitmap_is_refused_after_the_key_checks() {
    let key = test_key(b"short");
    let leaf = test_leaf(b"short");
    let proof = OwnedSmtMultiProof {
        bitmap: vec![0],
        total_sibling_count: 9,
        siblings: vec![],
        terminals: vec![ProofTerminal::Collapsed { depth: 3 }],
    };
    assert_eq!(
        proof.as_proof().compute_root::<TestHasher>(&[(key, leaf)]),
        Err(SmtMultiProofError::BitmapTooShort { total_sibling_count: 9, bitmap_len: 1 })
    );
    assert_eq!(
        proof.as_proof().verify::<TestHasher>(&[(key, leaf)], zero_hash()),
        Err(SmtMultiProofError::BitmapTooShort { total_sibling_count: 9, bitmap_len: 1 })
    );
    assert_eq!(
        proof.as_proof().compute_root::<TestHasher>(&[]),
        Err(SmtMultiProofError::KeyWithLeafHashesCountMismatch { expected: 1, actual: 0 })
    );
    let other = test_key(b"other");
    let (a, b) = if is_sorted(&[key, other]) { (other, key) } else { (key, other) };
    let two = OwnedSmtMultiProof {
        bitmap: vec![],
        total_sibling_count: usize::MAX,
        siblings: vec![],
        terminals: vec![ProofTerminal::Full, ProofTerminal::Full],
    };
    assert_eq!(
        two.as_proof().compute_root::<TestHasher>(&[(a, leaf), (b, leaf)]),
        Err(SmtMultiProofError::KeyWithLeafHashesAreNotSorted)
    );
}

#[test]
fn multi_proof_of_an_absent_key_alone_is_refused() {
    let leaves = nine_leaves();
    let tree = tree_of(&leaves);
    let absent = test_key(b"absent");
    assert!(leaves.iter().all(|(k, _)| *k != absent));
    assert!(tree.prove_multiple(&[absent]).is_err());
}

#[test]
fn multi_proof_splits_twins_of_the_last_bit_without_reading() {
    let c = test_key(b"twin");
    let mut c2 = c;
    c2.0[31] ^= 0x02;
    let mut a = c;
    a.0[31] ^= 0x01;
    let mut leaves = vec![(c, test_leaf(b"c")), (c2, test_leaf(b"c2"))];
    leaves.sort();
    let tree = tree_of(&leaves);
    let mut keys = vec![a, c];
    keys.sort();
    // The absent key `a` shares its path with `c` down to the last level, where the two part
    // ways; the generation splits them there without reading the store.
    let proof = tree.prove_multiple(&keys).ok().unwrap();
    assert_eq!(proof.terminals, vec![ProofTerminal::Full, ProofTerminal::Full]);
}
