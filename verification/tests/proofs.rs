use blake2::digest::typenum;
use blake2::Digest;
use merkletree::hasher::PairHasher;
use merkletree::proofs::multi::{MultiProofHashes, MultiProofNodes};
use merkletree::proofs::single::{SingleProofHashes, SingleProofNodes};
use merkletree::proofs::verify_result::ProofVerifyResult;
use merkletree::tree::{MerkleTree, MerkleTreeAccessError};
use std::collections::BTreeMap;

type Blake2bHasher = blake2::Blake2b<typenum::U32>;

/// A 256-bit node value.
#[derive(Debug, Clone, Copy, PartialEq, Eq)]
pub struct HashedData([u8; 32]);

impl HashedData {
    pub fn zero() -> Self {
        HashedData([0u8; 32])
    }

    pub fn from_low_u64_be(value: u64) -> Self {
        let mut bytes = [0u8; 32];
        bytes[24..].copy_from_slice(&value.to_be_bytes());
        HashedData(bytes)
    }
}

impl AsRef<[u8]> for HashedData {
    fn as_ref(&self) -> &[u8] {
        &self.0
    }
}

#[derive(Debug, Clone)]
pub struct HashAlgo(Blake2bHasher);

impl HashAlgo {
    pub fn new() -> Self {
        Self(Blake2bHasher::new())
    }

    pub fn write<T: AsRef<[u8]>>(&mut self, in_bytes: T) {
        Digest::update(&mut self.0, in_bytes);
    }

    pub fn finalize(&mut self) -> HashedData {
        HashedData(self.0.finalize_reset().into())
    }
}

impl PairHasher for HashAlgo {
    type NodeType = HashedData;

    fn hash_pair(left: &Self::NodeType, right: &Self::NodeType) -> Self::NodeType {
        let mut h = HashAlgo::new();
        h.write(left);
        h.write(right);
        h.finalize()
    }

    fn hash_single(data: &Self::NodeType) -> Self::NodeType {
        let mut h = HashAlgo::new();
        h.write(data);
        h.finalize()
    }
}

pub fn hash_data<T: AsRef<[u8]>>(data: T) -> HashedData {
    let mut h = HashAlgo::new();
    h.write(data);
    h.finalize()
}


type Tree = MerkleTree<HashedData, HashAlgo>;

fn leaves_of(count: usize) -> Vec<HashedData> {
    (0..count).map(|i| hash_data(HashedData::from_low_u64_be(i as u64))).collect()
}

fn tree_of(count: usize) -> Tree {
    Tree::from_leaves(leaves_of(count)).unwrap()
}

fn single_round_trip(tree: &Tree, index: usize) -> SingleProofHashes<HashedData, HashAlgo> {
    let detached = SingleProofNodes::from_tree_leaf(tree, index).unwrap().into_values();
    let leaf_index = detached.leaf_index_in_level();
    let branch = detached.into_hashes();
    SingleProofHashes::from_leaf_index_and_branch(leaf_index, branch)
}

fn multi_round_trip(tree: &Tree, indices: &[usize]) -> MultiProofHashes<HashedData, HashAlgo> {
    let detached = MultiProofNodes::from_tree_leaves(tree, indices).unwrap().into_values();
    let leaf_count = detached.tree_leaf_count();
    let nodes = detached.nodes().clone();
    MultiProofHashes::from_leaf_count_and_nodes(leaf_count, nodes)
}

fn leaf_map(tree: &Tree, indices: &[usize]) -> BTreeMap<usize, HashedData> {
    indices.iter().map(|i| (*i, tree.node_value_from_bottom(0, *i).unwrap())).collect()
}

#[test]
fn four_leaves_scenario() {
    let leaf0 = hash_data("0");
    let leaf1 = hash_data("1");
    let leaf2 = hash_data("2");
    let leaf3 = hash_data("3");
    let tree = Tree::from_leaves(vec![leaf0, leaf1, leaf2, leaf3]).unwrap();
    assert_eq!(tree.leaf_count().get(), 4);
    assert_eq!(tree.level_count().get(), 3);
    assert_eq!(tree.total_node_count().get(), 7);
    let root = HashAlgo::hash_pair(
        &HashAlgo::hash_pair(&leaf0, &leaf1),
        &HashAlgo::hash_pair(&leaf2, &leaf3),
    );
    assert_eq!(tree.root(), root);

    let single = single_round_trip(&tree, 2);
    assert_eq!(single.leaf_index_in_level(), 2);
    assert_eq!(single.branch(), &vec![leaf3, HashAlgo::hash_pair(&leaf0, &leaf1)]);
    assert_eq!(single.verify(leaf2, tree.root()), ProofVerifyResult::PassedDecisively);

    let multi = multi_round_trip(&tree, &[1, 3]);
    assert_eq!(multi.tree_leaf_count(), 4);
    let expected: BTreeMap<usize, HashedData> = [(0, leaf0), (2, leaf2)].into();
    assert_eq!(multi.nodes(), &expected);
    assert_eq!(
        multi.verify([(1, leaf1), (3, leaf3)].into(), tree.root()),
        ProofVerifyResult::PassedDecisively
    );
}

#[test]
fn single_proof_passes_for_every_leaf() {
    for count in 1..=17 {
        let tree = tree_of(count);
        for index in 0..tree.leaf_count().get() {
            let restored = single_round_trip(&tree, index);
            assert_eq!(restored.branch().len(), tree.level_count().get() - 1);
            let leaf = tree.node_value_from_bottom(0, index).unwrap();
            assert_eq!(restored.verify(leaf, tree.root()), ProofVerifyResult::PassedDecisively);
        }
    }
}

#[test]
fn single_proof_fails_for_another_leaf() {
    for count in 2..=9 {
        let tree = tree_of(count);
        let width = tree.leaf_count().get();
        for index in 0..width {
            let restored = single_round_trip(&tree, index);
            let other = tree.node_value_from_bottom(0, (index + 1) % width).unwrap();
            assert_eq!(restored.verify(other, tree.root()), ProofVerifyResult::FailedDecisively);
            let leaf = tree.node_value_from_bottom(0, index).unwrap();
            assert_eq!(
                restored.verify(leaf, hash_data("no root")),
                ProofVerifyResult::FailedDecisively
            );
        }
    }
}

#[test]
fn single_proof_branch_holds_the_siblings() {
    let tree = tree_of(8);
    let nodes = SingleProofNodes::from_tree_leaf(&tree, 5).unwrap();
    let indices: Vec<usize> = nodes.branch().iter().map(|node| node.abs_index()).collect();
    assert_eq!(indices, vec![4, 11, 12]);
    assert_eq!(nodes.leaf_index_in_level(), 5);
}

#[test]
fn single_proof_of_a_tree_with_one_leaf() {
    let tree = tree_of(1);
    let restored = single_round_trip(&tree, 0);
    assert!(restored.branch().is_empty());
    assert_eq!(restored.verify(tree.root(), tree.root()), ProofVerifyResult::PassedDecisively);
    assert_eq!(
        restored.verify(hash_data("other"), tree.root()),
        ProofVerifyResult::FailedDecisively
    );
}

#[test]
fn single_proof_with_a_branch_of_the_wrong_length_fails() {
    let tree = tree_of(8);
    let leaf = tree.node_value_from_bottom(0, 6).unwrap();
    let branch = single_round_trip(&tree, 6).into_hashes();
    let short = SingleProofHashes::<HashedData, HashAlgo>::from_leaf_index_and_branch(
        6,
        branch[..2].to_vec(),
    );
    assert_eq!(short.verify(leaf, tree.root()), ProofVerifyResult::FailedDecisively);
    let mut longer = branch.clone();
    longer.push(hash_data("more"));
    let long = SingleProofHashes::<HashedData, HashAlgo>::from_leaf_index_and_branch(6, longer);
    assert_eq!(long.verify(leaf, tree.root()), ProofVerifyResult::FailedDecisively);
    let empty = SingleProofHashes::<HashedData, HashAlgo>::from_leaf_index_and_branch(6, vec![]);
    assert_eq!(empty.verify(tree.root(), tree.root()), ProofVerifyResult::FailedDecisively);
    let far = SingleProofHashes::<HashedData, HashAlgo>::from_leaf_index_and_branch(14, branch);
    assert_eq!(far.verify(leaf, tree.root()), ProofVerifyResult::FailedDecisively);
}

#[test]
fn single_proof_is_refused_out_of_range() {
    for count in [1, 2, 3, 8, 13] {
        let tree = tree_of(count);
        let width = tree.leaf_count().get();
        for index in width..width + 100 {
            assert_eq!(
                SingleProofNodes::from_tree_leaf(&tree, index).unwrap_err(),
                MerkleTreeAccessError::LeafIndexOutOfRange(index, width)
            );
            assert_eq!(
                tree.iter_from_leaf_to_root(index).unwrap_err(),
                MerkleTreeAccessError::IterStartIndexOutOfRange(index, width)
            );
        }
    }
}

#[test]
fn multi_proof_carries_the_minimal_cover() {
    let tree = tree_of(8);
    let keys = |indices: &[usize]| -> Vec<usize> {
        multi_round_trip(&tree, indices).nodes().keys().copied().collect()
    };
    assert_eq!(keys(&[1, 3]), vec![0, 2, 13]);
    assert_eq!(keys(&[3, 1]), vec![0, 2, 13]);
    assert_eq!(keys(&[0]), vec![1, 9, 13]);
    assert_eq!(keys(&[0, 1]), vec![9, 13]);
    assert_eq!(keys(&[0, 7]), vec![1, 6, 9, 10]);
    assert_eq!(keys(&[0, 1, 2, 3, 4, 5, 6, 7]), Vec::<usize>::new());
    assert_eq!(keys(&[]), Vec::<usize>::new());
    let one = tree_of(1);
    let detached = MultiProofNodes::from_tree_leaves(&one, &[0]).unwrap().into_values();
    assert!(detached.nodes().is_empty());
    assert_eq!(detached.tree_leaf_count(), 1);
}

#[test]
fn multi_proof_values_are_those_of_the_tree() {
    let tree = tree_of(8);
    let proof = MultiProofNodes::from_tree_leaves(&tree, &[2, 5]).unwrap();
    assert_eq!(proof.leaf_indices(), &vec![2, 5]);
    assert_eq!(proof.tree_leaf_count(), 8);
    let detached = proof.into_values();
    let levels = [0, 0, 1, 1];
    let indices = [3, 4, 0, 3];
    let expected: Vec<(usize, HashedData)> = [3usize, 4, 8, 11]
        .iter()
        .zip(levels.iter().zip(indices.iter()))
        .map(|(abs, (level, index))| (*abs, tree.node_value_from_bottom(*level, *index).unwrap()))
        .collect();
    let carried: Vec<(usize, HashedData)> =
        detached.nodes().iter().map(|(abs, value)| (*abs, *value)).collect();
    assert_eq!(carried, expected);
}

#[test]
fn multi_proof_passes_for_every_subset() {
    for count in [1usize, 2, 3, 5, 8] {
        let tree = tree_of(count);
        let width = tree.leaf_count().get();
        for mask in 1u32..(1 << width) {
            let indices: Vec<usize> = (0..width).filter(|i| mask & (1 << i) != 0).collect();
            let restored = multi_round_trip(&tree, &indices);
            assert_eq!(
                restored.verify(leaf_map(&tree, &indices), tree.root()),
                ProofVerifyResult::PassedDecisively
            );
        }
    }
}

#[test]
fn multi_proof_fails_when_one_hash_is_changed() {
    let tree = tree_of(8);
    for mask in 1u32..(1 << 8) {
        let indices: Vec<usize> = (0..8).filter(|i| mask & (1 << i) != 0).collect();
        let restored = multi_round_trip(&tree, &indices);
        for changed in &indices {
            let mut leaves = leaf_map(&tree, &indices);
            leaves.insert(*changed, hash_data("changed"));
            assert_eq!(
                restored.verify(leaves, tree.root()),
                ProofVerifyResult::FailedDecisively
            );
        }
        let keys: Vec<usize> = restored.nodes().keys().copied().collect();
        for changed in keys {
            let mut nodes = restored.nodes().clone();
            nodes.insert(changed, hash_data("changed"));
            let tampered =
                MultiProofHashes::<HashedData, HashAlgo>::from_leaf_count_and_nodes(8, nodes);
            assert_eq!(
                tampered.verify(leaf_map(&tree, &indices), tree.root()),
                ProofVerifyResult::FailedDecisively
            );
        }
        assert_eq!(
            restored.verify(leaf_map(&tree, &indices), hash_data("no root")),
            ProofVerifyResult::FailedDecisively
        );
    }
}

#[test]
fn multi_proof_with_a_gap_fails() {
    let tree = tree_of(8);
    let restored = multi_round_trip(&tree, &[1, 6]);
    let keys: Vec<usize> = restored.nodes().keys().copied().collect();
    assert_eq!(keys, vec![0, 7, 9, 10]);
    for missing in keys {
        let mut nodes = restored.nodes().clone();
        nodes.remove(&missing);
        let gap = MultiProofHashes::<HashedData, HashAlgo>::from_leaf_count_and_nodes(8, nodes);
        assert_eq!(
            gap.verify(leaf_map(&tree, &[1, 6]), tree.root()),
            ProofVerifyResult::FailedDecisively
        );
    }
    assert_eq!(
        restored.verify(leaf_map(&tree, &[1]), tree.root()),
        ProofVerifyResult::FailedDecisively
    );
    assert_eq!(
        restored.verify(BTreeMap::new(), tree.root()),
        ProofVerifyResult::FailedDecisively
    );
}

#[test]
fn multi_proof_that_fits_no_tree_fails() {
    let tree = tree_of(8);
    let restored = multi_round_trip(&tree, &[1, 6]);
    let leaves = leaf_map(&tree, &[1, 6]);
    for leaf_count in [0usize, 3, 5, 6, 7, 9, 12, usize::MAX] {
        let odd = MultiProofHashes::<HashedData, HashAlgo>::from_leaf_count_and_nodes(
            leaf_count,
            restored.nodes().clone(),
        );
        assert_eq!(odd.verify(leaves.clone(), tree.root()), ProofVerifyResult::FailedDecisively);
    }
    let mut far_leaves = leaves.clone();
    far_leaves.insert(8, hash_data("far"));
    assert_eq!(restored.verify(far_leaves, tree.root()), ProofVerifyResult::FailedDecisively);
    let mut far_nodes = restored.nodes().clone();
    far_nodes.insert(15, hash_data("far"));
    let far = MultiProofHashes::<HashedData, HashAlgo>::from_leaf_count_and_nodes(8, far_nodes);
    assert_eq!(far.verify(leaves.clone(), tree.root()), ProofVerifyResult::FailedDecisively);
    assert_eq!(restored.verify(leaves, tree.root()), ProofVerifyResult::PassedDecisively);
}

#[test]
fn multi_proof_prefers_what_it_computes() {
    let tree = tree_of(4);
    let restored = multi_round_trip(&tree, &[0, 1]);
    let mut nodes = restored.nodes().clone();
    nodes.insert(4, hash_data("not the parent"));
    nodes.insert(0, hash_data("not the leaf"));
    let redundant = MultiProofHashes::<HashedData, HashAlgo>::from_leaf_count_and_nodes(4, nodes);
    assert_eq!(
        redundant.verify(leaf_map(&tree, &[0, 1]), tree.root()),
        ProofVerifyResult::PassedDecisively
    );
}

#[test]
fn multi_proof_is_refused_out_of_range_or_with_duplicates() {
    let tree = tree_of(5);
    assert_eq!(
        MultiProofNodes::from_tree_leaves(&tree, &[1, 8, 3, 9]).unwrap_err(),
        MerkleTreeAccessError::LeafIndexOutOfRange(8, 8)
    );
    assert_eq!(
        MultiProofNodes::from_tree_leaves(&tree, &[1, 3, 1, 3, 20]).unwrap_err(),
        MerkleTreeAccessError::LeafIndexOutOfRange(20, 8)
    );
    assert_eq!(
        MultiProofNodes::from_tree_leaves(&tree, &[4, 3, 7, 3, 4]).unwrap_err(),
        MerkleTreeAccessError::DuplicateLeafIndex(3)
    );
    assert!(MultiProofNodes::from_tree_leaves(&tree, &[7, 0, 4]).is_ok());
}

#[test]
fn verify_result_tells_pass_from_fail() {
    assert!(ProofVerifyResult::PassedDecisively.passed_decisively());
    assert!(!ProofVerifyResult::PassedDecisively.failed());
    assert!(ProofVerifyResult::FailedDecisively.failed());
    assert!(!ProofVerifyResult::FailedDecisively.passed_decisively());
    assert_eq!(ProofVerifyResult::from_bool(true), ProofVerifyResult::PassedDecisively);
    assert_eq!(ProofVerifyResult::from_bool(false), ProofVerifyResult::FailedDecisively);
}
