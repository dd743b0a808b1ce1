use blake2::digest::typenum;
use blake2::Digest;
use merkletree::hasher::PairHasher;
use merkletree::tree::position::{level_band, NodePosition};
use merkletree::tree::tree_size::{NonZeroCount, TreeSize, TreeSizeError};
use merkletree::tree::MerkleTree;

type Blake2bHasher = blake2::Blake2b<typenum::U32>;

/// A 256-bit node value.
#[derive(Debug, Clone, Copy, PartialEq, Eq)]
pub struct HashedData([u8; 32]);

impl HashedData {
    pub fn zero() -> Self {
        HashedData([0u8; 32])
    }

    pub fn from_low_u64_be(value: u64) -> Self {
        let mut bytes = [0u8; 32];
        bytes[24..].copy_from_slice(&value.to_be_bytes());
        HashedData(bytes)
    }
}

impl AsRef<[u8]> for HashedData {
    fn as_ref(&self) -> &[u8] {
        &self.0
    }
}

#[derive(Debug, Clone)]
pub struct HashAlgo(Blake2bHasher);

impl HashAlgo {
    pub fn new() -> Self {
        Self(Blake2bHasher::new())
    }

    pub fn write<T: AsRef<[u8]>>(&mut self, in_bytes: T) {
        Digest::update(&mut self.0, in_bytes);
    }

    pub fn finalize(&mut self) -> HashedData {
        HashedData(self.0.finalize_reset().into())
    }
}

impl PairHasher for HashAlgo {
    type NodeType = HashedData;

    fn hash_pair(left: &Self::NodeType, right: &Self::NodeType) -> Self::NodeType {
        let mut h = HashAlgo::new();
        h.write(left);
        h.write(right);
        h.finalize()
    }

    fn hash_single(data: &Self::NodeType) -> Self::NodeType {
        let mut h = HashAlgo::new();
        h.write(data);
        h.finalize()
    }
}

pub fn hash_data<T: AsRef<[u8]>>(data: T) -> HashedData {
    let mut h = HashAlgo::new();
    h.write(data);
    h.finalize()
}


type Tree = MerkleTree<HashedData, HashAlgo>;

fn tree_of(count: usize) -> Tree {
    let leaves = (0..count).map(|i| HashedData::from_low_u64_be(i as u64)).collect();
    Tree::from_leaves(leaves).unwrap()
}

#[test]
fn node_count_is_twice_the_next_power_of_two_less_one() {
    for count in 1usize..=70 {
        let tree = tree_of(count);
        let padded = count.next_power_of_two();
        assert_eq!(tree.total_node_count().get(), 2 * padded - 1);
        assert_eq!(tree.leaf_count().get(), padded);
        assert_eq!(tree.level_count().get(), padded.trailing_zeros() as usize + 1);
    }
}

#[test]
fn top_node_is_the_root() {
    for count in 1usize..=20 {
        let tree = tree_of(count);
        let top = tree.level_count().get() - 1;
        assert_eq!(tree.node_value_from_bottom(top, 0), Some(tree.root()));
        assert!(tree.node_from_bottom(top, 0).unwrap().is_root());
        assert_eq!(*tree.node_from_bottom(top, 0).unwrap().hash(), tree.root());
    }
}

#[test]
fn padding_is_a_chain_of_single_hashes() {
    let tree = tree_of(9);
    assert_eq!(tree.leaf_count().get(), 16);
    let mut expected = HashedData::from_low_u64_be(8);
    for index in 9..16 {
        expected = HashAlgo::hash_single(&expected);
        assert_eq!(tree.node_value_from_bottom(0, index), Some(expected));
    }
    for index in 0..9 {
        assert_eq!(
            tree.node_value_from_bottom(0, index),
            Some(HashedData::from_low_u64_be(index as u64))
        );
    }
}

#[test]
fn every_node_above_the_leaves_is_the_hash_of_its_children() {
    let tree = tree_of(11);
    for level in 1..tree.level_count().get() {
        let width = tree.leaf_count().get() >> level;
        for index in 0..width {
            let left = tree.node_value_from_bottom(level - 1, 2 * index).unwrap();
            let right = tree.node_value_from_bottom(level - 1, 2 * index + 1).unwrap();
            assert_eq!(
                tree.node_value_from_bottom(level, index),
                Some(HashAlgo::hash_pair(&left, &right))
            );
        }
    }
}

#[test]
fn sibling_flips_the_last_bit_and_parent_halves() {
    let tree = tree_of(16);
    let levels = tree.level_count().get();
    for level in 0..levels {
        let width = tree.leaf_count().get() >> level;
        for index in 0..width {
            let node = tree.node_from_bottom(level, index).unwrap();
            let size = tree.total_node_count();
            let position = NodePosition::from_position(size, level, index).unwrap();
            assert_eq!(node.abs_index(), position.abs_index());
            assert_eq!(position.position(), (level, index));
            assert_eq!(node.into_position(), position);
            if level + 1 == levels {
                assert!(node.sibling().is_none());
                assert!(node.parent().is_none());
                assert!(position.sibling().is_none());
                assert!(position.parent().is_none());
                assert!(node.is_root() && !node.is_left() && !node.is_right());
            } else {
                let sibling = node.sibling().unwrap().into_position();
                assert_eq!(sibling.position(), (level, index ^ 1));
                assert_eq!(position.sibling().unwrap(), sibling);
                let parent = node.parent().unwrap().into_position();
                assert_eq!(parent.position(), (level + 1, index / 2));
                assert_eq!(position.parent().unwrap(), parent);
                assert_eq!(node.is_left(), index % 2 == 0);
                assert_eq!(node.is_right(), index % 2 == 1);
                assert!(!position.is_root());
                assert_eq!(position.is_left(), index % 2 == 0);
                assert_eq!(position.is_right(), index % 2 == 1);
            }
        }
    }
}

#[test]
fn walk_yields_one_node_of_each_level_and_ends_at_the_root() {
    for count in [1usize, 2, 4, 7, 16] {
        let tree = tree_of(count);
        let levels = tree.level_count().get();
        for leaf in 0..tree.leaf_count().get() {
            let mut first = tree.iter_from_leaf_to_root(leaf).unwrap();
            let mut second = tree.node_from_bottom(0, leaf).unwrap().into_iter_parents();
            let mut yielded = Vec::new();
            while let Some(node) = first.next() {
                assert_eq!(second.next().unwrap().abs_index(), node.abs_index());
                assert!(std::ptr::eq(node.tree(), &tree));
                yielded.push(node.into_position().position());
            }
            assert!(first.next().is_none());
            assert!(second.next().is_none());
            let expected: Vec<(usize, usize)> =
                (0..levels).map(|level| (level, leaf >> level)).collect();
            assert_eq!(yielded, expected);
        }
    }
}

#[test]
fn tree_size_is_twice_a_power_of_two_less_one() {
    assert_eq!(TreeSize::from_value(0), Err(TreeSizeError::ZeroSize));
    assert_eq!(TreeSize::try_from(0usize), Err(TreeSizeError::ZeroSize));
    for value in [2usize, 4, 5, 6, 8, 9, 10, 11, 12, 13, 14, 16, 100, usize::MAX - 1] {
        assert_eq!(TreeSize::from_value(value), Err(TreeSizeError::InvalidSize(value)));
        assert_eq!(TreeSize::try_from(value), Err(TreeSizeError::InvalidSize(value)));
    }
    for levels in 1..=usize::BITS {
        let value = usize::MAX >> (usize::BITS - levels);
        let size = TreeSize::from_value(value).unwrap();
        assert_eq!(size.get(), value);
        assert_eq!(size.level_count().get(), levels as usize);
        assert_eq!(size.leaf_count().get(), value / 2 + 1);
        assert_eq!(TreeSize::from_leaf_count(value / 2 + 1), Some(size));
    }
    for leaf_count in [0usize, 3, 5, 6, 7, 9, 1000, usize::MAX] {
        assert_eq!(TreeSize::from_leaf_count(leaf_count), None);
    }
}

#[test]
fn non_zero_count_has_no_zero() {
    assert_eq!(NonZeroCount::new(0), None);
    assert_eq!(NonZeroCount::new(1).unwrap().get(), 1);
    assert_eq!(NonZeroCount::new(usize::MAX).unwrap().get(), usize::MAX);
}

#[test]
fn levels_lie_one_behind_the_other() {
    let size = TreeSize::from_value(15).unwrap();
    assert_eq!(level_band(size, 0), Some((0, 8)));
    assert_eq!(level_band(size, 1), Some((8, 4)));
    assert_eq!(level_band(size, 2), Some((12, 2)));
    assert_eq!(level_band(size, 3), Some((14, 1)));
    assert_eq!(level_band(size, 4), None);
    assert_eq!(NodePosition::from_abs_index(size, 15), None);
    assert_eq!(NodePosition::from_abs_index(size, 13).unwrap().position(), (2, 1));
    assert_eq!(NodePosition::from_abs_index(size, 13).unwrap().tree_size(), size);
    assert_eq!(NodePosition::from_position(size, 2, 2), None);
    assert_eq!(NodePosition::from_position(size, 4, 0), None);
}
