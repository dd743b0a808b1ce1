//! The tree: how it is built from its leaves, and how its nodes are read.

pub mod model;
pub mod node;
pub mod position;
pub mod shape;
pub mod tree_size;

use crate::hasher::{is_pure, pair_result, single_result, PairHasher};
use core::marker::PhantomData;
use model::{is_merkle_array, lemma_merkle_array_is_model, pad_to, padded_leaves, tree_nodes};
use node::{MerkleTreeNodeParentIterator, Node};
use position::NodePosition;
use shape::{
    abs_index_of, is_power_of_two, leaf_count_of, lemma_largest_leaf_count, lemma_levels,
    lemma_next_power_of_two, lemma_next_power_of_two_is_least, lemma_path_to_root,
    lemma_power_of_two_doubles, lemma_power_of_two_gap, lemma_power_of_two_unique,
    lemma_root_position, level_count_of, next_power_of_two, path_to_root, shift_down,
    valid_position, valid_tree_size,
};
use tree_size::{NonZeroCount, TreeSize};
use vstd::prelude::*;

verus! {

/// Why a tree cannot be built from a sequence of leaves.
#[derive(Debug, Clone, Copy, PartialEq, Eq, Structural)]
pub enum MerkleTreeFormError {
    /// The sequence holds too few leaves; the number is the count that was seen.
    TooSmall(usize),
}

/// Why a request for a leaf of a tree is refused. An index out of range comes
/// with the leaf count of the tree.
#[derive(Debug, Clone, Copy, PartialEq, Eq, Structural)]
pub enum MerkleTreeAccessError {
    /// A walk to the root was to start at a leaf that the tree does not have.
    IterStartIndexOutOfRange(usize, usize),
    /// A proof was asked for a leaf that the tree does not have.
    LeafIndexOutOfRange(usize, usize),
    /// A proof was asked for several leaves, and this index was named twice.
    DuplicateLeafIndex(usize),
}

/// A tree of hashes over a sequence of leaves.
///
/// The tree owns all of its nodes in one buffer: the leaves from left to right,
/// padded to a power of two, then each level above in turn, the root last. It is
/// built once and never changes.
#[derive(Debug)]
#[verifier::reject_recursive_types(T)]
#[verifier::reject_recursive_types(H)]
pub struct MerkleTree<T: Clone, H: PairHasher<NodeType = T>> {
    nodes: Vec<T>,
    size: TreeSize,
    _hasher: PhantomData<H>,
}

/// The least power of two that is at least `n`.
fn next_power_of_two_at_least(n: usize) -> (power: usize)
    requires
        n >= 1,
        next_power_of_two(n as nat) <= usize::MAX,
    ensures
        power == next_power_of_two(n as nat),
{
    let mut power: usize = 1;
    proof {
        lemma_next_power_of_two(n as nat);
        assert(is_power_of_two(1)) by {
            assert(shape::exp2(0) == 1);
        }
    }
    while power < n
        invariant
            n >= 1,
            next_power_of_two(n as nat) <= usize::MAX,
            is_power_of_two(next_power_of_two(n as nat)),
            n <= next_power_of_two(n as nat),
            is_power_of_two(power as nat),
            power >= 1,
            power == 1 || power / 2 < n,
        decreases 2 * n - power,
    {
        proof {
            lemma_power_of_two_gap(power as nat, next_power_of_two(n as nat));
            lemma_power_of_two_doubles(power as nat);
        }
        power = power * 2;
    }
    proof {
        lemma_power_of_two_unique(n as nat, power as nat, next_power_of_two(n as nat));
    }
    power
}

impl<T: Clone, H: PairHasher<NodeType = T>> MerkleTree<T, H> {
    /// The buffer has the size of a tree, and each node above the leaves came out
    /// of the pair hash of its two children.
    #[verifier::type_invariant]
    pub closed spec fn wf(self) -> bool {
        let leaf_count = leaf_count_of(self.nodes@.len());
        &&& self.size.wf()
        &&& self.size@ == self.nodes@.len()
        &&& valid_tree_size(self.nodes@.len())
        &&& forall|p: int|
            leaf_count <= p < self.nodes@.len() ==> pair_result::<H>(
                self.nodes@[2 * (p - leaf_count)],
                self.nodes@[2 * (p - leaf_count) + 1],
                #[trigger] self.nodes@[p],
            )
    }

    /// All nodes of the tree: the leaves first, the root last.
    pub closed spec fn view(self) -> Seq<T> {
        self.nodes@
    }

    /// The total node count.
    pub closed spec fn spec_size(self) -> TreeSize {
        self.size
    }

    /// The value of the root: the last node.
    pub open spec fn spec_root(self) -> T {
        self@.last()
    }

    /// The value of the node at `(level, index)`, if the tree has such a node.
    pub open spec fn spec_node_value(self, level: nat, index: nat) -> Option<T> {
        if valid_position(self@.len(), level, index) {
            Some(self@[abs_index_of(self@.len(), level, index) as int])
        } else {
            None
        }
    }

    /// A well-formed tree has the size of a tree, and each node above the leaves
    /// came out of the pair hash of its two children. With a pure hasher the tree
    /// is therefore the one tree over its own bottom level.
    pub proof fn lemma_wf(self)
        requires
            self.wf(),
        ensures
            valid_tree_size(self@.len()),
            self@.len() <= usize::MAX,
            self.spec_size()@ == self@.len(),
            self.spec_size().wf(),
            forall|p: int|
                leaf_count_of(self@.len()) <= p < self@.len() ==> pair_result::<H>(
                    self@[2 * (p - leaf_count_of(self@.len()))],
                    self@[2 * (p - leaf_count_of(self@.len())) + 1],
                    #[trigger] self@[p],
                ),
            is_pure::<H>() ==> is_merkle_array::<H>(self@),
            is_pure::<H>() ==> self@ == tree_nodes::<H>(
                self@.subrange(0, leaf_count_of(self@.len()) as int),
            ),
    {
        TreeSize::lemma_wf(self.size);
        if is_pure::<H>() {
            assert(is_merkle_array::<H>(self@));
            lemma_merkle_array_is_model::<H>(self@);
        }
    }

    /// The root is the one node of the top level.
    pub proof fn lemma_root_is_top_node(self)
        requires
            self.wf(),
        ensures
            self.spec_node_value((level_count_of(self@.len()) - 1) as nat, 0) == Some(
                self.spec_root(),
            ),
    {
        self.lemma_wf();
        lemma_root_position(self@.len());
    }

    /// The walk from a leaf to the root passes one node of each level: on level
    /// `k` the node whose index is the leaf index halved `k` times. It starts at
    /// the leaf, yields as many nodes as the tree has levels, and ends at the
    /// root.
    pub proof fn lemma_walk_from_leaf(self, leaf_index: nat)
        requires
            self.wf(),
            leaf_index < leaf_count_of(self@.len()),
        ensures
            path_to_root(self@.len(), leaf_index).len() == level_count_of(self@.len()),
            path_to_root(self@.len(), leaf_index).first() == leaf_index,
            path_to_root(self@.len(), leaf_index).last() + 1 == self@.len(),
            forall|level: nat|
                level < level_count_of(self@.len()) ==> #[trigger] path_to_root(
                    self@.len(),
                    leaf_index,
                )[level as int] == abs_index_of(self@.len(), level, shift_down(leaf_index, level)),
    {
        self.lemma_wf();
        lemma_levels(self@.len(), 0);
        lemma_path_to_root(self@.len(), 0, leaf_index);
        let size = self@.len();
        assert forall|level: nat| level < level_count_of(size) implies #[trigger] path_to_root(
            size,
            leaf_index,
        )[level as int] == abs_index_of(size, level, shift_down(leaf_index, level)) by {
            assert(0 + level == level);
        }
    }

    /// The tree over `leaves`.
    ///
    /// The bottom level is made of the leaves and, up to the next power of two, of
    /// a chain of single hashes that starts at the last leaf. Each level above
    /// holds the pair hashes of the adjacent pairs of the level below. An empty
    /// sequence is refused. The tree has up to twice as many nodes as there are
    /// leaves, and the machine must be able to count them: there may be no more
    /// leaves than half the range of `usize`, rounded up.
    pub fn from_leaves(leaves: Vec<T>) -> (result: Result<Self, MerkleTreeFormError>)
        requires
            leaves@.len() <= usize::MAX / 2 + 1,
        ensures
            result is Err <==> leaves@.len() == 0,
            result matches Err(error) ==> error == MerkleTreeFormError::TooSmall(0),
            result matches Ok(tree) ==> {
                &&& tree.wf()
                &&& tree@.len() == 2 * next_power_of_two(leaves@.len()) - 1
                &&& tree@.subrange(0, leaves@.len() as int) == leaves@
                &&& forall|i: int|
                    leaves@.len() <= i < next_power_of_two(leaves@.len()) ==> single_result::<H>(
                        tree@[i - 1],
                        #[trigger] tree@[i],
                    )
                &&& is_pure::<H>() ==> tree@ == tree_nodes::<H>(padded_leaves::<H>(leaves@))
            },
    {
        if leaves.len() == 0 {
            return Err(MerkleTreeFormError::TooSmall(leaves.len()));
        }
        let given: usize = leaves.len();
        let ghost supplied = leaves@;
        proof {
            lemma_next_power_of_two(given as nat);
            lemma_largest_leaf_count();
            lemma_next_power_of_two_is_least(given as nat, (usize::MAX / 2 + 1) as nat);
        }
        let leaf_count: usize = next_power_of_two_at_least(given);
        let mut nodes = leaves;
        while nodes.len() < leaf_count
            invariant
                1 <= given <= nodes@.len() <= leaf_count,
                supplied.len() == given,
                nodes@.subrange(0, given as int) == supplied,
                forall|i: int|
                    given <= i < nodes@.len() ==> single_result::<H>(
                        nodes@[i - 1],
                        #[trigger] nodes@[i],
                    ),
                is_pure::<H>() ==> pad_to::<H>(nodes@, leaf_count as nat) == pad_to::<H>(
                    supplied,
                    leaf_count as nat,
                ),
            decreases leaf_count - nodes@.len(),
        {
            let ghost before = nodes@;
            let padding = H::hash_single(&nodes[nodes.len() - 1]);
            nodes.push(padding);
            proof {
                assert(nodes@.subrange(0, given as int) =~= before.subrange(0, given as int));
                assert(single_result::<H>(before.last(), padding));
                assert forall|i: int| given <= i < nodes@.len() implies single_result::<H>(
                    nodes@[i - 1],
                    #[trigger] nodes@[i],
                ) by {
                    if i < before.len() {
                        assert(nodes@[i] == before[i] && nodes@[i - 1] == before[i - 1]);
                    }
                }
            }
        }
        let ghost bottom = nodes@;
        let mut step: usize = 0;
        while step < leaf_count - 1
            invariant
                1 <= given <= leaf_count,
                2 * leaf_count - 1 <= usize::MAX,
                step <= leaf_count - 1,
                nodes@.len() == leaf_count + step,
                bottom.len() == leaf_count,
                forall|i: int|
                    given <= i < leaf_count ==> single_result::<H>(
                        bottom[i - 1],
                        #[trigger] bottom[i],
                    ),
                nodes@.subrange(0, leaf_count as int) == bottom,
                forall|p: int|
                    leaf_count <= p < nodes@.len() ==> pair_result::<H>(
                        nodes@[2 * (p - leaf_count)],
                        nodes@[2 * (p - leaf_count) + 1],
                        #[trigger] nodes@[p],
                    ),
            decreases leaf_count - step,
        {
            let ghost before = nodes@;
            let parent = H::hash_pair(&nodes[2 * step], &nodes[2 * step + 1]);
            nodes.push(parent);
            proof {
                assert(nodes@.subrange(0, leaf_count as int) =~= before.subrange(
                    0,
                    leaf_count as int,
                ));
                assert forall|p: int| leaf_count <= p < nodes@.len() implies pair_result::<H>(
                    nodes@[2 * (p - leaf_count)],
                    nodes@[2 * (p - leaf_count) + 1],
                    #[trigger] nodes@[p],
                ) by {
                    if p < before.len() {
                        assert(nodes@[p] == before[p]);
                        assert(nodes@[2 * (p - leaf_count)] == before[2 * (p - leaf_count)]);
                        assert(nodes@[2 * (p - leaf_count) + 1] == before[2 * (p - leaf_count)
                            + 1]);
                    }
                }
            }
            step = step + 1;
        }
        proof {
            assert(leaf_count_of(nodes@.len()) == leaf_count);
            assert(bottom.subrange(0, given as int) =~= nodes@.subrange(0, given as int));
            assert forall|i: int| given <= i < leaf_count implies single_result::<H>(
                nodes@[i - 1],
                #[trigger] nodes@[i],
            ) by {
                assert(nodes@[i] == nodes@.subrange(0, leaf_count as int)[i]);
                assert(nodes@[i - 1] == nodes@.subrange(0, leaf_count as int)[i - 1]);
                assert(single_result::<H>(bottom[i - 1], bottom[i]));
            }
        }
        let size = TreeSize::of_leaf_count(leaf_count);
        let tree = MerkleTree { nodes, size, _hasher: PhantomData };
        proof {
            tree.lemma_wf();
        }
        Ok(tree)
    }

    /// The value of the node at `abs_index`.
    pub(crate) fn node_at(&self, abs_index: usize) -> (value: &T)
        requires
            abs_index < self@.len(),
        ensures
            *value == self@[abs_index as int],
    {
        &self.nodes[abs_index]
    }

    /// The value of the root.
    pub fn root(&self) -> (root: T)
        ensures
            cloned(self.spec_root(), root),
    {
        proof {
            use_type_invariant(self);
        }
        self.nodes[self.nodes.len() - 1].clone()
    }

    /// The total node count.
    pub fn total_node_count(&self) -> (size: TreeSize)
        ensures
            size == self.spec_size(),
            size@ == self@.len(),
            size.wf(),
    {
        proof {
            use_type_invariant(self);
        }
        self.size
    }

    /// The number of leaves, padding included.
    pub fn leaf_count(&self) -> (count: NonZeroCount)
        ensures
            count@ == leaf_count_of(self@.len()),
            count.wf(),
    {
        proof {
            use_type_invariant(self);
        }
        self.size.leaf_count()
    }

    /// The number of levels, from the leaves to the root.
    pub fn level_count(&self) -> (count: NonZeroCount)
        ensures
            count@ == level_count_of(self@.len()),
            count.wf(),
    {
        proof {
            use_type_invariant(self);
        }
        self.size.level_count()
    }

    /// The value of the node at `index_in_level` on `level_from_bottom`, if the
    /// tree has such a node.
    pub fn node_value_from_bottom(&self, level_from_bottom: usize, index_in_level: usize) -> (value:
        Option<T>)
        ensures
            value is Some <==> valid_position(
                self@.len(),
                level_from_bottom as nat,
                index_in_level as nat,
            ),
            value matches Some(v) ==> cloned(
                self.spec_node_value(level_from_bottom as nat, index_in_level as nat).unwrap(),
                v,
            ),
    {
        proof {
            use_type_invariant(self);
        }
        match NodePosition::from_position(self.size, level_from_bottom, index_in_level) {
            Some(position) => Some(self.nodes[position.abs_index()].clone()),
            None => None,
        }
    }

    /// The node at `index_in_level` on `level_from_bottom`, if the tree has such a
    /// node.
    pub fn node_from_bottom<'a>(&'a self, level_from_bottom: usize, index_in_level: usize) -> (node:
        Option<Node<'a, T, H>>)
        ensures
            node is Some <==> valid_position(
                self@.len(),
                level_from_bottom as nat,
                index_in_level as nat,
            ),
            node matches Some(n) ==> {
                &&& n.wf()
                &&& n.spec_tree() == *self
                &&& n.spec_abs_index() == abs_index_of(
                    self@.len(),
                    level_from_bottom as nat,
                    index_in_level as nat,
                )
                &&& n.spec_level() == level_from_bottom
                &&& n.spec_index_in_level() == index_in_level
            },
    {
        proof {
            use_type_invariant(self);
        }
        match NodePosition::from_position(self.size, level_from_bottom, index_in_level) {
            Some(position) => Some(Node::new(self, position.abs_index())),
            None => None,
        }
    }

    /// The walk from the leaf at `leaf_index` up to the root.
    ///
    /// The walk yields one node of each level, the leaf first and the root last.
    /// A leaf index that the tree does not have is refused.
    pub fn iter_from_leaf_to_root<'a>(&'a self, leaf_index: usize) -> (result: Result<
        MerkleTreeNodeParentIterator<'a, T, H>,
        MerkleTreeAccessError,
    >)
        ensures
            result is Ok <==> leaf_index < leaf_count_of(self@.len()),
            result matches Err(error) ==> error
                == MerkleTreeAccessError::IterStartIndexOutOfRange(
                leaf_index,
                leaf_count_of(self@.len()) as usize,
            ),
            result matches Ok(walk) ==> {
                &&& walk.wf()
                &&& walk.spec_tree() == *self
                &&& walk.remaining() == path_to_root(self@.len(), leaf_index as nat)
            },
    {
        proof {
            use_type_invariant(self);
        }
        let leaf_count: usize = self.size.leaf_count().get();
        if leaf_index >= leaf_count {
            return Err(MerkleTreeAccessError::IterStartIndexOutOfRange(leaf_index, leaf_count));
        }
        Ok(MerkleTreeNodeParentIterator::starting_at(self, leaf_index))
    }
}

} // verus!
