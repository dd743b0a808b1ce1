//! Inclusion proofs for one leaf.

use super::verify_result::ProofVerifyResult;
use crate::hasher::{collision_free, hash_pair_spec, is_pure, pair_result, PairHasher};
use crate::tree::model::is_merkle_array;
use crate::tree::node::Node;
use crate::tree::shape::{
    abs_index_of, leaf_count_of, lemma_level_start_even, lemma_levels, lemma_parent_is_above,
    lemma_path_to_root, lemma_shift_down, lemma_sibling_and_parent, lemma_tree_size_exp2,
    level_count_of, parent_abs, path_to_root, shift_down, sibling_index, valid_position,
    valid_tree_size,
};
use crate::tree::{MerkleTree, MerkleTreeAccessError};
use core::marker::PhantomData;
use vstd::prelude::*;
use vstd::std_specs::cmp::PartialEqSpec;

verus! {

/// The absolute indices of the nodes that prove the leaf at `leaf`: the sibling of
/// each node on the path from the leaf to the root, the root left out, bottom
/// first.
pub open spec fn branch_indices(size: nat, leaf: nat) -> Seq<nat> {
    let path = path_to_root(size, leaf);
    Seq::new((path.len() - 1) as nat, |k: int| sibling_index(path[k]))
}

/// The values, in the tree with the nodes `nodes`, of the nodes that prove the
/// leaf at `leaf`.
pub open spec fn tree_branch<T>(nodes: Seq<T>, leaf: nat) -> Seq<T> {
    let indices = branch_indices(nodes.len(), leaf);
    Seq::new(indices.len(), |k: int| nodes[indices[k] as int])
}

/// The value that the first `steps` nodes of `branch` lead to from `leaf` at
/// `index`: at each step the pair hash of the value so far and the next node of
/// the branch, the value on the left where the index at that step is even.
pub open spec fn fold_branch<H: PairHasher>(
    leaf: H::NodeType,
    index: nat,
    branch: Seq<H::NodeType>,
    steps: nat,
) -> H::NodeType
    decreases steps,
{
    if steps == 0 {
        leaf
    } else {
        let below = fold_branch::<H>(leaf, index, branch, (steps - 1) as nat);
        let sibling = branch[steps - 1];
        if shift_down(index, (steps - 1) as nat) % 2 == 0 {
            hash_pair_spec::<H>(below, sibling)
        } else {
            hash_pair_spec::<H>(sibling, below)
        }
    }
}

/// Whether step `k` up `branch` from a leaf at `index` can take `trace[k]` to
/// `trace[k + 1]`: whether the latter can come out of the pair hash of the
/// former and `branch[k]`, the former on the left where the index at that step
/// is even.
pub open spec fn step_taken<H: PairHasher>(
    index: nat,
    branch: Seq<H::NodeType>,
    trace: Seq<H::NodeType>,
    k: int,
) -> bool {
    if shift_down(index, k as nat) % 2 == 0 {
        pair_result::<H>(trace[k], branch[k], trace[k + 1])
    } else {
        pair_result::<H>(branch[k], trace[k], trace[k + 1])
    }
}

/// Whether `trace` holds the values that the calls of the pair hash can give on
/// the way up `branch` from `leaf` at `index`: the leaf first, then the value
/// after each step. With a pure hasher there is one such trace, and it ends with
/// the value that [`fold_branch`] names.
pub open spec fn is_trace<H: PairHasher>(
    leaf: H::NodeType,
    index: nat,
    branch: Seq<H::NodeType>,
    trace: Seq<H::NodeType>,
) -> bool {
    &&& trace.len() == branch.len() + 1
    &&& trace[0] == leaf
    &&& forall|k: int| 0 <= k < branch.len() ==> #[trigger] step_taken::<H>(index, branch, trace, k)
}

/// With a pure hasher, a trace holds after each step the value that
/// [`fold_branch`] names.
pub proof fn lemma_trace_is_fold<H: PairHasher>(
    leaf: H::NodeType,
    index: nat,
    branch: Seq<H::NodeType>,
    trace: Seq<H::NodeType>,
    steps: nat,
)
    requires
        is_pure::<H>(),
        is_trace::<H>(leaf, index, branch, trace),
        steps <= branch.len(),
    ensures
        trace[steps as int] == fold_branch::<H>(leaf, index, branch, steps),
    decreases steps,
{
    if steps > 0 {
        lemma_trace_is_fold::<H>(leaf, index, branch, trace, (steps - 1) as nat);
        assert(step_taken::<H>(index, branch, trace, steps - 1));
    }
}

/// The absolute indices of the nodes of a branch, in their order.
pub open spec fn branch_node_indices<'a, T: Clone, H: PairHasher<NodeType = T>>(
    branch: Seq<Node<'a, T, H>>,
) -> Seq<nat> {
    Seq::new(branch.len(), |k: int| branch[k].spec_abs_index())
}

/// The proof for one leaf of a tree, as nodes of that tree.
#[derive(Debug)]
#[verifier::reject_recursive_types(T)]
#[verifier::reject_recursive_types(H)]
pub struct SingleProofNodes<'a, T: Clone, H: PairHasher<NodeType = T>> {
    tree: &'a MerkleTree<T, H>,
    leaf_index_in_level: usize,
    branch: Vec<Node<'a, T, H>>,
}

/// The proof for one leaf, detached from the tree: the index of the leaf and the
/// values of the nodes that prove it, bottom first.
#[derive(Debug)]
pub struct SingleProofHashes<T, H> {
    leaf_index_in_level: usize,
    branch: Vec<T>,
    _hasher: PhantomData<H>,
}

impl<'a, T: Clone, H: PairHasher<NodeType = T>> SingleProofNodes<'a, T, H> {
    /// The leaf is a leaf of the tree, and the branch holds the siblings along its
    /// path to the root.
    #[verifier::type_invariant]
    pub closed spec fn wf(self) -> bool {
        let indices = branch_indices(self.tree@.len(), self.leaf_index_in_level as nat);
        &&& self.tree.wf()
        &&& self.leaf_index_in_level < leaf_count_of(self.tree@.len())
        &&& self.branch@.len() == indices.len()
        &&& forall|k: int| 0 <= k < self.branch@.len() ==> (#[trigger] self.branch@[k]).wf()
        &&& forall|k: int|
            0 <= k < self.branch@.len() ==> (#[trigger] self.branch@[k]).spec_tree() == *self.tree
        &&& forall|k: int|
            0 <= k < self.branch@.len() ==> (#[trigger] self.branch@[k]).spec_abs_index()
                == indices[k]
    }

    /// The tree that the proof was taken from.
    pub closed spec fn spec_tree(self) -> MerkleTree<T, H> {
        *self.tree
    }

    /// The index of the leaf that is proved.
    pub closed spec fn spec_leaf_index(self) -> nat {
        self.leaf_index_in_level as nat
    }

    /// The nodes of the branch, bottom first.
    pub closed spec fn spec_branch(self) -> Seq<Node<'a, T, H>> {
        self.branch@
    }

    /// A well-formed proof holds one node for each level below the root: the
    /// siblings along the path from its leaf to the root.
    pub proof fn lemma_wf(self)
        requires
            self.wf(),
        ensures
            self.spec_tree().wf(),
            self.spec_leaf_index() < leaf_count_of(self.spec_tree()@.len()),
            self.spec_branch().len() == level_count_of(self.spec_tree()@.len()) - 1,
            self.spec_branch().len() == branch_indices(
                self.spec_tree()@.len(),
                self.spec_leaf_index(),
            ).len(),
            forall|k: int|
                0 <= k < self.spec_branch().len() ==> (#[trigger] self.spec_branch()[k]).spec_tree()
                    == self.spec_tree(),
            forall|k: int|
                0 <= k < self.spec_branch().len() ==> (
                #[trigger] self.spec_branch()[k]).spec_abs_index() == branch_indices(
                    self.spec_tree()@.len(),
                    self.spec_leaf_index(),
                )[k],
    {
        let size = self.tree@.len();
        self.tree.lemma_wf();
        lemma_levels(size, 0);
        lemma_path_to_root(size, 0, self.leaf_index_in_level as nat);
    }

    /// The proof for the leaf of `tree` at `leaf_index`.
    ///
    /// The proof holds, for each node on the way from the leaf to the root, the
    /// root left out, the sibling of that node. A leaf index that the tree does
    /// not have is refused.
    pub fn from_tree_leaf(tree: &'a MerkleTree<T, H>, leaf_index: usize) -> (result: Result<
        Self,
        MerkleTreeAccessError,
    >)
        ensures
            result is Ok <==> leaf_index < leaf_count_of(tree@.len()),
            result matches Err(error) ==> error == MerkleTreeAccessError::LeafIndexOutOfRange(
                leaf_index,
                leaf_count_of(tree@.len()) as usize,
            ),
            result matches Ok(nodes) ==> {
                &&& nodes.wf()
                &&& nodes.spec_tree() == *tree
                &&& nodes.spec_leaf_index() == leaf_index
                &&& nodes.spec_branch().len() == level_count_of(tree@.len()) - 1
                &&& branch_node_indices(nodes.spec_branch()) == branch_indices(
                    tree@.len(),
                    leaf_index as nat,
                )
            },
    {
        proof {
            use_type_invariant(tree);
            tree.lemma_wf();
        }
        let leaf_count: usize = tree.leaf_count().get();
        if leaf_index >= leaf_count {
            return Err(MerkleTreeAccessError::LeafIndexOutOfRange(leaf_index, leaf_count));
        }
        let ghost size = tree@.len();
        let ghost path = path_to_root(size, leaf_index as nat);
        let mut current = Node::new(tree, leaf_index);
        let mut branch: Vec<Node<'a, T, H>> = Vec::new();
        proof {
            assert(path.skip(0) =~= path);
        }
        while !current.is_root()
            invariant
                tree.wf(),
                size == tree@.len(),
                valid_tree_size(size),
                current.wf(),
                current.spec_tree() == *tree,
                current.spec_abs_index() < size,
                path == path_to_root(size, leaf_index as nat),
                branch@.len() < path.len(),
                path_to_root(size, current.spec_abs_index()) == path.skip(branch@.len() as int),
                forall|k: int| 0 <= k < branch@.len() ==> (#[trigger] branch@[k]).wf(),
                forall|k: int|
                    0 <= k < branch@.len() ==> (#[trigger] branch@[k]).spec_tree() == *tree,
                forall|k: int|
                    0 <= k < branch@.len() ==> (#[trigger] branch@[k]).spec_abs_index()
                        == sibling_index(path[k]),
            decreases size - current.spec_abs_index(),
        {
            let ghost abs = current.spec_abs_index();
            let ghost done = branch@.len() as int;
            proof {
                lemma_parent_is_above(size, abs);
                let rest = path_to_root(size, parent_abs(size, abs));
                assert(path_to_root(size, abs) == seq![abs] + rest);
                assert(path.skip(done)[0] == abs);
                assert(path.skip(done + 1) =~= path.skip(done).skip(1));
                assert(path.skip(done).skip(1) =~= rest);
            }
            if let Some(sibling) = current.sibling() {
                branch.push(sibling);
            }
            if let Some(parent) = current.parent() {
                current = parent;
            }
        }
        proof {
            let last = current.spec_abs_index();
            assert(path_to_root(size, last) =~= seq![last]);
            assert(path.skip(branch@.len() as int).len() == 1);
        }
        let nodes = SingleProofNodes { tree, leaf_index_in_level: leaf_index, branch };
        proof {
            nodes.lemma_wf();
            assert(branch_node_indices(nodes.spec_branch()) =~= branch_indices(
                tree@.len(),
                leaf_index as nat,
            ));
        }
        Ok(nodes)
    }

    /// The index of the leaf that is proved.
    pub fn leaf_index_in_level(&self) -> (index: usize)
        ensures
            index == self.spec_leaf_index(),
    {
        self.leaf_index_in_level
    }

    /// The nodes of the branch, bottom first.
    pub fn branch(&self) -> (branch: &Vec<Node<'a, T, H>>)
        ensures
            branch@ == self.spec_branch(),
    {
        &self.branch
    }

    /// The proof detached from the tree: the index of the leaf and a copy of the
    /// value of each node of the branch.
    pub fn into_values(self) -> (hashes: SingleProofHashes<T, H>)
        ensures
            hashes.spec_leaf_index() == self.spec_leaf_index(),
            hashes.spec_branch().len() == level_count_of(self.spec_tree()@.len()) - 1,
            hashes.spec_branch().len() == tree_branch(
                self.spec_tree()@,
                self.spec_leaf_index(),
            ).len(),
            forall|k: int|
                0 <= k < hashes.spec_branch().len() ==> cloned(
                    tree_branch(self.spec_tree()@, self.spec_leaf_index())[k],
                    #[trigger] hashes.spec_branch()[k],
                ),
    {
        proof {
            use_type_invariant(&self);
            self.lemma_wf();
        }
        let ghost expected = tree_branch(self.tree@, self.leaf_index_in_level as nat);
        let mut values: Vec<T> = Vec::new();
        let mut k: usize = 0;
        while k < self.branch.len()
            invariant
                self.wf(),
                k <= self.branch@.len(),
                values@.len() == k,
                expected == tree_branch(self.tree@, self.leaf_index_in_level as nat),
                expected.len() == self.branch@.len(),
                forall|j: int| 0 <= j < k ==> cloned(expected[j], #[trigger] values@[j]),
            decreases self.branch@.len() - k,
        {
            let value = self.branch[k].hash().clone();
            proof {
                assert(self.branch@[k as int].spec_tree() == *self.tree);
            }
            values.push(value);
            k = k + 1;
        }
        SingleProofHashes {
            leaf_index_in_level: self.leaf_index_in_level,
            branch: values,
            _hasher: PhantomData,
        }
    }
}

impl<T: Clone, H: PairHasher<NodeType = T>> SingleProofHashes<T, H> {
    /// The index of the leaf that is proved.
    pub closed spec fn spec_leaf_index(self) -> nat {
        self.leaf_index_in_level as nat
    }

    /// The values of the branch, bottom first.
    pub closed spec fn spec_branch(self) -> Seq<T> {
        self.branch@
    }

    /// The root that the branch leads to from the leaf value `leaf`.
    pub open spec fn computed_root(self, leaf: T) -> T {
        fold_branch::<H>(leaf, self.spec_leaf_index(), self.spec_branch(), self.spec_branch().len())
    }

    /// Whether the branch is long enough for the index of the leaf: the steps up
    /// the branch take the index down to zero.
    pub open spec fn descent_complete(self) -> bool {
        shift_down(self.spec_leaf_index(), self.spec_branch().len()) == 0
    }

    /// What `verify` returns where the hasher is pure and the equality of nodes is
    /// given by `eq_spec`.
    pub open spec fn spec_verify(self, leaf: T, root: T) -> ProofVerifyResult where
        T: PartialEq,
     {
        ProofVerifyResult::spec_from_bool(
            self.descent_complete() && self.computed_root(leaf).eq_spec(&root),
        )
    }

    /// The proof for the leaf at `leaf_index` with the branch `branch`, as it came
    /// over the wire. Nothing is checked here: a proof that does not fit fails
    /// when it is verified.
    pub fn from_leaf_index_and_branch(leaf_index: usize, branch: Vec<T>) -> (hashes: Self)
        ensures
            hashes.spec_leaf_index() == leaf_index,
            hashes.spec_branch() == branch@,
    {
        SingleProofHashes { leaf_index_in_level: leaf_index, branch, _hasher: PhantomData }
    }

    /// The index of the leaf that is proved.
    pub fn leaf_index_in_level(&self) -> (index: usize)
        ensures
            index == self.spec_leaf_index(),
    {
        self.leaf_index_in_level
    }

    /// The values of the branch, bottom first.
    pub fn branch(&self) -> (branch: &Vec<T>)
        ensures
            branch@ == self.spec_branch(),
    {
        &self.branch
    }

    /// The values of the branch, bottom first.
    pub fn into_hashes(self) -> (branch: Vec<T>)
        ensures
            branch@ == self.spec_branch(),
    {
        self.branch
    }

    /// Whether the leaf value `leaf` at the index of this proof belongs to the
    /// tree with the root `root`.
    ///
    /// The branch is walked bottom to top. At each step the value so far and the
    /// next value of the branch are hashed as a pair, the value so far on the left
    /// where the index is even, and the index is halved. The proof passes if the
    /// index has come down to zero and the last value equals `root`. No input
    /// makes this function fail in another way.
    pub fn verify(&self, leaf: T, root: T) -> (outcome: ProofVerifyResult) where T: PartialEq
        ensures
            !self.descent_complete() ==> outcome == ProofVerifyResult::FailedDecisively,
            exists|trace: Seq<T>|
                {
                    &&& #[trigger] is_trace::<H>(
                        leaf,
                        self.spec_leaf_index(),
                        self.spec_branch(),
                        trace,
                    )
                    &&& T::obeys_eq_spec() ==> outcome == ProofVerifyResult::spec_from_bool(
                        self.descent_complete() && trace.last().eq_spec(&root),
                    )
                },
            is_pure::<H>() && T::obeys_eq_spec() ==> outcome == self.spec_verify(leaf, root),
    {
        let mut current = leaf;
        let mut index: usize = self.leaf_index_in_level;
        let mut k: usize = 0;
        let ghost start = self.leaf_index_in_level as nat;
        let ghost mut trace = seq![leaf];
        while k < self.branch.len()
            invariant
                k <= self.branch@.len(),
                index == shift_down(self.leaf_index_in_level as nat, k as nat),
                start == self.leaf_index_in_level,
                trace.len() == k + 1,
                trace[0] == leaf,
                trace.last() == current,
                forall|j: int|
                    0 <= j < k ==> #[trigger] step_taken::<H>(start, self.branch@, trace, j),
            decreases self.branch@.len() - k,
        {
            let sibling = &self.branch[k];
            proof {
                lemma_shift_down(self.leaf_index_in_level as nat, k as nat);
            }
            let next = if index % 2 == 0 {
                H::hash_pair(&current, sibling)
            } else {
                H::hash_pair(sibling, &current)
            };
            proof {
                let before = trace;
                trace = trace.push(next);
                assert forall|j: int| 0 <= j < k + 1 implies #[trigger] step_taken::<H>(
                    start,
                    self.branch@,
                    trace,
                    j,
                ) by {
                    if j < k {
                        assert(step_taken::<H>(start, self.branch@, before, j));
                    }
                }
            }
            current = next;
            index = index / 2;
            k = k + 1;
        }
        proof {
            assert(is_trace::<H>(leaf, start, self.branch@, trace));
            if is_pure::<H>() {
                lemma_trace_is_fold::<H>(leaf, start, self.branch@, trace, self.branch@.len());
            }
        }
        if index != 0 {
            return ProofVerifyResult::FailedDecisively;
        }
        ProofVerifyResult::from_bool(current == root)
    }
}

/// In a tree, the first `steps` nodes of the branch of a leaf lead from the leaf
/// to the node of its path that lies `steps` levels up.
proof fn lemma_fold_follows_path<H: PairHasher>(nodes: Seq<H::NodeType>, leaf: nat, steps: nat)
    requires
        is_merkle_array::<H>(nodes),
        leaf < leaf_count_of(nodes.len()),
        steps < level_count_of(nodes.len()),
    ensures
        path_to_root(nodes.len(), leaf).len() == level_count_of(nodes.len()),
        fold_branch::<H>(nodes[leaf as int], leaf, tree_branch(nodes, leaf), steps)
            == nodes[path_to_root(nodes.len(), leaf)[steps as int] as int],
    decreases steps,
{
    let size = nodes.len();
    let path = path_to_root(size, leaf);
    lemma_levels(size, 0);
    lemma_path_to_root(size, 0, leaf);
    if steps > 0 {
        let k = (steps - 1) as nat;
        lemma_fold_follows_path::<H>(nodes, leaf, k);
        let j = shift_down(leaf, k);
        assert(valid_position(size, 0 + k, j));
        assert(path[k as int] == abs_index_of(size, 0 + k, j));
        assert(path[steps as int] == abs_index_of(size, 0 + steps, shift_down(leaf, steps)));
        lemma_shift_down(leaf, k);
        lemma_sibling_and_parent(size, k, j);
        lemma_level_start_even(size, k);
        lemma_tree_size_exp2(size);
        let a = path[k as int];
        let p = path[steps as int];
        let l = leaf_count_of(size);
        assert(p == l + a / 2);
        assert(nodes[p as int] == hash_pair_spec::<H>(
            nodes[2 * (p - l)],
            nodes[2 * (p - l) + 1],
        ));
        assert(tree_branch(nodes, leaf)[k as int] == nodes[sibling_index(a) as int]);
        assert(a % 2 == j % 2);
    }
}

/// Where no two pairs have the same pair hash, a branch leads to different values
/// from different starting values.
pub proof fn lemma_fold_branch_injective<H: PairHasher>(
    first: H::NodeType,
    second: H::NodeType,
    index: nat,
    branch: Seq<H::NodeType>,
    steps: nat,
)
    requires
        collision_free::<H>(),
        fold_branch::<H>(first, index, branch, steps) == fold_branch::<H>(
            second,
            index,
            branch,
            steps,
        ),
    ensures
        first == second,
    decreases steps,
{
    if steps > 0 {
        let k = (steps - 1) as nat;
        let below_first = fold_branch::<H>(first, index, branch, k);
        let below_second = fold_branch::<H>(second, index, branch, k);
        let sibling = branch[steps - 1];
        if shift_down(index, k) % 2 == 0 {
            assert(hash_pair_spec::<H>(below_first, sibling) == hash_pair_spec::<H>(
                below_second,
                sibling,
            ));
        } else {
            assert(hash_pair_spec::<H>(sibling, below_first) == hash_pair_spec::<H>(
                sibling,
                below_second,
            ));
        }
        lemma_fold_branch_injective::<H>(first, second, index, branch, k);
    }
}

/// The branch of a leaf leads from the value of the leaf to the root of the tree.
///
/// For a tree built with a pure hasher and a leaf that the tree has, the branch
/// holds one node for each level below the root, it takes the index of the leaf
/// down to zero, and the value that it leads to from the leaf is the root.
pub proof fn lemma_single_proof_leads_to_root<T: Clone, H: PairHasher<NodeType = T>>(
    tree: MerkleTree<T, H>,
    leaf_index: nat,
)
    requires
        tree.wf(),
        is_pure::<H>(),
        leaf_index < leaf_count_of(tree@.len()),
    ensures
        tree_branch(tree@, leaf_index).len() == level_count_of(tree@.len()) - 1,
        shift_down(leaf_index, (level_count_of(tree@.len()) - 1) as nat) == 0,
        fold_branch::<H>(
            tree@[leaf_index as int],
            leaf_index,
            tree_branch(tree@, leaf_index),
            (level_count_of(tree@.len()) - 1) as nat,
        ) == tree.spec_root(),
{
    tree.lemma_wf();
    let size = tree@.len();
    let top = (level_count_of(size) - 1) as nat;
    lemma_fold_follows_path::<H>(tree@, leaf_index, top);
    lemma_levels(size, 0);
    lemma_path_to_root(size, 0, leaf_index);
    lemma_shift_down(leaf_index, top);
    lemma_tree_size_exp2(size);
    let width = leaf_count_of(size);
    assert(leaf_index / width == 0) by (nonlinear_arith)
        requires
            leaf_index < width,
    ;
}

/// A proof that was taken from a tree and detached verifies against the tree.
///
/// Take a tree built with a pure hasher, a node type whose `==` is equality, a
/// leaf of the tree, and the detached proof for it whose branch holds the values
/// of the tree. Then verifying the value of the leaf against the root of the tree
/// passes. Where in addition no two pairs have the same pair hash, verifying any
/// other value against the root fails.
pub proof fn lemma_single_proof_round_trip<T: Clone + PartialEq, H: PairHasher<NodeType = T>>(
    tree: MerkleTree<T, H>,
    hashes: SingleProofHashes<T, H>,
    other: T,
)
    requires
        tree.wf(),
        is_pure::<H>(),
        vstd::laws_eq::obeys_concrete_eq::<T>(),
        hashes.spec_leaf_index() < leaf_count_of(tree@.len()),
        hashes.spec_branch() == tree_branch(tree@, hashes.spec_leaf_index()),
    ensures
        hashes.spec_verify(tree@[hashes.spec_leaf_index() as int], tree.spec_root())
            == ProofVerifyResult::PassedDecisively,
        collision_free::<H>() && other != tree@[hashes.spec_leaf_index() as int]
            ==> hashes.spec_verify(other, tree.spec_root())
            == ProofVerifyResult::FailedDecisively,
{
    reveal(vstd::laws_eq::obeys_concrete_eq);
    let leaf_index = hashes.spec_leaf_index();
    lemma_single_proof_leads_to_root::<T, H>(tree, leaf_index);
    if collision_free::<H>() && hashes.computed_root(other) == tree.spec_root() {
        lemma_fold_branch_injective::<H>(
            other,
            tree@[leaf_index as int],
            leaf_index,
            hashes.spec_branch(),
            hashes.spec_branch().len(),
        );
    }
}

} // verus!
