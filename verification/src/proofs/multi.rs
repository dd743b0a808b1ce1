//! Inclusion proofs for several leaves at once.

use super::cover::{
    carries_below, climb_level, copy_list, first_refusal, holds, in_multi_proof, index_found,
    is_level_of_paths, lemma_bottom_level, multi_proof_indices, node_indices, on_level_path,
    refusal,
};
use super::resolve::{
    compute_level, computed_from_children, computed_up_to, extend_from_band, is_band,
    is_computation, keys_below, lemma_computation_is_resolved, lists_stored, lookup, outcome_for,
    resolved, stored, valid_input,
};
use super::verify_result::ProofVerifyResult;
use crate::hasher::{is_pure, PairHasher};
use crate::tree::node::Node;
use crate::tree::shape::{
    leaf_count_of, lemma_levels, lemma_power_of_two_halves, level_count_of, level_start,
    level_width, valid_tree_size,
};
use crate::tree::tree_size::TreeSize;
use crate::tree::{MerkleTree, MerkleTreeAccessError};
use core::marker::PhantomData;
use std::collections::BTreeMap;
use vstd::prelude::*;
use vstd::std_specs::cmp::PartialEqSpec;

verus! {

/// The proof for several leaves of a tree, as nodes of that tree.
#[derive(Debug)]
#[verifier::reject_recursive_types(T)]
#[verifier::reject_recursive_types(H)]
pub struct MultiProofNodes<'a, T: Clone, H: PairHasher<NodeType = T>> {
    tree: &'a MerkleTree<T, H>,
    leaf_indices: Vec<usize>,
    nodes: Vec<Node<'a, T, H>>,
}

impl<'a, T: Clone, H: PairHasher<NodeType = T>> MultiProofNodes<'a, T, H> {
    /// The leaves are different leaves of the tree, and the nodes are, each once,
    /// the nodes that the proof for these leaves carries.
    #[verifier::type_invariant]
    pub closed spec fn wf(self) -> bool {
        let size = self.tree@.len();
        &&& self.tree.wf()
        &&& self.leaf_indices@.no_duplicates()
        &&& forall|q: int|
            0 <= q < self.leaf_indices@.len() ==> #[trigger] self.leaf_indices@[q] < leaf_count_of(
                size,
            )
        &&& forall|k: int| 0 <= k < self.nodes@.len() ==> (#[trigger] self.nodes@[k]).wf()
        &&& forall|k: int|
            0 <= k < self.nodes@.len() ==> (#[trigger] self.nodes@[k]).spec_tree() == *self.tree
        &&& node_indices(self.nodes@).no_duplicates()
        &&& forall|abs: nat|
            node_indices(self.nodes@).contains(abs) <==> in_multi_proof(
                size,
                self.leaf_indices@.to_set(),
                abs,
            )
    }

    /// The tree that the proof was taken from.
    pub closed spec fn spec_tree(self) -> MerkleTree<T, H> {
        *self.tree
    }

    /// The indices of the leaves that are proved, in the order in which they were
    /// given.
    pub closed spec fn spec_leaf_indices(self) -> Seq<usize> {
        self.leaf_indices@
    }

    /// The nodes that the proof carries.
    pub closed spec fn spec_nodes(self) -> Seq<Node<'a, T, H>> {
        self.nodes@
    }

    /// A well-formed proof is for different leaves of its tree, and it carries,
    /// each once, the siblings of the nodes on the paths from these leaves to the
    /// root that lie on none of these paths themselves.
    pub proof fn lemma_wf(self)
        requires
            self.wf(),
        ensures
            self.spec_tree().wf(),
            self.spec_leaf_indices().no_duplicates(),
            forall|q: int|
                0 <= q < self.spec_leaf_indices().len() ==> #[trigger] self.spec_leaf_indices()[q]
                    < leaf_count_of(self.spec_tree()@.len()),
            forall|k: int|
                0 <= k < self.spec_nodes().len() ==> (#[trigger] self.spec_nodes()[k]).spec_tree()
                    == self.spec_tree(),
            node_indices(self.spec_nodes()).no_duplicates(),
            forall|abs: nat|
                node_indices(self.spec_nodes()).contains(abs) <==> in_multi_proof(
                    self.spec_tree()@.len(),
                    self.spec_leaf_indices().to_set(),
                    abs,
                ),
    {
    }

    /// The proof for the leaves of `tree` at `leaves_indices`.
    ///
    /// The indices may come in any order. An index that the tree does not have is
    /// refused, the first such index in the order given; if there is none, an
    /// index that is given twice is refused, the first that repeats an earlier
    /// one.
    ///
    /// The proof is found level by level from the bottom. On each level below the
    /// root, the nodes on the paths from the leaves are known to the verifier; the
    /// proof carries the sibling of each of them that is not known itself.
    pub fn from_tree_leaves(tree: &'a MerkleTree<T, H>, leaves_indices: &[usize]) -> (result:
        Result<Self, MerkleTreeAccessError>)
        ensures
            result is Ok <==> leaves_indices@.no_duplicates() && forall|q: int|
                0 <= q < leaves_indices@.len() ==> #[trigger] leaves_indices@[q] < leaf_count_of(
                    tree@.len(),
                ),
            result matches Ok(nodes) ==> {
                &&& nodes.wf()
                &&& nodes.spec_tree() == *tree
                &&& nodes.spec_leaf_indices() == leaves_indices@
                &&& node_indices(nodes.spec_nodes()).no_duplicates()
                &&& forall|abs: nat|
                    node_indices(nodes.spec_nodes()).contains(abs) <==> in_multi_proof(
                        tree@.len(),
                        leaves_indices@.to_set(),
                        abs,
                    )
            },
            result matches Err(error) ==> refusal(
                leaves_indices@,
                leaf_count_of(tree@.len()),
                error,
            ),
    {
        proof {
            use_type_invariant(tree);
            tree.lemma_wf();
        }
        let ghost size = tree@.len();
        let ghost wanted = leaves_indices@;
        let leaf_count: usize = tree.leaf_count().get();
        if let Some(error) = first_refusal(leaves_indices, leaf_count) {
            return Err(error);
        }
        let leaf_indices = copy_list(leaves_indices);
        let mut current = copy_list(leaves_indices);
        let mut nodes: Vec<Node<'a, T, H>> = Vec::new();
        let mut start: usize = 0;
        let mut width: usize = leaf_count;
        let ghost mut level: nat = 0;
        proof {
            lemma_levels(size, 0);
            assert(node_indices(nodes@) =~= Seq::<nat>::empty());
            assert forall|a: nat|
                #![trigger holds(current@, a)]
                #![trigger on_level_path(size, wanted, 0, a)]
                holds(current@, a) <==> on_level_path(size, wanted, 0, a) by {
                lemma_bottom_level(size, wanted, a);
            }
        }
        while width > 1
            invariant
                tree.wf(),
                size == tree@.len(),
                valid_tree_size(size),
                size <= usize::MAX,
                leaf_indices@ == wanted,
                wanted.no_duplicates(),
                forall|q: int| 0 <= q < wanted.len() ==> #[trigger] wanted[q] < leaf_count_of(size),
                level < level_count_of(size),
                start == level_start(size, level),
                width == level_width(size, level),
                is_level_of_paths(size, wanted, level, current@),
                carries_below(nodes@, *tree, wanted, start as int),
            decreases width,
        {
            proof {
                lemma_levels(size, level);
            }
            current = climb_level(
                tree,
                &current,
                &mut nodes,
                start,
                width,
                Ghost(level),
                Ghost(wanted),
            );
            start = start + width;
            width = width / 2;
            proof {
                level = level + 1;
            }
        }
        proof {
            lemma_levels(size, level);
        }
        Ok(MultiProofNodes { tree, leaf_indices, nodes })
    }

    /// The indices of the leaves that are proved, in the order in which they were
    /// given.
    pub fn leaf_indices(&self) -> (indices: &Vec<usize>)
        ensures
            indices@ == self.spec_leaf_indices(),
    {
        &self.leaf_indices
    }

    /// The nodes that the proof carries.
    pub fn nodes(&self) -> (nodes: &Vec<Node<'a, T, H>>)
        ensures
            nodes@ == self.spec_nodes(),
    {
        &self.nodes
    }

    /// The leaf count of the tree that the proof was taken from.
    pub fn tree_leaf_count(&self) -> (count: usize)
        ensures
            count == leaf_count_of(self.spec_tree()@.len()),
    {
        proof {
            use_type_invariant(self);
        }
        self.tree.leaf_count().get()
    }

    /// The proof detached from the tree: the leaf count of the tree and, under
    /// the absolute index of each node that the proof carries, a copy of the
    /// value of that node.
    pub fn into_values(self) -> (hashes: MultiProofHashes<T, H>)
        ensures
            hashes.spec_leaf_count() == leaf_count_of(self.spec_tree()@.len()),
            hashes.spec_nodes().dom() == multi_proof_indices(
                self.spec_tree()@.len(),
                self.spec_leaf_indices().to_set(),
            ),
            forall|abs: usize| #[trigger]
                hashes.spec_nodes().contains_key(abs) ==> abs < self.spec_tree()@.len() && cloned(
                    self.spec_tree()@[abs as int],
                    hashes.spec_nodes()[abs],
                ),
    {
        proof {
            use_type_invariant(&self);
        }
        let ghost size = self.tree@.len();
        let ghost indices = node_indices(self.nodes@);
        let tree_leaf_count: usize = self.tree.leaf_count().get();
        let mut values: BTreeMap<usize, T> = BTreeMap::new();
        let mut k: usize = 0;
        while k < self.nodes.len()
            invariant
                self.wf(),
                size == self.tree@.len(),
                indices == node_indices(self.nodes@),
                k <= self.nodes@.len(),
                forall|abs: usize|
                    #![trigger values@.contains_key(abs)]
                    values@.contains_key(abs) <==> index_found(indices, k as int, abs as nat),
                forall|abs: usize| #[trigger]
                    values@.contains_key(abs) ==> abs < size && cloned(
                        self.tree@[abs as int],
                        values@[abs],
                    ),
            decreases self.nodes@.len() - k,
        {
            let ghost before = values@;
            let node = &self.nodes[k];
            let abs_index: usize = node.abs_index();
            let value = node.hash().clone();
            proof {
                assert(self.nodes@[k as int].spec_tree() == *self.tree);
                assert(indices[k as int] == abs_index);
            }
            values.insert(abs_index, value);
            proof {
                assert forall|abs: usize|
                    #![trigger values@.contains_key(abs)]
                    values@.contains_key(abs) <==> index_found(indices, k + 1, abs as nat) by {
                    if values@.contains_key(abs) {
                        if abs != abs_index {
                            assert(before.contains_key(abs));
                            let t = choose|t: int| 0 <= t < k && #[trigger] indices[t] == abs;
                            assert(indices[t] == abs);
                        }
                    }
                    if index_found(indices, k + 1, abs as nat) {
                        let t = choose|t: int| 0 <= t < k + 1 && #[trigger] indices[t] == abs;
                        if t < k {
                            assert(index_found(indices, k as int, abs as nat));
                        }
                    }
                }
            }
            k = k + 1;
        }
        proof {
            let wanted = multi_proof_indices(size, self.leaf_indices@.to_set());
            assert forall|abs: usize| values@.dom().contains(abs) <==> wanted.contains(abs) by {
                if values@.contains_key(abs) {
                    let t = choose|t: int|
                        0 <= t < indices.len() && #[trigger] indices[t] == abs;
                    assert(indices.contains(abs as nat));
                }
                if wanted.contains(abs) {
                    assert(in_multi_proof(size, self.leaf_indices@.to_set(), abs as nat));
                    assert(indices.contains(abs as nat));
                    let t = choose|t: int| 0 <= t < indices.len() && indices[t] == abs;
                    assert(index_found(indices, indices.len() as int, abs as nat));
                }
            }
            assert(values@.dom() =~= wanted);
        }
        MultiProofHashes { nodes: values, tree_leaf_count, _hasher: PhantomData }
    }
}

/// The proof for several leaves, detached from the tree: the leaf count of the
/// tree and the values of the nodes that the proof carries, each under its
/// absolute index.
#[derive(Debug)]
pub struct MultiProofHashes<T, H> {
    nodes: BTreeMap<usize, T>,
    tree_leaf_count: usize,
    _hasher: PhantomData<H>,
}

impl<T: Clone, H: PairHasher<NodeType = T>> MultiProofHashes<T, H> {
    /// The leaf count of the tree that the proof was taken from.
    pub closed spec fn spec_leaf_count(self) -> usize {
        self.tree_leaf_count
    }

    /// The values that the proof carries, each under the absolute index of its
    /// node.
    pub closed spec fn spec_nodes(self) -> Map<usize, T> {
        self.nodes@
    }

    /// The absolute index of the root of the tree that the proof speaks of.
    pub open spec fn spec_root_index(self) -> usize {
        (2 * self.spec_leaf_count() - 2) as usize
    }

    /// The root that the proof leads to from the leaf values `leaves`, if it
    /// leads to one.
    pub open spec fn computed_root(self, leaves: Map<usize, T>) -> Option<T> {
        resolved::<H>(self.spec_leaf_count(), leaves, self.spec_nodes(), self.spec_root_index())
    }

    /// What `verify` returns where the hasher is pure and the equality of nodes is
    /// given by `eq_spec`.
    pub open spec fn spec_verify(self, leaves: Map<usize, T>, root: T) -> ProofVerifyResult where
        T: PartialEq,
     {
        if valid_input(self.spec_leaf_count(), leaves, self.spec_nodes()) {
            match self.computed_root(leaves) {
                Some(value) => ProofVerifyResult::spec_from_bool(value.eq_spec(&root)),
                None => ProofVerifyResult::FailedDecisively,
            }
        } else {
            ProofVerifyResult::FailedDecisively
        }
    }

    /// The proof with the leaf count `leaf_count` and the node values `nodes`, as
    /// it came over the wire. Nothing is checked here: a proof that does not fit
    /// fails when it is verified.
    pub fn from_leaf_count_and_nodes(leaf_count: usize, nodes: BTreeMap<usize, T>) -> (hashes: Self)
        ensures
            hashes.spec_leaf_count() == leaf_count,
            hashes.spec_nodes() == nodes@,
    {
        MultiProofHashes { nodes, tree_leaf_count: leaf_count, _hasher: PhantomData }
    }

    /// The leaf count of the tree that the proof was taken from.
    pub fn tree_leaf_count(&self) -> (count: usize)
        ensures
            count == self.spec_leaf_count(),
    {
        self.tree_leaf_count
    }

    /// The values that the proof carries, each under the absolute index of its
    /// node.
    pub fn nodes(&self) -> (nodes: &BTreeMap<usize, T>)
        ensures
            nodes@ == self.spec_nodes(),
    {
        &self.nodes
    }

    /// The values that the proof carries, each under the absolute index of its
    /// node.
    pub fn into_nodes(self) -> (nodes: BTreeMap<usize, T>)
        ensures
            nodes@ == self.spec_nodes(),
    {
        self.nodes
    }

    /// Whether the leaf values `leaves`, each under the index of its leaf, belong
    /// to the tree with the root `root`.
    ///
    /// The verifier starts with the values that it was given: those of the leaves
    /// and those that the proof carries. Level by level from the bottom it
    /// computes, for each node with a value for both children, the pair hash of
    /// these, which takes the place of a value that the proof may carry for that
    /// node. The proof passes if this leads to a value for the root and that value
    /// equals `root`. It fails if the root is not reached, and it fails if what
    /// was given does not fit a tree: a leaf count that is no power of two, or an
    /// index out of range. No input makes this function fail in another way.
    pub fn verify(&self, leaves: BTreeMap<usize, T>, root: T) -> (outcome: ProofVerifyResult) where
        T: PartialEq,

        ensures
            !valid_input(self.spec_leaf_count(), leaves@, self.spec_nodes()) ==> outcome
                == ProofVerifyResult::FailedDecisively,
            valid_input(self.spec_leaf_count(), leaves@, self.spec_nodes()) ==> exists|
                computed: Map<usize, T>,
            |
                {
                    &&& #[trigger] is_computation::<H>(
                        self.spec_leaf_count(),
                        leaves@,
                        self.spec_nodes(),
                        computed,
                    )
                    &&& outcome_for(
                        stored(
                            computed,
                            leaves@,
                            self.spec_nodes(),
                            self.spec_leaf_count(),
                            self.spec_root_index(),
                        ),
                        root,
                        outcome,
                    )
                },
            is_pure::<H>() && T::obeys_eq_spec() ==> outcome == self.spec_verify(leaves@, root),
    {
        let leaf_count: usize = self.tree_leaf_count;
        let size: usize = match TreeSize::from_leaf_count(leaf_count) {
            Some(size) => size.get(),
            None => {
                return ProofVerifyResult::FailedDecisively;
            },
        };
        let mut known: Vec<usize> = match keys_below(&leaves, leaf_count) {
            Some(keys) => keys,
            None => {
                return ProofVerifyResult::FailedDecisively;
            },
        };
        let given: Vec<usize> = match keys_below(&self.nodes, size) {
            Some(keys) => keys,
            None => {
                return ProofVerifyResult::FailedDecisively;
            },
        };
        let ghost leaf_keys = known@;
        extend_from_band(&mut known, &given, 0, leaf_count);
        let mut computed: BTreeMap<usize, T> = BTreeMap::new();
        let mut start: usize = 0;
        let mut width: usize = leaf_count;
        proof {
            assert(valid_input(leaf_count, leaves@, self.nodes@));
            assert forall|t: int| 0 <= t < known@.len() implies 0 <= #[trigger] known@[t]
                < leaf_count by {
                let a = known@[t];
                assert(holds(known@, a as nat));
                if holds(leaf_keys, a as nat) {
                    assert(leaves@.contains_key(a));
                }
            }
            assert forall|a: usize|
                0 <= a < leaf_count && (#[trigger] stored(
                    computed@,
                    leaves@,
                    self.nodes@,
                    leaf_count,
                    a,
                )) is Some implies holds(known@, a as nat) by {
                if leaves@.contains_key(a) {
                    assert(holds(leaf_keys, a as nat));
                } else {
                    assert(self.nodes@.contains_key(a));
                    assert(holds(given@, a as nat));
                }
            }
        }
        while width > 1
            invariant
                leaf_count == self.tree_leaf_count,
                valid_input(leaf_count, leaves@, self.nodes@),
                is_band(leaf_count, start as int, width as int),
                forall|k: usize| #[trigger] self.nodes@.contains_key(k) ==> holds(given@, k as nat),
                forall|t: int|
                    0 <= t < known@.len() ==> start <= #[trigger] known@[t] < start + width,
                computed_from_children::<H>(
                    computed@,
                    leaves@,
                    self.nodes@,
                    leaf_count,
                    start + width,
                ),
                computed_up_to(computed@, leaves@, self.nodes@, leaf_count, start + width),
                lists_stored(
                    known@,
                    computed@,
                    leaves@,
                    self.nodes@,
                    leaf_count,
                    start as int,
                    start + width,
                ),
            decreases width,
        {
            proof {
                lemma_power_of_two_halves(width as nat);
            }
            let upper: usize = start + width;
            let half: usize = width / 2;
            let mut next = compute_level::<T, H>(
                &mut computed,
                &leaves,
                &self.nodes,
                &known,
                leaf_count,
                start,
                width,
            );
            let ghost computed_list = next@;
            extend_from_band(&mut next, &given, upper, upper + half);
            proof {
                assert forall|t: int| 0 <= t < next@.len() implies upper <= #[trigger] next@[t]
                    < upper + half by {
                    let a = next@[t];
                    assert(holds(next@, a as nat));
                    if holds(computed_list, a as nat) {
                        let u = choose|u: int|
                            0 <= u < computed_list.len() && #[trigger] computed_list[u] == a;
                    }
                }
                assert forall|a: usize|
                    upper <= a < upper + half && (#[trigger] stored(
                        computed@,
                        leaves@,
                        self.nodes@,
                        leaf_count,
                        a,
                    )) is Some implies holds(next@, a as nat) by {
                    if computed@.contains_key(a) {
                        assert(holds(computed_list, a as nat));
                    } else {
                        assert(self.nodes@.contains_key(a));
                        assert(holds(given@, a as nat));
                    }
                }
            }
            known = next;
            start = upper;
            width = half;
        }
        proof {
            assert(start == self.spec_root_index());
            assert(is_computation::<H>(leaf_count, leaves@, self.nodes@, computed@));
            if is_pure::<H>() {
                lemma_computation_is_resolved::<H>(
                    leaf_count,
                    leaves@,
                    self.nodes@,
                    computed@,
                    start,
                );
            }
        }
        match lookup(&computed, &leaves, &self.nodes, leaf_count, start) {
            Some(value) => ProofVerifyResult::from_bool(*value == root),
            None => ProofVerifyResult::FailedDecisively,
        }
    }
}

} // verus!
