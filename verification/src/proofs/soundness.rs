//! What a proof for several leaves shows: a proof with the values of a tree leads
//! to the root of the tree, and to another value or to none as soon as one of
//! the values is changed.

use super::cover::{in_multi_proof, multi_proof_indices, on_path};
use super::multi::MultiProofHashes;
use super::resolve::{
    both_resolved, children_hash, left_child, resolved, right_child, valid_input,
};
use super::verify_result::ProofVerifyResult;
use crate::hasher::{collision_free, hash_pair_spec, is_pure, PairHasher};
use crate::tree::model::is_merkle_array;
use crate::tree::shape::{
    leaf_count_of, lemma_abs_index_to_position, lemma_levels, lemma_path_contains,
    lemma_path_nodes, lemma_tree_size_exp2, level_count_of, level_of, level_start, level_width,
    parent_abs, path_to_root, sibling_index, valid_tree_size,
};
use crate::tree::MerkleTree;
use vstd::prelude::*;

verus! {

/// Whether all of `leaves` are leaves of a tree with `size` nodes.
pub open spec fn leaves_in_range(size: nat, leaves: Set<usize>) -> bool {
    forall|leaf: usize| #[trigger] leaves.contains(leaf) ==> leaf < leaf_count_of(size)
}

/// The node at `abs` and the level whose band it lies in.
proof fn lemma_band_of(size: nat, abs: nat) -> (level: nat)
    requires
        valid_tree_size(size),
        abs < size,
    ensures
        level < level_count_of(size),
        level_start(size, level) <= abs < level_start(size, level) + level_width(size, level),
        level == 0 <==> abs < leaf_count_of(size),
        level + 1 == level_count_of(size) <==> abs + 1 == size,
{
    let level = level_of(size, abs);
    lemma_abs_index_to_position(size, abs);
    lemma_levels(size, level);
    lemma_levels(size, 0);
    if level > 0 {
        crate::tree::shape::lemma_level_start_monotonic(size, 0, level);
    }
    level
}

/// A leaf lies on its own path, and a node of the bottom level that lies on a path
/// is the leaf that the path starts at.
proof fn lemma_on_path_leaf(size: nat, leaves: Set<usize>, abs: usize)
    requires
        valid_tree_size(size),
        leaves_in_range(size, leaves),
        abs < leaf_count_of(size),
    ensures
        on_path(size, leaves, abs as nat) <==> leaves.contains(abs),
{
    lemma_levels(size, 0);
    if on_path(size, leaves, abs as nat) {
        let leaf = choose|leaf: usize| #[trigger]
            leaves.contains(leaf) && path_to_root(size, leaf as nat).contains(abs as nat);
        lemma_path_contains(size, leaf as nat, 0, abs as nat);
        lemma_path_nodes(size, leaf as nat, 0);
    }
    if leaves.contains(abs) {
        lemma_path_contains(size, abs as nat, 0, abs as nat);
        lemma_path_nodes(size, abs as nat, 0);
    }
}

/// The parent of a node on a path lies on that path.
proof fn lemma_on_path_parent(size: nat, leaves: Set<usize>, abs: nat)
    requires
        valid_tree_size(size),
        leaves_in_range(size, leaves),
        abs + 1 < size,
        on_path(size, leaves, abs),
    ensures
        on_path(size, leaves, parent_abs(size, abs)),
{
    let leaf = choose|leaf: usize| #[trigger]
        leaves.contains(leaf) && path_to_root(size, leaf as nat).contains(abs);
    let level = lemma_band_of(size, abs);
    lemma_path_contains(size, leaf as nat, level, abs);
    lemma_path_nodes(size, leaf as nat, level);
    let path = path_to_root(size, leaf as nat);
    assert(path[(level + 1) as int] == parent_abs(size, abs));
    assert(path.contains(parent_abs(size, abs)));
}

/// A node above the leaves that lies on a path has a child on that path.
proof fn lemma_on_path_child(size: nat, leaves: Set<usize>, abs: nat)
    requires
        valid_tree_size(size),
        leaves_in_range(size, leaves),
        leaf_count_of(size) <= abs < size,
        on_path(size, leaves, abs),
    ensures
        on_path(size, leaves, (2 * (abs - leaf_count_of(size))) as nat) || on_path(
            size,
            leaves,
            (2 * (abs - leaf_count_of(size)) + 1) as nat,
        ),
{
    let leaf = choose|leaf: usize| #[trigger]
        leaves.contains(leaf) && path_to_root(size, leaf as nat).contains(abs);
    let level = lemma_band_of(size, abs);
    lemma_path_contains(size, leaf as nat, level, abs);
    let below = (level - 1) as nat;
    lemma_path_nodes(size, leaf as nat, below);
    let path = path_to_root(size, leaf as nat);
    let child = path[below as int];
    assert(parent_abs(size, child) == abs);
    assert(path.contains(child));
    assert(child == 2 * (abs - leaf_count_of(size)) || child == 2 * (abs - leaf_count_of(size))
        + 1);
}

/// Where the leaves that come with a proof are leaves of the tree and the proof
/// carries a value for exactly the nodes that the proof for these leaves
/// carries, the verifier has a value for a node exactly if the node lies on a
/// path from one of the leaves or is carried by the proof. For a leaf on a path
/// it is the value that came for the leaf; above the leaves, for a node on a path
/// it is the pair hash of the values of its children; for a node that the proof
/// carries it is the value that the proof carries.
proof fn lemma_resolved_structure<H: PairHasher>(
    size: nat,
    leaves: Map<usize, H::NodeType>,
    nodes: Map<usize, H::NodeType>,
    abs: usize,
)
    requires
        valid_tree_size(size),
        size <= usize::MAX,
        leaves_in_range(size, leaves.dom()),
        nodes.dom() == multi_proof_indices(size, leaves.dom()),
        abs < size,
    ensures
        on_path(size, leaves.dom(), abs as nat) && abs < leaf_count_of(size) ==> resolved::<H>(
            leaf_count_of(size) as usize,
            leaves,
            nodes,
            abs,
        ) == Some(leaves[abs]),
        on_path(size, leaves.dom(), abs as nat) && abs >= leaf_count_of(size) ==> both_resolved::<
            H,
        >(leaf_count_of(size) as usize, leaves, nodes, abs) && resolved::<H>(
            leaf_count_of(size) as usize,
            leaves,
            nodes,
            abs,
        ) == Some(children_hash::<H>(leaf_count_of(size) as usize, leaves, nodes, abs)),
        in_multi_proof(size, leaves.dom(), abs as nat) ==> resolved::<H>(
            leaf_count_of(size) as usize,
            leaves,
            nodes,
            abs,
        ) == Some(nodes[abs]),
        !on_path(size, leaves.dom(), abs as nat) && !in_multi_proof(
            size,
            leaves.dom(),
            abs as nat,
        ) ==> resolved::<H>(leaf_count_of(size) as usize, leaves, nodes, abs) is None,
    decreases abs,
{
    let count = leaf_count_of(size) as usize;
    let set = leaves.dom();
    lemma_tree_size_exp2(size);
    assert(nodes.contains_key(abs) <==> in_multi_proof(size, set, abs as nat)) by {
        assert(nodes.dom().contains(abs) <==> multi_proof_indices(size, set).contains(abs));
    }
    if abs < count {
        lemma_on_path_leaf(size, set, abs);
    } else {
        let left = left_child(count, abs);
        let right = right_child(count, abs);
        assert(left == 2 * (abs - count) && right == left + 1);
        lemma_resolved_structure::<H>(size, leaves, nodes, left);
        lemma_resolved_structure::<H>(size, leaves, nodes, right);
        assert(sibling_index(left as nat) == right && sibling_index(right as nat) == left);
        assert(parent_abs(size, left as nat) == abs && parent_abs(size, right as nat) == abs);
        if on_path(size, set, abs as nat) {
            lemma_on_path_child(size, set, abs as nat);
        } else {
            if on_path(size, set, left as nat) {
                lemma_on_path_parent(size, set, left as nat);
            }
            if on_path(size, set, right as nat) {
                lemma_on_path_parent(size, set, right as nat);
            }
        }
    }
}

/// With the values of a tree, the verifier has for each node on a path and for
/// each node that the proof carries the value of that node in the tree.
proof fn lemma_resolved_values<H: PairHasher>(
    tree: Seq<H::NodeType>,
    leaves: Map<usize, H::NodeType>,
    nodes: Map<usize, H::NodeType>,
    abs: usize,
)
    requires
        is_merkle_array::<H>(tree),
        tree.len() <= usize::MAX,
        leaves_in_range(tree.len(), leaves.dom()),
        nodes.dom() == multi_proof_indices(tree.len(), leaves.dom()),
        forall|k: usize| #[trigger] leaves.contains_key(k) ==> leaves[k] == tree[k as int],
        forall|k: usize| #[trigger] nodes.contains_key(k) ==> nodes[k] == tree[k as int],
        abs < tree.len(),
        on_path(tree.len(), leaves.dom(), abs as nat) || in_multi_proof(
            tree.len(),
            leaves.dom(),
            abs as nat,
        ),
    ensures
        resolved::<H>(leaf_count_of(tree.len()) as usize, leaves, nodes, abs) == Some(
            tree[abs as int],
        ),
    decreases abs,
{
    let size = tree.len();
    let count = leaf_count_of(size) as usize;
    let set = leaves.dom();
    lemma_tree_size_exp2(size);
    lemma_resolved_structure::<H>(size, leaves, nodes, abs);
    assert(nodes.contains_key(abs) <==> in_multi_proof(size, set, abs as nat)) by {
        assert(nodes.dom().contains(abs) <==> multi_proof_indices(size, set).contains(abs));
    }
    if abs < count {
        lemma_on_path_leaf(size, set, abs);
    } else if on_path(size, set, abs as nat) {
        let left = left_child(count, abs);
        let right = right_child(count, abs);
        assert(left == 2 * (abs - count) && right == left + 1);
        lemma_resolved_structure::<H>(size, leaves, nodes, left);
        lemma_resolved_structure::<H>(size, leaves, nodes, right);
        lemma_resolved_values::<H>(tree, leaves, nodes, left);
        lemma_resolved_values::<H>(tree, leaves, nodes, right);
        assert(tree[abs as int] == hash_pair_spec::<H>(
            tree[2 * (abs - count)],
            tree[2 * (abs - count) + 1],
        ));
    }
}

/// Where no two pairs have the same pair hash, a value that differs from the
/// tree at a node on a path or at a node that the proof carries makes the value
/// of the root differ from the tree.
proof fn lemma_difference_reaches_root<H: PairHasher>(
    tree: Seq<H::NodeType>,
    leaves: Map<usize, H::NodeType>,
    nodes: Map<usize, H::NodeType>,
    abs: usize,
)
    requires
        is_merkle_array::<H>(tree),
        collision_free::<H>(),
        tree.len() <= usize::MAX,
        leaves_in_range(tree.len(), leaves.dom()),
        nodes.dom() == multi_proof_indices(tree.len(), leaves.dom()),
        abs < tree.len(),
        on_path(tree.len(), leaves.dom(), abs as nat) || in_multi_proof(
            tree.len(),
            leaves.dom(),
            abs as nat,
        ),
        resolved::<H>(leaf_count_of(tree.len()) as usize, leaves, nodes, abs) != Some(
            tree[abs as int],
        ),
    ensures
        resolved::<H>(
            leaf_count_of(tree.len()) as usize,
            leaves,
            nodes,
            (tree.len() - 1) as usize,
        ) != Some(tree.last()),
    decreases tree.len() - abs,
{
    let size = tree.len();
    let count = leaf_count_of(size) as usize;
    let set = leaves.dom();
    lemma_tree_size_exp2(size);
    if abs + 1 < size {
        let parent = parent_abs(size, abs as nat) as usize;
        let other = sibling_index(abs as nat);
        assert(parent_abs(size, other) == parent);
        if on_path(size, set, abs as nat) {
            lemma_on_path_parent(size, set, abs as nat);
        } else {
            lemma_on_path_parent(size, set, other);
        }
        lemma_resolved_structure::<H>(size, leaves, nodes, parent);
        lemma_resolved_structure::<H>(size, leaves, nodes, abs);
        let left = left_child(count, parent);
        let right = right_child(count, parent);
        assert(left == 2 * (parent - count) && right == left + 1);
        assert(abs == left || abs == right);
        assert(tree[parent as int] == hash_pair_spec::<H>(
            tree[2 * (parent - count)],
            tree[2 * (parent - count) + 1],
        ));
        let left_value = resolved::<H>(count, leaves, nodes, left).unwrap();
        let right_value = resolved::<H>(count, leaves, nodes, right).unwrap();
        if hash_pair_spec::<H>(left_value, right_value) == tree[parent as int] {
            assert(hash_pair_spec::<H>(left_value, right_value) == hash_pair_spec::<H>(
                tree[left as int],
                tree[right as int],
            ));
        }
        lemma_difference_reaches_root::<H>(tree, leaves, nodes, parent);
    }
}

/// The root lies on the path from every leaf.
proof fn lemma_root_on_path(size: nat, leaves: Set<usize>, leaf: usize)
    requires
        valid_tree_size(size),
        leaves_in_range(size, leaves),
        leaves.contains(leaf),
    ensures
        on_path(size, leaves, (size - 1) as nat),
{
    let top = (level_count_of(size) - 1) as nat;
    lemma_path_nodes(size, leaf as nat, top);
    lemma_levels(size, top);
    let path = path_to_root(size, leaf as nat);
    assert(path[top as int] == size - 1);
    assert(path.contains((size - 1) as nat));
}

/// A proof for several leaves that was taken from a tree and detached verifies
/// against the tree, and no longer once a value is changed.
///
/// Take a tree built with a pure hasher, a node type whose `==` is equality, one
/// or more different leaves of the tree, and a detached proof that carries a
/// value for exactly the nodes that the proof for these leaves carries, with the
/// leaf count of the tree. If the proof carries the values of the tree, then
/// verifying the values of the leaves against the root of the tree passes. Where
/// in addition no two pairs have the same pair hash, verifying fails as soon as
/// the value that comes for one of the leaves, or one that the proof carries,
/// is not the value of the tree.
pub proof fn lemma_multi_proof_round_trip<T: Clone + PartialEq, H: PairHasher<NodeType = T>>(
    tree: MerkleTree<T, H>,
    hashes: MultiProofHashes<T, H>,
    leaves: Map<usize, T>,
)
    requires
        tree.wf(),
        is_pure::<H>(),
        vstd::laws_eq::obeys_concrete_eq::<T>(),
        hashes.spec_leaf_count() == leaf_count_of(tree@.len()),
        hashes.spec_nodes().dom() == multi_proof_indices(tree@.len(), leaves.dom()),
        leaves_in_range(tree@.len(), leaves.dom()),
        exists|leaf: usize| leaves.contains_key(leaf),
    ensures
        valid_input(hashes.spec_leaf_count(), leaves, hashes.spec_nodes()),
        hashes.computed_root(leaves) is Some,
        (forall|k: usize| #[trigger] leaves.contains_key(k) ==> leaves[k] == tree@[k as int])
            && (forall|k: usize| #[trigger]
            hashes.spec_nodes().contains_key(k) ==> hashes.spec_nodes()[k] == tree@[k as int])
            ==> hashes.spec_verify(leaves, tree.spec_root())
            == ProofVerifyResult::PassedDecisively,
        collision_free::<H>() && ((exists|k: usize|
            leaves.contains_key(k) && leaves[k] != tree@[k as int]) || (exists|k: usize|
            hashes.spec_nodes().contains_key(k) && hashes.spec_nodes()[k] != tree@[k as int]))
            ==> hashes.spec_verify(leaves, tree.spec_root())
            == ProofVerifyResult::FailedDecisively,
{
    reveal(vstd::laws_eq::obeys_concrete_eq);
    tree.lemma_wf();
    let size = tree@.len();
    let count = leaf_count_of(size) as usize;
    let nodes = hashes.spec_nodes();
    let set = leaves.dom();
    let root = (size - 1) as usize;
    lemma_tree_size_exp2(size);
    assert(root == hashes.spec_root_index());
    assert forall|k: usize| #[trigger] nodes.contains_key(k) implies k + 1 < 2 * count by {
        assert(nodes.dom().contains(k));
        assert(multi_proof_indices(size, set).contains(k));
    }
    let leaf = choose|leaf: usize| leaves.contains_key(leaf);
    lemma_root_on_path(size, set, leaf);
    lemma_resolved_structure::<H>(size, leaves, nodes, root);
    if (forall|k: usize| #[trigger] leaves.contains_key(k) ==> leaves[k] == tree@[k as int])
        && (forall|k: usize| #[trigger] nodes.contains_key(k) ==> nodes[k] == tree@[k as int]) {
        lemma_resolved_values::<H>(tree@, leaves, nodes, root);
    }
    if collision_free::<H>() {
        if exists|k: usize| leaves.contains_key(k) && leaves[k] != tree@[k as int] {
            let k = choose|k: usize| leaves.contains_key(k) && leaves[k] != tree@[k as int];
            lemma_on_path_leaf(size, set, k);
            lemma_resolved_structure::<H>(size, leaves, nodes, k);
            lemma_difference_reaches_root::<H>(tree@, leaves, nodes, k);
        }
        if exists|k: usize| nodes.contains_key(k) && nodes[k] != tree@[k as int] {
            let k = choose|k: usize| nodes.contains_key(k) && nodes[k] != tree@[k as int];
            assert(nodes.dom().contains(k));
            assert(multi_proof_indices(size, set).contains(k));
            lemma_resolved_structure::<H>(size, leaves, nodes, k);
            lemma_difference_reaches_root::<H>(tree@, leaves, nodes, k);
        }
    }
}

} // verus!
