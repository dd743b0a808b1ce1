//! Which nodes a proof for several leaves carries, and how they are found.
//!
//! On each level below the root, the nodes on the paths from the leaves to the
//! root are known to the verifier. The proof carries the sibling of each of them
//! that is not known itself. The parents of the known nodes are the known nodes
//! of the next level.

use crate::hasher::PairHasher;
use crate::tree::node::Node;
use crate::tree::shape::{
    leaf_count_of, lemma_level_start_even, lemma_levels, lemma_path_contains, lemma_path_nodes,
    lemma_tree_size_exp2, level_count_of, level_start, level_width, parent_abs, path_node,
    path_to_root, sibling_index, valid_tree_size,
};
use crate::tree::{MerkleTree, MerkleTreeAccessError};
use vstd::prelude::*;

verus! {

/// Whether `list` holds `value`.
pub(crate) open spec fn holds(list: Seq<usize>, value: nat) -> bool {
    exists|q: int| 0 <= q < list.len() && #[trigger] list[q] == value
}

/// Whether the node at `abs` lies on the path from one of `leaves` to the root:
/// whether it is one of the leaves or above one.
pub open spec fn on_path(size: nat, leaves: Set<usize>, abs: nat) -> bool {
    exists|leaf: usize| #[trigger]
        leaves.contains(leaf) && path_to_root(size, leaf as nat).contains(abs)
}

/// Whether the proof for `leaves` carries the node at `abs`: a node below the
/// root that lies on none of the paths from the leaves to the root, while its
/// sibling lies on one.
pub open spec fn in_multi_proof(size: nat, leaves: Set<usize>, abs: nat) -> bool {
    &&& abs + 1 < size
    &&& !on_path(size, leaves, abs)
    &&& on_path(size, leaves, sibling_index(abs))
}

/// The absolute indices of the nodes that the proof for `leaves` carries.
pub open spec fn multi_proof_indices(size: nat, leaves: Set<usize>) -> Set<usize> {
    Set::new(|abs: usize| in_multi_proof(size, leaves, abs as nat))
}

/// Whether the node at `abs` is the node of `level` on the path from one of
/// `leaves` to the root.
pub(crate) open spec fn on_level_path(size: nat, leaves: Seq<usize>, level: nat, abs: nat) -> bool {
    exists|q: int|
        0 <= q < leaves.len() && #[trigger] path_node(size, leaves[q] as nat, level) == abs
}

/// Whether `abs` is the sibling of one of the first `upto` entries of `list`.
pub(crate) open spec fn sibling_found(list: Seq<usize>, upto: int, abs: nat) -> bool {
    exists|t: int| 0 <= t < upto && sibling_index(#[trigger] list[t] as nat) == abs
}

/// Whether `abs` is the parent of one of the first `upto` entries of `list`.
pub(crate) open spec fn parent_found(size: nat, list: Seq<usize>, upto: int, abs: nat) -> bool {
    exists|t: int| 0 <= t < upto && parent_abs(size, #[trigger] list[t] as nat) == abs
}

/// In the band of a level, the nodes on a path from one of the leaves are the
/// nodes of that level on these paths.
pub(crate) proof fn lemma_on_path_in_band(size: nat, leaves: Seq<usize>, level: nat, abs: nat)
    requires
        valid_tree_size(size),
        forall|q: int| 0 <= q < leaves.len() ==> #[trigger] leaves[q] < leaf_count_of(size),
        level < level_count_of(size),
        level_start(size, level) <= abs < level_start(size, level) + level_width(size, level),
    ensures
        on_path(size, leaves.to_set(), abs) <==> on_level_path(size, leaves, level, abs),
{
    if on_path(size, leaves.to_set(), abs) {
        let leaf = choose|leaf: usize| #[trigger]
            leaves.to_set().contains(leaf) && path_to_root(size, leaf as nat).contains(abs);
        assert(leaves.contains(leaf));
        let q = choose|q: int| 0 <= q < leaves.len() && leaves[q] == leaf;
        lemma_path_contains(size, leaf as nat, level, abs);
        assert(path_node(size, leaves[q] as nat, level) == abs);
    }
    if on_level_path(size, leaves, level, abs) {
        let q = choose|q: int|
            0 <= q < leaves.len() && #[trigger] path_node(size, leaves[q] as nat, level) == abs;
        let leaf = leaves[q];
        lemma_path_contains(size, leaf as nat, level, abs);
        assert(leaves.contains(leaf));
        assert(leaves.to_set().contains(leaf));
    }
}

/// The nodes of the next level on the paths from the leaves are the parents of
/// the nodes of this level on them.
pub(crate) proof fn lemma_on_level_path_step(
    size: nat,
    leaves: Seq<usize>,
    level: nat,
    current: Seq<usize>,
    abs: nat,
)
    requires
        valid_tree_size(size),
        forall|q: int| 0 <= q < leaves.len() ==> #[trigger] leaves[q] < leaf_count_of(size),
        level + 1 < level_count_of(size),
        forall|a: nat| holds(current, a) <==> on_level_path(size, leaves, level, a),
    ensures
        on_level_path(size, leaves, level + 1, abs) <==> parent_found(
            size,
            current,
            current.len() as int,
            abs,
        ),
{
    if on_level_path(size, leaves, level + 1, abs) {
        let q = choose|q: int|
            0 <= q < leaves.len() && #[trigger] path_node(size, leaves[q] as nat, level + 1)
                == abs;
        let below = path_node(size, leaves[q] as nat, level);
        lemma_path_nodes(size, leaves[q] as nat, level);
        assert(on_level_path(size, leaves, level, below));
        assert(holds(current, below));
        let t = choose|t: int| 0 <= t < current.len() && #[trigger] current[t] == below;
        assert(parent_abs(size, current[t] as nat) == abs);
    }
    if parent_found(size, current, current.len() as int, abs) {
        let t = choose|t: int|
            0 <= t < current.len() && parent_abs(size, #[trigger] current[t] as nat) == abs;
        let below = current[t] as nat;
        assert(holds(current, below));
        assert(on_level_path(size, leaves, level, below));
        let q = choose|q: int|
            0 <= q < leaves.len() && #[trigger] path_node(size, leaves[q] as nat, level)
                == below;
        lemma_path_nodes(size, leaves[q] as nat, level);
        assert(path_node(size, leaves[q] as nat, level + 1) == abs);
    }
}

/// Whether `value` is one of the first `upto` entries of `list`.
pub(crate) open spec fn index_found(list: Seq<nat>, upto: int, value: nat) -> bool {
    exists|t: int| 0 <= t < upto && #[trigger] list[t] == value
}

/// The absolute indices of `nodes`, in their order.
pub open spec fn node_indices<'a, T: Clone, H: PairHasher<NodeType = T>>(
    nodes: Seq<Node<'a, T, H>>,
) -> Seq<nat> {
    Seq::new(nodes.len(), |k: int| nodes[k].spec_abs_index())
}

/// Whether `error` is the refusal that a request for a proof for `leaves` from a
/// tree with `leaf_count` leaves gets: the first index out of range, or, if all
/// are in range, the first index that repeats an earlier one.
pub open spec fn refusal(
    leaves: Seq<usize>,
    leaf_count: nat,
    error: MerkleTreeAccessError,
) -> bool {
    match error {
        MerkleTreeAccessError::LeafIndexOutOfRange(index, count) => exists|q: int|
            {
                &&& 0 <= q < leaves.len()
                &&& #[trigger] leaves[q] == index
                &&& index >= leaf_count
                &&& count == leaf_count
                &&& forall|t: int| 0 <= t < q ==> #[trigger] leaves[t] < leaf_count
            },
        MerkleTreeAccessError::DuplicateLeafIndex(index) => exists|q: int|
            {
                &&& 0 <= q < leaves.len()
                &&& #[trigger] leaves[q] == index
                &&& forall|t: int| 0 <= t < leaves.len() ==> #[trigger] leaves[t] < leaf_count
                &&& leaves.subrange(0, q).no_duplicates()
                &&& leaves.subrange(0, q).contains(index)
            },
        MerkleTreeAccessError::IterStartIndexOutOfRange(_, _) => false,
    }
}

/// A list without duplicates stays so when a value that it does not hold is
/// added.
pub(crate) proof fn lemma_push_no_duplicates(list: Seq<nat>, value: nat)
    requires
        list.no_duplicates(),
        !list.contains(value),
    ensures
        list.push(value).no_duplicates(),
{
    let after = list.push(value);
    assert forall|a: int, b: int|
        0 <= a < after.len() && 0 <= b < after.len() && a != b implies after[a] != after[b] by {
        if a < list.len() && b < list.len() {
            assert(list[a] != list[b]);
        } else if a < list.len() {
            assert(list.contains(list[a]));
        } else if b < list.len() {
            assert(list.contains(list[b]));
        }
    }
}

/// A list without duplicates stays so when a value that it does not hold is
/// added.
pub(crate) proof fn lemma_push_no_duplicates_usize(list: Seq<usize>, value: usize)
    requires
        list.no_duplicates(),
        !holds(list, value as nat),
    ensures
        list.push(value).no_duplicates(),
{
    let after = list.push(value);
    assert forall|a: int, b: int|
        0 <= a < after.len() && 0 <= b < after.len() && a != b implies after[a] != after[b] by {
        if a < list.len() && b < list.len() {
            assert(list[a] != list[b]);
        } else if a < list.len() {
            assert(list[a] != value);
        } else if b < list.len() {
            assert(list[b] != value);
        }
    }
}

/// What a list holds it still holds after it has grown at its end or stayed as
/// it was.
pub(crate) proof fn lemma_contains_after_push(before: Seq<nat>, after: Seq<nat>, value: nat)
    requires
        before.contains(value),
        after == before || exists|added: nat| after == before.push(added),
    ensures
        after.contains(value),
{
    let k = choose|k: int| 0 <= k < before.len() && before[k] == value;
    assert(after[k] == value);
}

/// Whether `list` holds `value`.
pub(crate) fn list_holds(list: &Vec<usize>, value: usize) -> (found: bool)
    ensures
        found == holds(list@, value as nat),
{
    let mut q: usize = 0;
    while q < list.len()
        invariant
            q <= list@.len(),
            forall|t: int| 0 <= t < q ==> #[trigger] list@[t] != value,
        decreases list@.len() - q,
    {
        if list[q] == value {
            return true;
        }
        q = q + 1;
    }
    false
}

/// The refusal that a request for a proof for the leaves at `indices` gets from
/// a tree with `leaf_count` leaves, if it is refused.
pub(crate) fn first_refusal(indices: &[usize], leaf_count: usize) -> (error: Option<
    MerkleTreeAccessError,
>)
    ensures
        error is None <==> indices@.no_duplicates() && forall|q: int|
            0 <= q < indices@.len() ==> #[trigger] indices@[q] < leaf_count,
        error matches Some(e) ==> refusal(indices@, leaf_count as nat, e),
{
    let given: usize = indices.len();
    let mut j: usize = 0;
    while j < given
        invariant
            given == indices@.len(),
            j <= given,
            forall|q: int| 0 <= q < j ==> #[trigger] indices@[q] < leaf_count,
        decreases given - j,
    {
        let index: usize = indices[j];
        if index >= leaf_count {
            proof {
                assert(indices@[j as int] == index);
            }
            return Some(MerkleTreeAccessError::LeafIndexOutOfRange(index, leaf_count));
        }
        j = j + 1;
    }
    let mut j: usize = 0;
    while j < given
        invariant
            given == indices@.len(),
            j <= given,
            forall|q: int| 0 <= q < given ==> #[trigger] indices@[q] < leaf_count,
            indices@.subrange(0, j as int).no_duplicates(),
        decreases given - j,
    {
        let index: usize = indices[j];
        let mut i: usize = 0;
        while i < j
            invariant
                given == indices@.len(),
                i <= j < given,
                index == indices@[j as int],
                forall|q: int| 0 <= q < given ==> #[trigger] indices@[q] < leaf_count,
                forall|q: int| 0 <= q < i ==> #[trigger] indices@[q] != index,
                indices@.subrange(0, j as int).no_duplicates(),
            decreases j - i,
        {
            if indices[i] == index {
                proof {
                    let prefix = indices@.subrange(0, j as int);
                    assert(indices@[i as int] == indices@[j as int]);
                    assert(prefix[i as int] == index);
                    assert(prefix.contains(index));
                }
                return Some(MerkleTreeAccessError::DuplicateLeafIndex(index));
            }
            i = i + 1;
        }
        proof {
            let before = indices@.subrange(0, j as int);
            let after = indices@.subrange(0, j + 1);
            assert forall|a: int, b: int|
                0 <= a < after.len() && 0 <= b < after.len() && a != b implies after[a]
                != after[b] by {
                if a < j && b < j {
                    assert(before[a] != before[b]);
                }
            }
        }
        j = j + 1;
    }
    proof {
        assert(indices@.subrange(0, given as int) =~= indices@);
    }
    None
}

/// A copy of `list`.
pub(crate) fn copy_list(list: &[usize]) -> (copy: Vec<usize>)
    ensures
        copy@ == list@,
{
    let mut copy: Vec<usize> = Vec::new();
    let mut j: usize = 0;
    while j < list.len()
        invariant
            j <= list@.len(),
            copy@ == list@.subrange(0, j as int),
        decreases list@.len() - j,
    {
        copy.push(list[j]);
        proof {
            assert(copy@ =~= list@.subrange(0, j + 1));
        }
        j = j + 1;
    }
    proof {
        assert(copy@ =~= list@);
    }
    copy
}

/// At the bottom, the nodes on the paths from the leaves are the leaves.
pub(crate) proof fn lemma_bottom_level(size: nat, leaves: Seq<usize>, abs: nat)
    requires
        valid_tree_size(size),
        forall|q: int| 0 <= q < leaves.len() ==> #[trigger] leaves[q] < leaf_count_of(size),
    ensures
        holds(leaves, abs) <==> on_level_path(size, leaves, 0, abs),
{
    if holds(leaves, abs) {
        let q = choose|q: int| 0 <= q < leaves.len() && #[trigger] leaves[q] == abs;
        lemma_path_nodes(size, leaves[q] as nat, 0);
        assert(path_node(size, leaves[q] as nat, 0) == abs);
    }
    if on_level_path(size, leaves, 0, abs) {
        let q = choose|q: int|
            0 <= q < leaves.len() && #[trigger] path_node(size, leaves[q] as nat, 0) == abs;
        lemma_path_nodes(size, leaves[q] as nat, 0);
        assert(leaves[q] == abs);
    }
}

/// Whether `nodes` are, each once, the nodes of `tree` below `bound` that the
/// proof for `leaves` carries.
pub(crate) open spec fn carries_below<'a, T: Clone, H: PairHasher<NodeType = T>>(
    nodes: Seq<Node<'a, T, H>>,
    tree: MerkleTree<T, H>,
    leaves: Seq<usize>,
    bound: int,
) -> bool {
    &&& forall|k: int| 0 <= k < nodes.len() ==> (#[trigger] nodes[k]).wf()
    &&& forall|k: int| 0 <= k < nodes.len() ==> (#[trigger] nodes[k]).spec_tree() == tree
    &&& node_indices(nodes).no_duplicates()
    &&& forall|a: nat| #[trigger] node_indices(nodes).contains(a) ==> a < bound
    &&& forall|a: nat|
        #![trigger node_indices(nodes).contains(a)]
        #![trigger in_multi_proof(tree@.len(), leaves.to_set(), a)]
        node_indices(nodes).contains(a) <==> a < bound && in_multi_proof(
            tree@.len(),
            leaves.to_set(),
            a,
        )
}

/// Whether `current` holds, each once, the nodes of `level` on the paths from
/// `leaves` to the root of a tree with `size` nodes.
pub(crate) open spec fn is_level_of_paths(
    size: nat,
    leaves: Seq<usize>,
    level: nat,
    current: Seq<usize>,
) -> bool {
    &&& current.no_duplicates()
    &&& forall|q: int|
        0 <= q < current.len() ==> level_start(size, level) <= #[trigger] current[q]
            < level_start(size, level) + level_width(size, level)
    &&& forall|a: nat|
        #![trigger holds(current, a)]
        #![trigger on_level_path(size, leaves, level, a)]
        holds(current, a) <==> on_level_path(size, leaves, level, a)
}

/// Adds to `nodes` the nodes of a level that the proof for `leaves` carries, and
/// returns the nodes of the next level on the paths from the leaves to the root.
/// The level is the one that starts at `start` and has the width `width`, and
/// `current` holds its nodes on the paths.
pub(crate) fn climb_level<'a, T: Clone, H: PairHasher<NodeType = T>>(
    tree: &'a MerkleTree<T, H>,
    current: &Vec<usize>,
    nodes: &mut Vec<Node<'a, T, H>>,
    start: usize,
    width: usize,
    at: Ghost<nat>,
    leaves: Ghost<Seq<usize>>,
) -> (next: Vec<usize>)
    requires
        tree.wf(),
        at@ + 1 < level_count_of(tree@.len()),
        start == level_start(tree@.len(), at@),
        width == level_width(tree@.len(), at@),
        forall|q: int|
            0 <= q < leaves@.len() ==> #[trigger] leaves@[q] < leaf_count_of(tree@.len()),
        is_level_of_paths(tree@.len(), leaves@, at@, current@),
        carries_below(old(nodes)@, *tree, leaves@, start as int),
    ensures
        is_level_of_paths(tree@.len(), leaves@, at@ + 1, next@),
        carries_below(final(nodes)@, *tree, leaves@, start + width),
{
    proof {
        tree.lemma_wf();
    }
    let ghost size = tree@.len();
    let ghost wanted = leaves@;
    let ghost level = at@;
    let leaf_count: usize = tree.leaf_count().get();
    proof {
        lemma_levels(size, level);
        lemma_levels(size, level + 1);
        lemma_level_start_even(size, level);
        lemma_tree_size_exp2(size);
    }
    let ghost before = node_indices(nodes@);
    let mut next: Vec<usize> = Vec::new();
    let mut q: usize = 0;
    while q < current.len()
        invariant
            tree.wf(),
            size == tree@.len(),
            valid_tree_size(size),
            size <= usize::MAX,
            leaf_count == leaf_count_of(size),
            size + 1 == 2 * leaf_count,
            start % 2 == 0,
            start + width < size,
            q <= current@.len(),
            current@.no_duplicates(),
            forall|t: int|
                0 <= t < current@.len() ==> start <= #[trigger] current@[t] < start + width,
            next@.no_duplicates(),
            forall|a: nat|
                #![trigger holds(next@, a)]
                #![trigger parent_found(size, current@, q as int, a)]
                holds(next@, a) <==> parent_found(size, current@, q as int, a),
            forall|k: int| 0 <= k < nodes@.len() ==> (#[trigger] nodes@[k]).wf(),
            forall|k: int|
                0 <= k < nodes@.len() ==> (#[trigger] nodes@[k]).spec_tree() == *tree,
            node_indices(nodes@).no_duplicates(),
            forall|a: nat| #[trigger] before.contains(a) ==> a < start,
            forall|a: nat|
                #![trigger node_indices(nodes@).contains(a)]
                #![trigger sibling_found(current@, q as int, a)]
                node_indices(nodes@).contains(a) <==> before.contains(a) || (!holds(
                    current@,
                    a,
                ) && sibling_found(current@, q as int, a)),
        decreases current@.len() - q,
    {
        let here: usize = current[q];
        let sibling: usize = if here % 2 == 0 {
            here + 1
        } else {
            here - 1
        };
        let parent: usize = leaf_count + here / 2;
        let ghost old_indices = node_indices(nodes@);
        let ghost old_next = next@;
        let carried = !list_holds(current, sibling);
        if carried {
            nodes.push(Node::new(tree, sibling));
        }
        let fresh = !list_holds(&next, parent);
        if fresh {
            next.push(parent);
        }
        proof {
            assert(node_indices(nodes@) =~= if carried {
                old_indices.push(sibling as nat)
            } else {
                old_indices
            });
            lemma_sibling_step(
                before,
                old_indices,
                node_indices(nodes@),
                current@,
                q as int,
                start as int,
            );
            lemma_parent_step(size, old_next, next@, current@, q as int);
        }
        q = q + 1;
    }
    proof {
        lemma_level_climbed(
            size,
            wanted,
            level,
            current@,
            next@,
            before,
            node_indices(nodes@),
        );
    }
    next
}

/// One step of the search for the nodes that a proof carries: the sibling of the
/// entry at `q` is added if `current` does not hold it.
proof fn lemma_sibling_step(
    before: Seq<nat>,
    old_indices: Seq<nat>,
    indices: Seq<nat>,
    current: Seq<usize>,
    q: int,
    start: int,
)
    requires
        0 <= q < current.len(),
        current.no_duplicates(),
        forall|t: int| 0 <= t < current.len() ==> start <= #[trigger] current[t],
        start % 2 == 0,
        forall|a: nat| #[trigger] before.contains(a) ==> a < start,
        old_indices.no_duplicates(),
        forall|a: nat|
            #![trigger old_indices.contains(a)]
            #![trigger sibling_found(current, q, a)]
            old_indices.contains(a) <==> before.contains(a) || (!holds(current, a)
                && sibling_found(current, q, a)),
        indices == if holds(current, sibling_index(current[q] as nat)) {
            old_indices
        } else {
            old_indices.push(sibling_index(current[q] as nat))
        },
    ensures
        indices.no_duplicates(),
        forall|a: nat|
            #![trigger indices.contains(a)]
            #![trigger sibling_found(current, q + 1, a)]
            indices.contains(a) <==> before.contains(a) || (!holds(current, a) && sibling_found(
                current,
                q + 1,
                a,
            )),
{
    let here = current[q];
    let sibling = sibling_index(here as nat);
    let carried = !holds(current, sibling);
    if carried {
        assert(!old_indices.contains(sibling)) by {
            if old_indices.contains(sibling) && !before.contains(sibling) {
                let t = choose|t: int|
                    0 <= t < q && sibling_index(#[trigger] current[t] as nat) == sibling;
                assert(current[t] == here);
            }
        }
        lemma_push_no_duplicates(old_indices, sibling);
    }
    assert forall|a: nat|
        #![trigger indices.contains(a)]
        #![trigger sibling_found(current, q + 1, a)]
        indices.contains(a) <==> before.contains(a) || (!holds(current, a) && sibling_found(
            current,
            q + 1,
            a,
        )) by {
        if indices.contains(a) {
            if old_indices.contains(a) {
                if !before.contains(a) {
                    let t = choose|t: int|
                        0 <= t < q && sibling_index(#[trigger] current[t] as nat) == a;
                    assert(sibling_index(current[t] as nat) == a);
                }
            } else {
                let k = choose|k: int| 0 <= k < indices.len() && indices[k] == a;
                assert(a == sibling);
                assert(sibling_index(current[q] as nat) == a);
            }
        }
        if !holds(current, a) && sibling_found(current, q + 1, a) {
            let t = choose|t: int|
                0 <= t < q + 1 && sibling_index(#[trigger] current[t] as nat) == a;
            if t < q {
                assert(sibling_found(current, q, a));
                assert(old_indices.contains(a));
                lemma_contains_after_push(old_indices, indices, a);
            } else {
                assert(a == sibling);
                assert(indices[indices.len() - 1] == a);
            }
        }
        if before.contains(a) {
            assert(old_indices.contains(a));
            lemma_contains_after_push(old_indices, indices, a);
        }
    }
}

/// One step of the search for the nodes of the next level: the parent of the
/// entry at `q` is added if `next` does not hold it yet.
proof fn lemma_parent_step(
    size: nat,
    old_next: Seq<usize>,
    next: Seq<usize>,
    current: Seq<usize>,
    q: int,
)
    requires
        0 <= q < current.len(),
        parent_abs(size, current[q] as nat) <= usize::MAX,
        old_next.no_duplicates(),
        forall|a: nat|
            #![trigger holds(old_next, a)]
            #![trigger parent_found(size, current, q, a)]
            holds(old_next, a) <==> parent_found(size, current, q, a),
        next == if holds(old_next, parent_abs(size, current[q] as nat)) {
            old_next
        } else {
            old_next.push(parent_abs(size, current[q] as nat) as usize)
        },
    ensures
        next.no_duplicates(),
        forall|a: nat|
            #![trigger holds(next, a)]
            #![trigger parent_found(size, current, q + 1, a)]
            holds(next, a) <==> parent_found(size, current, q + 1, a),
{
    let parent = parent_abs(size, current[q] as nat) as usize;
    let fresh = !holds(old_next, parent as nat);
    if fresh {
        lemma_push_no_duplicates_usize(old_next, parent);
    }
    assert forall|a: nat|
        #![trigger holds(next, a)]
        #![trigger parent_found(size, current, q + 1, a)]
        holds(next, a) <==> parent_found(size, current, q + 1, a) by {
        if holds(next, a) {
            let t = choose|t: int| 0 <= t < next.len() && #[trigger] next[t] == a;
            if t < old_next.len() {
                assert(old_next[t] == a);
                assert(holds(old_next, a));
                let u = choose|u: int|
                    0 <= u < q && parent_abs(size, #[trigger] current[u] as nat) == a;
                assert(parent_abs(size, current[u] as nat) == a);
            } else {
                assert(parent_abs(size, current[q] as nat) == a);
            }
        }
        if parent_found(size, current, q + 1, a) {
            let u = choose|u: int|
                0 <= u < q + 1 && parent_abs(size, #[trigger] current[u] as nat) == a;
            if u < q {
                assert(parent_found(size, current, q, a));
                assert(holds(old_next, a));
                let t = choose|t: int| 0 <= t < old_next.len() && #[trigger] old_next[t] == a;
                assert(next[t] == a);
            } else {
                assert(a == parent);
                if fresh {
                    assert(next[next.len() - 1] == a);
                } else {
                    assert(holds(old_next, a));
                    let t = choose|t: int|
                        0 <= t < old_next.len() && #[trigger] old_next[t] == a;
                    assert(next[t] == a);
                }
            }
        }
    }
}

/// After a level has been searched, `next` holds the nodes of the next level on
/// the paths from the leaves, and the indices found hold, besides what they held
/// before, the nodes of the level that the proof carries.
proof fn lemma_level_climbed(
    size: nat,
    leaves: Seq<usize>,
    level: nat,
    current: Seq<usize>,
    next: Seq<usize>,
    before: Seq<nat>,
    indices: Seq<nat>,
)
    requires
        valid_tree_size(size),
        level + 1 < level_count_of(size),
        forall|q: int| 0 <= q < leaves.len() ==> #[trigger] leaves[q] < leaf_count_of(size),
        is_level_of_paths(size, leaves, level, current),
        next.no_duplicates(),
        forall|a: nat|
            #![trigger holds(next, a)]
            #![trigger parent_found(size, current, current.len() as int, a)]
            holds(next, a) <==> parent_found(size, current, current.len() as int, a),
        forall|a: nat| #[trigger] before.contains(a) ==> a < level_start(size, level),
        forall|a: nat|
            #![trigger before.contains(a)]
            #![trigger in_multi_proof(size, leaves.to_set(), a)]
            before.contains(a) <==> a < level_start(size, level) && in_multi_proof(
                size,
                leaves.to_set(),
                a,
            ),
        forall|a: nat|
            #![trigger indices.contains(a)]
            #![trigger sibling_found(current, current.len() as int, a)]
            indices.contains(a) <==> before.contains(a) || (!holds(current, a) && sibling_found(
                current,
                current.len() as int,
                a,
            )),
    ensures
        is_level_of_paths(size, leaves, level + 1, next),
        forall|a: nat| #[trigger] indices.contains(a) ==> a < level_start(size, level + 1),
        forall|a: nat|
            #![trigger indices.contains(a)]
            #![trigger in_multi_proof(size, leaves.to_set(), a)]
            indices.contains(a) <==> a < level_start(size, level + 1) && in_multi_proof(
                size,
                leaves.to_set(),
                a,
            ),
{
    let start = level_start(size, level);
    let width = level_width(size, level);
    let above = (level + 1) as nat;
    lemma_levels(size, level);
    lemma_levels(size, above);
    lemma_level_start_even(size, level);
    lemma_tree_size_exp2(size);
    assert forall|a: nat|
        #![trigger holds(next, a)]
        #![trigger on_level_path(size, leaves, above, a)]
        holds(next, a) <==> on_level_path(size, leaves, above, a) by {
        lemma_on_level_path_step(size, leaves, level, current, a);
    }
    assert forall|t: int| 0 <= t < next.len() implies level_start(size, above)
        <= #[trigger] next[t] < level_start(size, above) + level_width(size, above) by {
        let a = next[t] as nat;
        assert(holds(next, a));
        let u = choose|u: int|
            0 <= u < current.len() && parent_abs(size, #[trigger] current[u] as nat) == a;
        assert(start <= current[u] < start + width);
    }
    assert forall|a: nat| #[trigger] indices.contains(a) implies a < start + width by {
        if !before.contains(a) {
            let t = choose|t: int|
                0 <= t < current.len() && sibling_index(#[trigger] current[t] as nat) == a;
            assert(start <= current[t] < start + width);
        }
    }
    assert forall|a: nat|
        #![trigger indices.contains(a)]
        #![trigger in_multi_proof(size, leaves.to_set(), a)]
        indices.contains(a) <==> a < start + width && in_multi_proof(size, leaves.to_set(), a) by {
        if start <= a < start + width {
            lemma_on_path_in_band(size, leaves, level, a);
            let other = sibling_index(a);
            lemma_on_path_in_band(size, leaves, level, other);
            assert(sibling_index(other) == a);
            if holds(current, other) {
                let t = choose|t: int| 0 <= t < current.len() && #[trigger] current[t] == other;
                assert(sibling_index(current[t] as nat) == a);
                assert(sibling_found(current, current.len() as int, a));
            }
            if sibling_found(current, current.len() as int, a) {
                let t = choose|t: int|
                    0 <= t < current.len() && sibling_index(#[trigger] current[t] as nat) == a;
                assert(current[t] == other);
                assert(holds(current, other));
            }
            assert(!before.contains(a));
        } else if a < start {
            if sibling_found(current, current.len() as int, a) {
                let t = choose|t: int|
                    0 <= t < current.len() && sibling_index(#[trigger] current[t] as nat) == a;
                assert(start <= current[t] < start + width);
            }
        }
    }
}

} // verus!
