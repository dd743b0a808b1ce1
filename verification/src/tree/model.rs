//! The mathematical model of a tree: its node sequence as a function of its leaves.

use super::shape::{
    is_power_of_two, leaf_count_of, lemma_power_of_two_halves, next_power_of_two, valid_tree_size,
};
use crate::hasher::{hash_pair_spec, hash_single_spec, PairHasher};
use vstd::prelude::*;

verus! {

/// `level` extended to `width` nodes, each added node the single hash of the node
/// before it. A sequence that is empty or long enough stays as it is.
pub open spec fn pad_to<H: PairHasher>(level: Seq<H::NodeType>, width: nat) -> Seq<H::NodeType>
    decreases width - level.len(),
{
    if level.len() == 0 || level.len() >= width {
        level
    } else {
        pad_to::<H>(level.push(hash_single_spec::<H>(level.last())), width)
    }
}

/// The bottom level of the tree over `leaves`: the leaves, padded to the next
/// power of two.
pub open spec fn padded_leaves<H: PairHasher>(leaves: Seq<H::NodeType>) -> Seq<H::NodeType> {
    pad_to::<H>(leaves, next_power_of_two(leaves.len()))
}

/// The level above `level`: the pair hashes of its adjacent pairs, left to right.
pub open spec fn fold_level<H: PairHasher>(level: Seq<H::NodeType>) -> Seq<H::NodeType> {
    Seq::new(level.len() / 2, |i: int| hash_pair_spec::<H>(level[2 * i], level[2 * i + 1]))
}

/// All nodes of the tree whose bottom level is `level`: that level, then the
/// levels above it in turn, up to the level of one node.
pub open spec fn tree_nodes<H: PairHasher>(level: Seq<H::NodeType>) -> Seq<H::NodeType>
    decreases level.len(),
{
    if level.len() <= 1 {
        level
    } else {
        level + tree_nodes::<H>(fold_level::<H>(level))
    }
}

/// Whether `nodes` is the flat array of a tree: its length is a tree size, and
/// each node above the leaves is the pair hash of its two children. The `j`-th
/// node above the leaves has the children at the absolute indices `2 * j` and
/// `2 * j + 1`.
pub open spec fn is_merkle_array<H: PairHasher>(nodes: Seq<H::NodeType>) -> bool {
    let leaf_count = leaf_count_of(nodes.len());
    &&& valid_tree_size(nodes.len())
    &&& forall|p: int|
        leaf_count <= p < nodes.len() ==> #[trigger] nodes[p] == hash_pair_spec::<H>(
            nodes[2 * (p - leaf_count)],
            nodes[2 * (p - leaf_count) + 1],
        )
}

/// Padding keeps what is there and fills up to the width with a chain of single
/// hashes.
pub proof fn lemma_pad_to<H: PairHasher>(level: Seq<H::NodeType>, width: nat)
    requires
        1 <= level.len() <= width,
    ensures
        pad_to::<H>(level, width).len() == width,
        forall|i: int| 0 <= i < level.len() ==> #[trigger] pad_to::<H>(level, width)[i] == level[i],
        forall|i: int|
            level.len() <= i < width ==> #[trigger] pad_to::<H>(level, width)[i]
                == hash_single_spec::<H>(pad_to::<H>(level, width)[i - 1]),
    decreases width - level.len(),
{
    if level.len() < width {
        let next = level.push(hash_single_spec::<H>(level.last()));
        lemma_pad_to::<H>(next, width);
        let padded = pad_to::<H>(level, width);
        assert forall|i: int| 0 <= i < level.len() implies #[trigger] padded[i] == level[i] by {
            assert(next[i] == level[i]);
        }
        assert forall|i: int| level.len() <= i < width implies #[trigger] padded[i]
            == hash_single_spec::<H>(padded[i - 1]) by {
            if i == level.len() {
                assert(padded[i] == next[i]);
                assert(padded[i - 1] == next[i - 1]);
            }
        }
    }
}

/// The model has as many nodes as a tree over a power of two of leaves.
pub proof fn lemma_tree_nodes_len<H: PairHasher>(level: Seq<H::NodeType>)
    requires
        is_power_of_two(level.len()),
    ensures
        tree_nodes::<H>(level).len() == 2 * level.len() - 1,
        tree_nodes::<H>(level).subrange(0, level.len() as int) == level,
    decreases level.len(),
{
    if level.len() >= 2 {
        lemma_power_of_two_halves(level.len());
        lemma_tree_nodes_len::<H>(fold_level::<H>(level));
    }
    assert(tree_nodes::<H>(level).subrange(0, level.len() as int) =~= level);
}

/// A flat array in which each node above the leaves is the pair hash of its
/// children is the model of the tree over its own bottom level.
pub proof fn lemma_merkle_array_is_model<H: PairHasher>(nodes: Seq<H::NodeType>)
    requires
        is_merkle_array::<H>(nodes),
    ensures
        nodes == tree_nodes::<H>(nodes.subrange(0, leaf_count_of(nodes.len()) as int)),
    decreases nodes.len(),
{
    let l = leaf_count_of(nodes.len());
    let level = nodes.subrange(0, l as int);
    if l >= 2 {
        lemma_power_of_two_halves(l);
        let upper = nodes.subrange(l as int, nodes.len() as int);
        let half = leaf_count_of(upper.len());
        assert(half == l / 2);
        assert forall|p: int| half <= p < upper.len() implies #[trigger] upper[p]
            == hash_pair_spec::<H>(upper[2 * (p - half)], upper[2 * (p - half) + 1]) by {
            assert(upper[p] == nodes[p + l]);
            assert(upper[2 * (p - half)] == nodes[2 * (p + l - l)]);
            assert(upper[2 * (p - half) + 1] == nodes[2 * (p + l - l) + 1]);
        }
        lemma_merkle_array_is_model::<H>(upper);
        let upper_level = upper.subrange(0, half as int);
        assert(upper_level =~= fold_level::<H>(level)) by {
            assert forall|j: int| 0 <= j < half implies upper_level[j] == fold_level::<H>(
                level,
            )[j] by {
                assert(upper_level[j] == nodes[l + j]);
            }
        }
        assert(nodes =~= level + upper);
    } else {
        assert(nodes =~= level);
    }
}

/// The model of a tree is a flat array in which each node above the leaves is the
/// pair hash of its children.
pub proof fn lemma_model_is_merkle_array<H: PairHasher>(level: Seq<H::NodeType>)
    requires
        is_power_of_two(level.len()),
    ensures
        is_merkle_array::<H>(tree_nodes::<H>(level)),
    decreases level.len(),
{
    let nodes = tree_nodes::<H>(level);
    let l = level.len();
    lemma_tree_nodes_len::<H>(level);
    if l >= 2 {
        lemma_power_of_two_halves(l);
        let above = fold_level::<H>(level);
        let upper = tree_nodes::<H>(above);
        lemma_model_is_merkle_array::<H>(above);
        lemma_tree_nodes_len::<H>(above);
        let half = l / 2;
        assert forall|p: int| l <= p < nodes.len() implies #[trigger] nodes[p]
            == hash_pair_spec::<H>(nodes[2 * (p - l)], nodes[2 * (p - l) + 1]) by {
            assert(nodes[p] == upper[p - l]);
            if p - l < half {
                assert(upper[p - l] == upper.subrange(0, half as int)[p - l]);
                assert(upper[p - l] == above[p - l]);
            } else {
                let q = p - l;
                assert(upper[q] == hash_pair_spec::<H>(
                    upper[2 * (q - half)],
                    upper[2 * (q - half) + 1],
                ));
                assert(nodes[2 * q] == upper[2 * q - l]);
                assert(nodes[2 * q + 1] == upper[2 * q + 1 - l]);
            }
        }
    }
}

} // verus!
