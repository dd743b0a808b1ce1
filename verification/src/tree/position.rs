//! The place of a node in a tree, as a level and an index within the level or as
//! an absolute index.

use super::shape::{
    abs_index_of, index_in_level_of, lemma_abs_index_to_position, lemma_level_start_even,
    lemma_levels, lemma_position_to_abs_index, lemma_root_position, lemma_sibling_and_parent,
    lemma_tree_size_exp2, level_count_of, level_of, level_start, level_width, parent_abs,
    sibling_index, valid_position, valid_tree_size,
};
use super::tree_size::TreeSize;
use vstd::prelude::*;

verus! {

/// The place of a node in a tree of a given size.
///
/// A place is a level, counted from the leaves at level 0, and an index within
/// that level, counted from the left. It is kept as the absolute index of the
/// node in the flat array of the tree.
#[derive(Debug, Clone, Copy, PartialEq, Eq, Structural)]
pub struct NodePosition {
    tree_size: TreeSize,
    absolute_index: usize,
}

/// Flipping the last bit of an index gives the index of the sibling.
pub proof fn lemma_sibling_index_is_xor(index: usize)
    ensures
        sibling_index(index as nat) == (index ^ 1) as nat,
{
    let flipped = index ^ 1;
    assert(index % 2 == 0 ==> flipped > index && flipped - index == 1) by (bit_vector)
        requires
            flipped == index ^ 1,
    ;
    assert(index % 2 != 0 ==> flipped < index && index - flipped == 1) by (bit_vector)
        requires
            flipped == index ^ 1,
    ;
}

/// The first absolute index and the width of `level` in a tree of `tree_size`
/// nodes, or nothing if the tree has no such level.
pub fn level_band(tree_size: TreeSize, level: usize) -> (band: Option<(usize, usize)>)
    ensures
        band is Some <==> level < level_count_of(tree_size@),
        band matches Some((start, width)) ==> start == level_start(tree_size@, level as nat)
            && width == level_width(tree_size@, level as nat),
{
    let size: usize = tree_size.get();
    let levels: usize = tree_size.level_count().get();
    if level >= levels {
        return None;
    }
    let mut start: usize = 0;
    let mut width: usize = tree_size.leaf_count().get();
    let mut current: usize = 0;
    proof {
        lemma_levels(size as nat, 0);
    }
    while current < level
        invariant
            valid_tree_size(size as nat),
            levels == level_count_of(size as nat),
            current <= level < levels,
            start == level_start(size as nat, current as nat),
            width == level_width(size as nat, current as nat),
        decreases level - current,
    {
        proof {
            lemma_levels(size as nat, current as nat);
            lemma_levels(size as nat, (current + 1) as nat);
        }
        start = start + width;
        width = width / 2;
        current = current + 1;
    }
    Some((start, width))
}

impl NodePosition {
    /// The position names a node of its tree.
    #[verifier::type_invariant]
    pub closed spec fn wf(self) -> bool {
        self.tree_size.wf() && self.absolute_index < self.tree_size@
    }

    /// The size of the tree that the position belongs to.
    pub closed spec fn spec_tree_size(self) -> TreeSize {
        self.tree_size
    }

    /// The absolute index of the node in the flat array of the tree.
    pub closed spec fn spec_abs_index(self) -> nat {
        self.absolute_index as nat
    }

    /// The level of the node, counted from the leaves.
    pub open spec fn spec_level(self) -> nat {
        level_of(self.spec_tree_size()@, self.spec_abs_index())
    }

    /// The index of the node within its level.
    pub open spec fn spec_index_in_level(self) -> nat {
        index_in_level_of(self.spec_tree_size()@, self.spec_abs_index())
    }

    /// Whether the node is the root: the last node of the array, alone on the top
    /// level.
    pub open spec fn spec_is_root(self) -> bool {
        self.spec_abs_index() + 1 == self.spec_tree_size()@
    }

    /// A well-formed position has an index below the size of its tree, and its
    /// level and index within the level name it.
    pub proof fn lemma_wf(self)
        requires
            self.wf(),
        ensures
            valid_tree_size(self.spec_tree_size()@),
            self.spec_abs_index() < self.spec_tree_size()@ <= usize::MAX,
            valid_position(self.spec_tree_size()@, self.spec_level(), self.spec_index_in_level()),
            abs_index_of(self.spec_tree_size()@, self.spec_level(), self.spec_index_in_level())
                == self.spec_abs_index(),
            self.spec_is_root() <==> self.spec_level() + 1 == level_count_of(
                self.spec_tree_size()@,
            ),
    {
        let size = self.spec_tree_size()@;
        let ts = self.tree_size;
        assert(ts.wf());
        TreeSize::lemma_wf(ts);
        lemma_abs_index_to_position(size, self.spec_abs_index());
        lemma_root_position(size);
        lemma_levels(size, self.spec_level());
        if self.spec_level() + 1 == level_count_of(size) {
        } else {
            lemma_sibling_and_parent(size, self.spec_level(), self.spec_index_in_level());
        }
    }

    /// The position with the absolute index `abs_index`, which the tree has.
    pub(crate) fn at(tree_size: TreeSize, abs_index: usize) -> (position: Self)
        requires
            tree_size.wf(),
            abs_index < tree_size@,
        ensures
            position.wf(),
            position.spec_tree_size() == tree_size,
            position.spec_abs_index() == abs_index,
    {
        NodePosition { tree_size, absolute_index: abs_index }
    }

    /// The position with the absolute index `abs_index`, if the tree has one.
    pub fn from_abs_index(tree_size: TreeSize, abs_index: usize) -> (position: Option<Self>)
        ensures
            position is Some <==> abs_index < tree_size@,
            position matches Some(p) ==> p.wf() && p.spec_tree_size() == tree_size
                && p.spec_abs_index() == abs_index,
    {
        proof {
            use_type_invariant(tree_size);
        }
        if abs_index < tree_size.get() {
            Some(NodePosition { tree_size, absolute_index: abs_index })
        } else {
            None
        }
    }

    /// The position at `index_in_level` on `level`, if the tree has one.
    pub fn from_position(tree_size: TreeSize, level: usize, index_in_level: usize) -> (position:
        Option<Self>)
        ensures
            position is Some <==> valid_position(tree_size@, level as nat, index_in_level as nat),
            position matches Some(p) ==> p.wf() && p.spec_tree_size() == tree_size
                && p.spec_abs_index() == abs_index_of(
                tree_size@,
                level as nat,
                index_in_level as nat,
            ) && p.spec_level() == level && p.spec_index_in_level() == index_in_level,
    {
        proof {
            use_type_invariant(tree_size);
            TreeSize::lemma_wf(tree_size);
        }
        match level_band(tree_size, level) {
            None => None,
            Some((start, width)) => {
                if index_in_level < width {
                    proof {
                        lemma_levels(tree_size@, level as nat);
                        lemma_position_to_abs_index(
                            tree_size@,
                            level as nat,
                            index_in_level as nat,
                        );
                    }
                    Some(NodePosition { tree_size, absolute_index: start + index_in_level })
                } else {
                    None
                }
            },
        }
    }

    /// The size of the tree that the position belongs to.
    pub fn tree_size(&self) -> (tree_size: TreeSize)
        ensures
            tree_size == self.spec_tree_size(),
            tree_size.wf(),
    {
        proof {
            use_type_invariant(self);
        }
        self.tree_size
    }

    /// The absolute index of the node in the flat array of the tree.
    pub fn abs_index(&self) -> (abs_index: usize)
        ensures
            abs_index == self.spec_abs_index(),
            abs_index < self.spec_tree_size()@,
    {
        proof {
            use_type_invariant(self);
        }
        self.absolute_index
    }

    /// The level of the node and its index within the level.
    pub fn position(&self) -> (position: (usize, usize))
        ensures
            position.0 == self.spec_level(),
            position.1 == self.spec_index_in_level(),
            valid_position(self.spec_tree_size()@, position.0 as nat, position.1 as nat),
    {
        proof {
            use_type_invariant(self);
            self.lemma_wf();
        }
        let size: usize = self.tree_size.get();
        let abs: usize = self.absolute_index;
        let levels: usize = self.tree_size.level_count().get();
        let mut start: usize = 0;
        let mut width: usize = self.tree_size.leaf_count().get();
        let mut level: usize = 0;
        proof {
            lemma_levels(size as nat, 0);
        }
        while abs - start >= width
            invariant
                valid_tree_size(size as nat),
                levels == level_count_of(size as nat),
                abs < size,
                level < levels,
                start <= abs,
                start == level_start(size as nat, level as nat),
                width == level_width(size as nat, level as nat),
            decreases levels - level,
        {
            proof {
                lemma_levels(size as nat, level as nat);
                if level + 1 < levels {
                    lemma_levels(size as nat, (level + 1) as nat);
                }
            }
            start = start + width;
            width = width / 2;
            level = level + 1;
        }
        proof {
            lemma_position_to_abs_index(size as nat, level as nat, (abs - start) as nat);
        }
        (level, abs - start)
    }

    /// Whether the node is the root.
    pub fn is_root(&self) -> (root: bool)
        ensures
            root == self.spec_is_root(),
    {
        proof {
            use_type_invariant(self);
        }
        self.absolute_index == self.tree_size.get() - 1
    }

    /// Whether the node is the left child of its parent. The root is no child.
    pub fn is_left(&self) -> (left: bool)
        ensures
            left == (!self.spec_is_root() && self.spec_index_in_level() % 2 == 0),
    {
        proof {
            use_type_invariant(self);
            self.lemma_wf();
            if !self.spec_is_root() {
                self.lemma_abs_parity();
            }
        }
        !self.is_root() && self.absolute_index % 2 == 0
    }

    /// Whether the node is the right child of its parent. The root is no child.
    pub fn is_right(&self) -> (right: bool)
        ensures
            right == (!self.spec_is_root() && self.spec_index_in_level() % 2 == 1),
    {
        proof {
            use_type_invariant(self);
            self.lemma_wf();
            if !self.spec_is_root() {
                self.lemma_abs_parity();
            }
        }
        !self.is_root() && self.absolute_index % 2 == 1
    }

    /// Below the root a node is a left child in its level exactly if its absolute
    /// index is even.
    pub proof fn lemma_abs_parity(self)
        requires
            self.wf(),
            !self.spec_is_root(),
        ensures
            self.spec_abs_index() % 2 == self.spec_index_in_level() % 2,
    {
        self.lemma_wf();
        lemma_level_start_even(self.spec_tree_size()@, self.spec_level());
    }

    /// The node that shares its parent with this one: on the same level, the last
    /// bit of the index flipped. The root has none.
    pub fn sibling(&self) -> (sibling: Option<Self>)
        ensures
            sibling is None <==> self.spec_is_root(),
            sibling matches Some(s) ==> {
                &&& s.wf()
                &&& s.spec_tree_size() == self.spec_tree_size()
                &&& s.spec_abs_index() == sibling_index(self.spec_abs_index())
                &&& s.spec_level() == self.spec_level()
                &&& s.spec_index_in_level() == sibling_index(self.spec_index_in_level())
            },
    {
        proof {
            use_type_invariant(self);
            self.lemma_wf();
        }
        if self.is_root() {
            return None;
        }
        proof {
            let size = self.spec_tree_size()@;
            lemma_sibling_and_parent(size, self.spec_level(), self.spec_index_in_level());
            lemma_position_to_abs_index(
                size,
                self.spec_level(),
                sibling_index(self.spec_index_in_level()),
            );
        }
        let abs: usize = if self.absolute_index % 2 == 0 {
            self.absolute_index + 1
        } else {
            self.absolute_index - 1
        };
        Some(NodePosition { tree_size: self.tree_size, absolute_index: abs })
    }

    /// The node one level up that this one is a child of: at half the index. The
    /// root has none.
    pub fn parent(&self) -> (parent: Option<Self>)
        ensures
            parent is None <==> self.spec_is_root(),
            parent matches Some(p) ==> {
                &&& p.wf()
                &&& p.spec_tree_size() == self.spec_tree_size()
                &&& p.spec_abs_index() == parent_abs(
                    self.spec_tree_size()@,
                    self.spec_abs_index(),
                )
                &&& p.spec_level() == self.spec_level() + 1
                &&& p.spec_index_in_level() == self.spec_index_in_level() / 2
            },
    {
        proof {
            use_type_invariant(self);
            self.lemma_wf();
        }
        if self.is_root() {
            return None;
        }
        proof {
            let size = self.spec_tree_size()@;
            lemma_tree_size_exp2(size);
            lemma_sibling_and_parent(size, self.spec_level(), self.spec_index_in_level());
            lemma_position_to_abs_index(
                size,
                self.spec_level() + 1,
                self.spec_index_in_level() / 2,
            );
        }
        let leaf_count: usize = self.tree_size.leaf_count().get();
        assert(leaf_count + self.absolute_index / 2 == parent_abs(
            self.tree_size@,
            self.absolute_index as nat,
        ));
        assert(parent_abs(self.tree_size@, self.absolute_index as nat) < self.tree_size@);
        let abs: usize = leaf_count + self.absolute_index / 2;
        Some(NodePosition { tree_size: self.tree_size, absolute_index: abs })
    }
}

} // verus!
