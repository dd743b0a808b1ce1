//! The counts of a tree: its node count, and the leaf and level counts that follow
//! from it.

use super::shape::{
    exp2, is_power_of_two, leaf_count_of, lemma_power_of_two_doubles, lemma_power_of_two_halves,
    level_count_of, log2_floor, valid_tree_size,
};
use vstd::prelude::*;
use vstd::std_specs::convert::TryFromSpecImpl;

verus! {

/// A count that is never zero.
#[derive(Debug, Clone, Copy, PartialEq, Eq, Structural)]
pub struct NonZeroCount {
    value: usize,
}

impl NonZeroCount {
    /// Every value of this type is positive.
    #[verifier::type_invariant]
    pub closed spec fn wf(self) -> bool {
        self.value > 0
    }

    /// The count as a number.
    pub closed spec fn view(self) -> nat {
        self.value as nat
    }

    /// The count `value`, unless it is zero.
    pub fn new(value: usize) -> (count: Option<Self>)
        ensures
            value == 0 <==> count is None,
            count matches Some(c) ==> c@ == value && c.wf(),
    {
        if value == 0 {
            None
        } else {
            Some(NonZeroCount { value })
        }
    }

    /// The count as a number.
    pub fn get(&self) -> (value: usize)
        ensures
            value == self@,
            value > 0,
    {
        proof {
            use_type_invariant(self);
        }
        self.value
    }
}

/// Why a number is not the node count of a tree.
#[derive(Debug, Clone, Copy, PartialEq, Eq, Structural)]
pub enum TreeSizeError {
    /// A tree has at least one node.
    ZeroSize,
    /// The number is not twice a power of two, less one.
    InvalidSize(usize),
}

/// The total node count of a tree: twice its leaf count, less one, where the leaf
/// count is a power of two.
#[derive(Debug, Clone, Copy, PartialEq, Eq, Structural)]
pub struct TreeSize {
    value: usize,
}

/// Whether a positive `n` is a power of two.
fn check_power_of_two(n: usize) -> (yes: bool)
    requires
        n >= 1,
    ensures
        yes == is_power_of_two(n as nat),
{
    let mut rest: usize = n;
    while rest % 2 == 0
        invariant
            rest >= 1,
            is_power_of_two(rest as nat) == is_power_of_two(n as nat),
        decreases rest,
    {
        proof {
            if is_power_of_two(rest as nat) {
                lemma_power_of_two_halves(rest as nat);
            }
            if is_power_of_two((rest / 2) as nat) {
                lemma_power_of_two_doubles((rest / 2) as nat);
            }
        }
        rest = rest / 2;
    }
    proof {
        if rest > 1 {
            if is_power_of_two(rest as nat) {
                lemma_power_of_two_halves(rest as nat);
            }
        } else {
            assert(exp2(0) == 1);
        }
    }
    rest == 1
}

impl TreeSize {
    /// Every value of this type is the node count of a tree.
    #[verifier::type_invariant]
    pub closed spec fn wf(self) -> bool {
        valid_tree_size(self.value as nat)
    }

    /// The node count as a number.
    pub closed spec fn view(self) -> nat {
        self.value as nat
    }

    /// A well-formed size is the node count of a tree.
    pub proof fn lemma_wf(self)
        requires
            self.wf(),
        ensures
            valid_tree_size(self@),
            self@ <= usize::MAX,
    {
    }

    /// What `from_value` returns for `value`.
    pub closed spec fn spec_from_value(value: usize) -> Result<TreeSize, TreeSizeError> {
        if value == 0 {
            Err(TreeSizeError::ZeroSize)
        } else if valid_tree_size(value as nat) {
            Ok(TreeSize { value })
        } else {
            Err(TreeSizeError::InvalidSize(value))
        }
    }

    /// `spec_from_value` accepts exactly the node counts of trees, keeps the number,
    /// and tells a zero from the other rejected numbers.
    pub proof fn lemma_spec_from_value(value: usize)
        ensures
            Self::spec_from_value(value) is Ok <==> valid_tree_size(value as nat),
            Self::spec_from_value(value) matches Ok(size) ==> size@ == value && size.wf(),
            value == 0 <==> Self::spec_from_value(value) == Err::<TreeSize, _>(
                TreeSizeError::ZeroSize,
            ),
            value != 0 && !valid_tree_size(value as nat) <==> Self::spec_from_value(value) == Err::<
                TreeSize,
                _,
            >(TreeSizeError::InvalidSize(value)),
    {
    }

    /// The tree size `value`, if it is one: a positive number that is twice a power
    /// of two, less one.
    pub fn from_value(value: usize) -> (result: Result<TreeSize, TreeSizeError>)
        ensures
            result == Self::spec_from_value(value),
            result is Ok <==> valid_tree_size(value as nat),
            result matches Ok(size) ==> size@ == value && size.wf(),
            value == 0 <==> result == Err::<TreeSize, _>(TreeSizeError::ZeroSize),
            value != 0 && !valid_tree_size(value as nat) <==> result == Err::<TreeSize, _>(
                TreeSizeError::InvalidSize(value),
            ),
    {
        if value == 0 {
            return Err(TreeSizeError::ZeroSize);
        }
        if value % 2 == 1 && check_power_of_two(value / 2 + 1) {
            Ok(TreeSize { value })
        } else {
            Err(TreeSizeError::InvalidSize(value))
        }
    }

    /// The size of the tree with `leaf_count` leaves, if `leaf_count` is a power of
    /// two and the size fits the machine.
    pub fn from_leaf_count(leaf_count: usize) -> (size: Option<TreeSize>)
        ensures
            size is Some <==> is_power_of_two(leaf_count as nat) && 2 * leaf_count - 1
                <= usize::MAX,
            size matches Some(s) ==> s@ == 2 * leaf_count - 1 && s.wf(),
    {
        if leaf_count == 0 || leaf_count - 1 > usize::MAX / 2 {
            return None;
        }
        if check_power_of_two(leaf_count) {
            Some(TreeSize { value: (leaf_count - 1) * 2 + 1 })
        } else {
            None
        }
    }

    /// The size of the tree with `leaf_count` leaves, a power of two for which the
    /// size fits the machine.
    pub(crate) fn of_leaf_count(leaf_count: usize) -> (size: TreeSize)
        requires
            is_power_of_two(leaf_count as nat),
            2 * leaf_count - 1 <= usize::MAX,
        ensures
            size@ == 2 * leaf_count - 1,
            size.wf(),
    {
        TreeSize { value: (leaf_count - 1) * 2 + 1 }
    }

    /// The node count as a number.
    pub fn get(&self) -> (value: usize)
        ensures
            value == self@,
            valid_tree_size(value as nat),
    {
        proof {
            use_type_invariant(self);
        }
        self.value
    }

    /// The number of leaves: half of the node count, rounded up.
    pub fn leaf_count(&self) -> (count: NonZeroCount)
        ensures
            count@ == leaf_count_of(self@),
            count.wf(),
    {
        proof {
            use_type_invariant(self);
        }
        NonZeroCount { value: self.value / 2 + 1 }
    }

    /// The number of levels: the base-two logarithm of the leaf count, plus one.
    pub fn level_count(&self) -> (count: NonZeroCount)
        ensures
            count@ == level_count_of(self@),
            count.wf(),
    {
        proof {
            use_type_invariant(self);
        }
        let mut rest: usize = self.value / 2 + 1;
        let mut levels: usize = 1;
        while rest > 1
            invariant
                rest >= 1,
                levels >= 1,
                levels + rest <= usize::MAX,
                levels + log2_floor(rest as nat) == level_count_of(self.value as nat),
            decreases rest,
        {
            rest = rest / 2;
            levels = levels + 1;
        }
        NonZeroCount { value: levels }
    }
}

impl TryFrom<usize> for TreeSize {
    type Error = TreeSizeError;

    fn try_from(value: usize) -> (result: Result<TreeSize, TreeSizeError>) {
        TreeSize::from_value(value)
    }
}

impl TryFromSpecImpl<usize> for TreeSize {
    open spec fn obeys_try_from_spec() -> bool {
        true
    }

    open spec fn try_from_spec(value: usize) -> Result<Self, Self::Error> {
        TreeSize::spec_from_value(value)
    }
}

} // verus!
