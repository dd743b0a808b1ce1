//! The hasher that a tree is built with, and what the library assumes of it.

use vstd::prelude::*;

verus! {

/// The hashing capability that a tree is built with.
///
/// A hasher works on one node type only: it maps a node to a node, and an ordered
/// pair of nodes to a node. The pair operation is sensitive to the order of its
/// operands, and the tree always passes the left child first.
///
/// Both operations are expected to be pure: a call's result depends on its
/// arguments alone. Nothing is assumed of an implementation, though. What this
/// library states of hashes it states for hashers that satisfy [`is_pure`].
pub trait PairHasher: Sized + Clone {
    /// The node type of the tree.
    type NodeType: Clone;

    /// Hash a single node and return the hash value.
    fn hash_single(data: &Self::NodeType) -> Self::NodeType;

    /// Hash a pair of nodes, left operand first, and return the hash value.
    fn hash_pair(left: &Self::NodeType, right: &Self::NodeType) -> Self::NodeType;
}

/// Whether `hash` can come out of `H::hash_single(&data)`.
pub open spec fn single_result<H: PairHasher>(data: H::NodeType, hash: H::NodeType) -> bool {
    call_ensures(H::hash_single, (&data,), hash)
}

/// Whether `hash` can come out of `H::hash_pair(&left, &right)`.
pub open spec fn pair_result<H: PairHasher>(
    left: H::NodeType,
    right: H::NodeType,
    hash: H::NodeType,
) -> bool {
    call_ensures(H::hash_pair, (&left, &right), hash)
}

/// The hash of a single node: a result of `H::hash_single`, the only one where
/// `H` is pure.
pub open spec fn hash_single_spec<H: PairHasher>(data: H::NodeType) -> H::NodeType {
    choose|hash: H::NodeType| single_result::<H>(data, hash)
}

/// The hash of the ordered pair `(left, right)`: a result of `H::hash_pair`, the
/// only one where `H` is pure.
pub open spec fn hash_pair_spec<H: PairHasher>(
    left: H::NodeType,
    right: H::NodeType,
) -> H::NodeType {
    choose|hash: H::NodeType| pair_result::<H>(left, right, hash)
}

/// Whether both operations of `H` are functions of their arguments: every call
/// returns the one value that the specification function names.
pub open spec fn is_pure<H: PairHasher>() -> bool {
    &&& forall|data: H::NodeType, hash: H::NodeType| #[trigger]
        single_result::<H>(data, hash) ==> hash == hash_single_spec::<H>(data)
    &&& forall|left: H::NodeType, right: H::NodeType, hash: H::NodeType| #[trigger]
        pair_result::<H>(left, right, hash) ==> hash == hash_pair_spec::<H>(left, right)
}

/// Whether the pair operation of `H` never maps two different ordered pairs to
/// the same node.
pub open spec fn collision_free<H: PairHasher>() -> bool {
    forall|a: H::NodeType, b: H::NodeType, c: H::NodeType, d: H::NodeType|
        #[trigger] hash_pair_spec::<H>(a, b) == #[trigger] hash_pair_spec::<H>(c, d) ==> a == c
            && b == d
}

} // verus!
