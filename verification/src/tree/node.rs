//! The nodes of a tree and the walk from a node to the root.

use super::position::NodePosition;
use super::shape::{
    index_in_level_of, lemma_parent_is_above, level_of, parent_abs, path_to_root, sibling_index,
};
use super::MerkleTree;
use crate::hasher::PairHasher;
use vstd::prelude::*;

verus! {

/// A node of a tree: the tree and the absolute index of the node in it.
///
/// A node owns nothing. It borrows the tree and cannot outlive it.
#[derive(Debug)]
#[verifier::reject_recursive_types(T)]
#[verifier::reject_recursive_types(H)]
pub struct Node<'a, T: Clone, H: PairHasher<NodeType = T>> {
    tree: &'a MerkleTree<T, H>,
    absolute_index: usize,
}

/// The walk from a node of a tree up to its root.
///
/// The walk yields the node it starts at, then the parent of each node that it
/// has yielded, and ends after the root. It cannot be started again: a second
/// walk takes a second call of the function that made the first.
#[derive(Debug)]
#[verifier::reject_recursive_types(T)]
#[verifier::reject_recursive_types(H)]
pub struct MerkleTreeNodeParentIterator<'a, T: Clone, H: PairHasher<NodeType = T>> {
    tree: &'a MerkleTree<T, H>,
    next_index: Option<usize>,
}

impl<'a, T: Clone, H: PairHasher<NodeType = T>> Clone for Node<'a, T, H> {
    fn clone(&self) -> (node: Self)
        ensures
            node == *self,
    {
        proof {
            use_type_invariant(self);
        }
        Node { tree: self.tree, absolute_index: self.absolute_index }
    }
}

impl<'a, T: Clone, H: PairHasher<NodeType = T>> Copy for Node<'a, T, H> {

}

impl<'a, T: Clone, H: PairHasher<NodeType = T>> Node<'a, T, H> {
    /// The tree is well-formed and has a node at the index.
    #[verifier::type_invariant]
    pub closed spec fn wf(self) -> bool {
        self.tree.wf() && self.absolute_index < self.tree@.len()
    }

    /// The tree that the node belongs to.
    pub closed spec fn spec_tree(self) -> MerkleTree<T, H> {
        *self.tree
    }

    /// The absolute index of the node in the flat array of the tree.
    pub closed spec fn spec_abs_index(self) -> nat {
        self.absolute_index as nat
    }

    /// The value of the node.
    pub open spec fn spec_hash(self) -> T {
        self.spec_tree()@[self.spec_abs_index() as int]
    }

    /// The level of the node, counted from the leaves.
    pub open spec fn spec_level(self) -> nat {
        level_of(self.spec_tree()@.len(), self.spec_abs_index())
    }

    /// The index of the node within its level.
    pub open spec fn spec_index_in_level(self) -> nat {
        index_in_level_of(self.spec_tree()@.len(), self.spec_abs_index())
    }

    /// Whether the node is the root of its tree: the last node.
    pub open spec fn spec_is_root(self) -> bool {
        self.spec_abs_index() + 1 == self.spec_tree()@.len()
    }

    /// A well-formed node is a node of a well-formed tree.
    pub proof fn lemma_wf(self)
        requires
            self.wf(),
        ensures
            self.spec_tree().wf(),
            self.spec_abs_index() < self.spec_tree()@.len(),
    {
    }

    /// The node of `tree` at `abs_index`.
    pub(crate) fn new(tree: &'a MerkleTree<T, H>, abs_index: usize) -> (node: Self)
        requires
            tree.wf(),
            abs_index < tree@.len(),
        ensures
            node.wf(),
            node.spec_tree() == *tree,
            node.spec_abs_index() == abs_index,
    {
        Node { tree, absolute_index: abs_index }
    }

    /// The value of the node.
    pub fn hash(&self) -> (hash: &'a T)
        ensures
            *hash == self.spec_hash(),
    {
        proof {
            use_type_invariant(self);
        }
        self.tree.node_at(self.absolute_index)
    }

    /// The absolute index of the node in the flat array of the tree.
    pub fn abs_index(&self) -> (abs_index: usize)
        ensures
            abs_index == self.spec_abs_index(),
            abs_index < self.spec_tree()@.len(),
    {
        proof {
            use_type_invariant(self);
        }
        self.absolute_index
    }

    /// The tree that the node belongs to.
    pub fn tree(&self) -> (tree: &'a MerkleTree<T, H>)
        ensures
            *tree == self.spec_tree(),
            tree.wf(),
    {
        proof {
            use_type_invariant(self);
        }
        self.tree
    }

    /// The place of the node in its tree.
    pub fn into_position(self) -> (position: NodePosition)
        ensures
            position.wf(),
            position.spec_tree_size() == self.spec_tree().spec_size(),
            position.spec_tree_size()@ == self.spec_tree()@.len(),
            position.spec_abs_index() == self.spec_abs_index(),
            position.spec_level() == self.spec_level(),
            position.spec_index_in_level() == self.spec_index_in_level(),
            position.spec_is_root() == self.spec_is_root(),
    {
        proof {
            use_type_invariant(&self);
        }
        NodePosition::at(self.tree.total_node_count(), self.absolute_index)
    }

    /// Whether the node is the root of its tree.
    pub fn is_root(&self) -> (root: bool)
        ensures
            root == self.spec_is_root(),
    {
        proof {
            use_type_invariant(self);
        }
        NodePosition::at(self.tree.total_node_count(), self.absolute_index).is_root()
    }

    /// Whether the node is the left child of its parent. The root is no child.
    pub fn is_left(&self) -> (left: bool)
        ensures
            left == (!self.spec_is_root() && self.spec_index_in_level() % 2 == 0),
    {
        proof {
            use_type_invariant(self);
        }
        NodePosition::at(self.tree.total_node_count(), self.absolute_index).is_left()
    }

    /// Whether the node is the right child of its parent. The root is no child.
    pub fn is_right(&self) -> (right: bool)
        ensures
            right == (!self.spec_is_root() && self.spec_index_in_level() % 2 == 1),
    {
        proof {
            use_type_invariant(self);
        }
        NodePosition::at(self.tree.total_node_count(), self.absolute_index).is_right()
    }

    /// The node that shares its parent with this one: on the same level, the last
    /// bit of the index flipped. The root has none.
    pub fn sibling(&self) -> (sibling: Option<Node<'a, T, H>>)
        ensures
            sibling is None <==> self.spec_is_root(),
            sibling matches Some(s) ==> {
                &&& s.wf()
                &&& s.spec_tree() == self.spec_tree()
                &&& s.spec_abs_index() == sibling_index(self.spec_abs_index())
                &&& s.spec_level() == self.spec_level()
                &&& s.spec_index_in_level() == sibling_index(self.spec_index_in_level())
            },
    {
        proof {
            use_type_invariant(self);
        }
        let position = NodePosition::at(self.tree.total_node_count(), self.absolute_index);
        match position.sibling() {
            Some(sibling) => Some(Node { tree: self.tree, absolute_index: sibling.abs_index() }),
            None => None,
        }
    }

    /// The node one level up that this one is a child of: at half the index. The
    /// root has none.
    pub fn parent(&self) -> (parent: Option<Node<'a, T, H>>)
        ensures
            parent is None <==> self.spec_is_root(),
            parent matches Some(p) ==> {
                &&& p.wf()
                &&& p.spec_tree() == self.spec_tree()
                &&& p.spec_abs_index() == parent_abs(
                    self.spec_tree()@.len(),
                    self.spec_abs_index(),
                )
                &&& p.spec_level() == self.spec_level() + 1
                &&& p.spec_index_in_level() == self.spec_index_in_level() / 2
            },
    {
        proof {
            use_type_invariant(self);
        }
        let position = NodePosition::at(self.tree.total_node_count(), self.absolute_index);
        match position.parent() {
            Some(parent) => Some(Node { tree: self.tree, absolute_index: parent.abs_index() }),
            None => None,
        }
    }

    /// The walk from this node up to the root, this node first.
    pub fn into_iter_parents(self) -> (walk: MerkleTreeNodeParentIterator<'a, T, H>)
        ensures
            walk.wf(),
            walk.spec_tree() == self.spec_tree(),
            walk.remaining() == path_to_root(self.spec_tree()@.len(), self.spec_abs_index()),
    {
        proof {
            use_type_invariant(&self);
        }
        MerkleTreeNodeParentIterator { tree: self.tree, next_index: Some(self.absolute_index) }
    }
}

impl<'a, T: Clone, H: PairHasher<NodeType = T>> MerkleTreeNodeParentIterator<'a, T, H> {
    /// The tree is well-formed and has a node at the index to yield next.
    #[verifier::type_invariant]
    pub closed spec fn wf(self) -> bool {
        &&& self.tree.wf()
        &&& self.next_index matches Some(index) ==> index < self.tree@.len()
    }

    /// The tree that is walked.
    pub closed spec fn spec_tree(self) -> MerkleTree<T, H> {
        *self.tree
    }

    /// The absolute indices of the nodes that the walk has yet to yield, in order.
    pub closed spec fn remaining(self) -> Seq<nat> {
        match self.next_index {
            Some(index) => path_to_root(self.tree@.len(), index as nat),
            None => Seq::empty(),
        }
    }

    /// The walk from the node of `tree` at `abs_index`.
    pub(crate) fn starting_at(tree: &'a MerkleTree<T, H>, abs_index: usize) -> (walk: Self)
        requires
            tree.wf(),
            abs_index < tree@.len(),
        ensures
            walk.wf(),
            walk.spec_tree() == *tree,
            walk.remaining() == path_to_root(tree@.len(), abs_index as nat),
    {
        MerkleTreeNodeParentIterator { tree, next_index: Some(abs_index) }
    }

    /// The next node of the walk, or nothing once the root has been yielded.
    pub fn next(&mut self) -> (node: Option<Node<'a, T, H>>)
        ensures
            final(self).spec_tree() == old(self).spec_tree(),
            old(self).remaining().len() == 0 ==> node is None && final(self).remaining().len()
                == 0,
            old(self).remaining().len() > 0 ==> {
                &&& node matches Some(n) && n.wf() && n.spec_tree() == old(self).spec_tree()
                    && n.spec_abs_index() == old(self).remaining()[0]
                &&& final(self).remaining() == old(self).remaining().skip(1)
            },
    {
        proof {
            use_type_invariant(&*self);
        }
        match self.next_index {
            None => None,
            Some(index) => {
                let node = Node { tree: self.tree, absolute_index: index };
                let ghost size = self.tree@.len();
                proof {
                    self.tree.lemma_wf();
                }
                match node.parent() {
                    Some(parent) => {
                        proof {
                            lemma_parent_is_above(size, index as nat);
                            assert(path_to_root(size, index as nat) =~= seq![index as nat]
                                + path_to_root(size, parent_abs(size, index as nat)));
                            assert(path_to_root(size, index as nat).skip(1) =~= path_to_root(
                                size,
                                parent_abs(size, index as nat),
                            ));
                        }
                        self.next_index = Some(parent.abs_index());
                    },
                    None => {
                        proof {
                            assert(path_to_root(size, index as nat) =~= seq![index as nat]);
                            assert(path_to_root(size, index as nat).skip(1) =~= Seq::<
                                nat,
                            >::empty());
                        }
                        self.next_index = None;
                    },
                }
                Some(node)
            },
        }
    }
}

} // verus!
