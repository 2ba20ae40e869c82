//! The tree as a mathematical value: what a `Node` is, with sequences in the
//! place of its blocks. The contracts that fix the shape of a tree speak of it.

use vstd::prelude::*;
use crate::node::{Node, Priority, BLOCK_SIZE, LEFT, RIGHT};

verus! {

/// A tree of blocks: the model of a `Node`.
pub enum Tree<C> {
    /// A block of consecutive elements.
    Leaf(Seq<C>),
    /// Priority, cached number of elements, left child, right child.
    Inner(Priority, usize, Box<Tree<C>>, Box<Tree<C>>),
}

impl<C> Node<C> {
    /// The tree that the node stands for.
    pub open spec fn model(self) -> Tree<C>
        decreases self,
    {
        match self {
            Node::Leaf(block) => Tree::Leaf(block@),
            Node::Inner(priority, size, left, right) => Tree::Inner(
                priority,
                size,
                Box::new(left.model()),
                Box::new(right.model()),
            ),
        }
    }

    /// The model of a node tells its kind, its length and its priority.
    pub proof fn lemma_model_root(self)
        ensures
            self.model() is Leaf <==> self is Leaf,
            self.model().len() == self.spec_len(),
            self.model().priority() == self.spec_priority(),
    {
    }

    /// The model of a rotated node is the rotated model.
    pub proof fn lemma_model_rotated(self, direction: usize)
        ensures
            self.rotated(direction).model() == self.model().rotated(direction),
    {
        reveal_with_fuel(Node::model, 3);
        match self {
            Node::Inner(_, _, left, right) => {
                left.lemma_model_root();
                right.lemma_model_root();
                match *left {
                    Node::Inner(_, _, a, b) => {
                        a.lemma_model_root();
                        b.lemma_model_root();
                    },
                    Node::Leaf(_) => {},
                }
                match *right {
                    Node::Inner(_, _, a, b) => {
                        a.lemma_model_root();
                        b.lemma_model_root();
                    },
                    Node::Leaf(_) => {},
                }
            },
            Node::Leaf(_) => {},
        }
    }
}

impl<C> Tree<C> {
    /// The length that the tree reports: the block's length for a leaf, the
    /// cached size for an inner node.
    pub open spec fn len(self) -> int {
        match self {
            Tree::Leaf(block) => block.len() as int,
            Tree::Inner(_, size, _, _) => size as int,
        }
    }

    /// The priority that the tree reports. A leaf reports the largest priority.
    pub open spec fn priority(self) -> Priority {
        match self {
            Tree::Leaf(_) => u64::MAX,
            Tree::Inner(priority, _, _, _) => priority,
        }
    }

    /// The tree after a rotation in `direction`, which promotes the child on
    /// the other side; any direction but `RIGHT` is the left. Where the child
    /// to promote is a leaf there is nothing to rotate.
    pub open spec fn rotated(self, direction: usize) -> Tree<C> {
        match self {
            Tree::Inner(priority, _, left, right) => if direction == RIGHT {
                match *left {
                    Tree::Inner(promoted, _, far, near) => Tree::Inner(
                        promoted,
                        (right.len() + near.len() + far.len()) as usize,
                        far,
                        Box::new(
                            Tree::Inner(priority, (right.len() + near.len()) as usize, near, right),
                        ),
                    ),
                    Tree::Leaf(_) => self,
                }
            } else {
                match *right {
                    Tree::Inner(promoted, _, near, far) => Tree::Inner(
                        promoted,
                        (left.len() + near.len() + far.len()) as usize,
                        Box::new(
                            Tree::Inner(priority, (left.len() + near.len()) as usize, left, near),
                        ),
                        far,
                    ),
                    Tree::Leaf(_) => self,
                }
            },
            Tree::Leaf(_) => self,
        }
    }

    /// The inner node of priority `fresh` that a division makes of a leaf: its
    /// children are the first half of the block, rounded down, and the rest.
    pub open spec fn divided(self, fresh: Priority) -> Tree<C> {
        match self {
            Tree::Leaf(block) => Tree::Inner(
                fresh,
                block.len() as usize,
                Box::new(Tree::Leaf(block.take(block.len() as int / 2))),
                Box::new(Tree::Leaf(block.skip(block.len() as int / 2))),
            ),
            Tree::Inner(_, _, _, _) => self,
        }
    }

    /// The tree after the insertion of `element` at `index`, where a division
    /// draws the priority `fresh`.
    ///
    /// A leaf with room takes the element. A leaf of `BLOCK_SIZE` elements is
    /// divided first and the element goes to the half that holds its position,
    /// to the first one where both do. An inner node counts one more and hands
    /// the element to its left child if `index` is at most that child's
    /// length, else to its right child, at the index less that length; a child
    /// that is then an inner node of higher priority is promoted by a rotation.
    pub open spec fn inserted(self, index: int, element: C, fresh: Priority) -> Tree<C>
        decreases self,
    {
        match self {
            Tree::Leaf(block) => if block.len() == BLOCK_SIZE {
                let half = block.len() as int / 2;
                if index <= half {
                    Tree::Inner(
                        fresh,
                        (block.len() + 1) as usize,
                        Box::new(Tree::Leaf(block.take(half).insert(index, element))),
                        Box::new(Tree::Leaf(block.skip(half))),
                    )
                } else {
                    Tree::Inner(
                        fresh,
                        (block.len() + 1) as usize,
                        Box::new(Tree::Leaf(block.take(half))),
                        Box::new(Tree::Leaf(block.skip(half).insert(index - half, element))),
                    )
                }
            } else {
                Tree::Leaf(block.insert(index, element))
            },
            Tree::Inner(priority, size, left, right) => if index <= left.len() {
                let child = left.inserted(index, element, fresh);
                let grown = Tree::Inner(priority, (size + 1) as usize, Box::new(child), right);
                if child is Inner && child.priority() > priority {
                    grown.rotated(RIGHT)
                } else {
                    grown
                }
            } else {
                let child = right.inserted(index - left.len(), element, fresh);
                let grown = Tree::Inner(priority, (size + 1) as usize, left, Box::new(child));
                if child is Inner && child.priority() > priority {
                    grown.rotated(LEFT)
                } else {
                    grown
                }
            },
        }
    }

    /// The tree with `element` in the place of the element at `index`, found by
    /// descending left where the index is less than the left child's length.
    /// An index that is out of range changes nothing.
    pub open spec fn updated(self, index: int, element: C) -> Tree<C>
        decreases self,
    {
        match self {
            Tree::Leaf(block) => if 0 <= index < block.len() {
                Tree::Leaf(block.update(index, element))
            } else {
                self
            },
            Tree::Inner(priority, size, left, right) => if index < left.len() {
                Tree::Inner(priority, size, Box::new(left.updated(index, element)), right)
            } else {
                Tree::Inner(
                    priority,
                    size,
                    left,
                    Box::new(right.updated(index - left.len(), element)),
                )
            },
        }
    }

    /// The tree with the priority 0 at every inner node: its shape and its
    /// blocks without its priorities.
    pub open spec fn without_priorities(self) -> Tree<C>
        decreases self,
    {
        match self {
            Tree::Leaf(_) => self,
            Tree::Inner(_, size, left, right) => Tree::Inner(
                0,
                size,
                Box::new(left.without_priorities()),
                Box::new(right.without_priorities()),
            ),
        }
    }
}

} // verus!
