//! The tree representation: leaves hold bounded blocks of elements, inner nodes
//! hold a balancing priority, the number of elements below them and two children.

use vstd::prelude::*;
use crate::deps::random_priority;
use crate::model::Tree;

verus! {

/// The largest number of elements that a leaf holds.
pub const BLOCK_SIZE: usize = 1000;

/// The side of the left child.
pub const LEFT: usize = 0;

/// The side of the right child.
pub const RIGHT: usize = 1;

/// Balancing priorities. They never order the data.
pub type Priority = u64;

/// A subtree of the treap. It owns its children; nothing is shared.
pub enum Node<C> {
    /// A block of consecutive elements.
    Leaf(Vec<C>),
    /// Priority, number of elements in the subtree, left child, right child.
    Inner(Priority, usize, Box<Node<C>>, Box<Node<C>>),
}

impl<C> View for Node<C> {
    type V = Seq<C>;

    /// The elements of the subtree from left to right.
    open spec fn view(&self) -> Seq<C> {
        self.elements()
    }
}

impl<C> Node<C> {
    /// The elements of the subtree from left to right.
    pub open spec fn elements(self) -> Seq<C>
        decreases self,
    {
        match self {
            Node::Leaf(block) => block@,
            Node::Inner(_, _, left, right) => left.elements() + right.elements(),
        }
    }

    /// The length that the node reports: the block's length for a leaf, the
    /// cached size for an inner node.
    pub open spec fn spec_len(&self) -> usize {
        match self {
            Node::Leaf(block) => block.len(),
            Node::Inner(_, size, _, _) => *size,
        }
    }

    /// The priority that the node reports. A leaf reports the largest priority.
    pub open spec fn spec_priority(&self) -> Priority {
        match self {
            Node::Leaf(_) => u64::MAX,
            Node::Inner(priority, _, _, _) => *priority,
        }
    }

    /// What a child must satisfy under a parent of priority `ceiling`: an inner
    /// node has at most that priority, a leaf is not empty.
    pub open spec fn fits_below(self, ceiling: Priority) -> bool {
        match self {
            Node::Leaf(block) => block@.len() > 0,
            Node::Inner(priority, _, _, _) => priority <= ceiling,
        }
    }

    /// The invariant of the tree. Every block holds at most `BLOCK_SIZE` elements,
    /// every inner node caches the sum of its children's lengths, no inner node
    /// has a higher priority than its parent, and only the root may be an empty leaf.
    pub open spec fn wf(self) -> bool
        decreases self,
    {
        match self {
            Node::Leaf(block) => block@.len() <= BLOCK_SIZE,
            Node::Inner(priority, size, left, right) => {
                &&& size == left.spec_len() + right.spec_len()
                &&& left.wf()
                &&& right.wf()
                &&& left.fits_below(priority)
                &&& right.fits_below(priority)
            },
        }
    }

    /// The tree that a rotation makes of `self`. Rotating to the left promotes
    /// the right child, rotating to the right promotes the left child; a
    /// direction other than `RIGHT` rotates to the left. Where the child to
    /// promote is a leaf there is nothing to rotate.
    pub open spec fn rotated(self, direction: usize) -> Node<C> {
        match self {
            Node::Inner(priority, _, left, right) => if direction == RIGHT {
                match *left {
                    Node::Inner(promoted, _, far, near) => Node::Inner(
                        promoted,
                        (right.spec_len() + near.spec_len() + far.spec_len()) as usize,
                        far,
                        Box::new(
                            Node::Inner(
                                priority,
                                (right.spec_len() + near.spec_len()) as usize,
                                near,
                                right,
                            ),
                        ),
                    ),
                    Node::Leaf(_) => self,
                }
            } else {
                match *right {
                    Node::Inner(promoted, _, near, far) => Node::Inner(
                        promoted,
                        (left.spec_len() + near.spec_len() + far.spec_len()) as usize,
                        Box::new(
                            Node::Inner(
                                priority,
                                (left.spec_len() + near.spec_len()) as usize,
                                left,
                                near,
                            ),
                        ),
                        far,
                    ),
                    Node::Leaf(_) => self,
                }
            },
            Node::Leaf(_) => self,
        }
    }

    /// The child on the side `direction`; any direction but `RIGHT` is the left.
    pub open spec fn child(self, direction: usize) -> Node<C>
        recommends
            self is Inner,
    {
        match self {
            Node::Inner(_, _, left, right) => if direction == RIGHT {
                *right
            } else {
                *left
            },
            Node::Leaf(_) => self,
        }
    }

    /// The child that a rotation in `direction` promotes: the one on the other side.
    pub open spec fn promoted_by(self, direction: usize) -> Node<C>
        recommends
            self is Inner,
    {
        if direction == RIGHT {
            self.child(LEFT)
        } else {
            self.child(RIGHT)
        }
    }

    /// Whether the node can be rotated in `direction`: it is an inner node, the
    /// child to promote is an inner node of no lower priority, and the lengths
    /// of the three subtrees that change their parent add up within `usize`.
    pub open spec fn can_rotate(self, direction: usize) -> bool {
        &&& self is Inner
        &&& self.promoted_by(direction) is Inner
        &&& self.spec_priority() <= self.promoted_by(direction).spec_priority()
        &&& self.child(direction).spec_len() + self.promoted_by(direction).child(
            direction,
        ).spec_len() + self.promoted_by(direction).promoted_by(direction).spec_len() <= usize::MAX
    }

    /// Whether `self` is what `divide` makes of the leaf `old`: an inner node of
    /// the same length over two leaves, the first with the first half of the
    /// block (rounded down), the second with the rest.
    pub open spec fn divided_from(self, old: Node<C>) -> bool {
        &&& self matches Node::Inner(_, size, left, right)
        &&& size == old.spec_len()
        &&& *left is Leaf
        &&& *right is Leaf
        &&& left@ == old@.take(old.spec_len() as int / 2)
        &&& right@ == old@.skip(old.spec_len() as int / 2)
    }

    /// Whether the two nodes are of the same kind and report the same length and priority.
    pub open spec fn same_root(self, other: Node<C>) -> bool {
        &&& self is Leaf <==> other is Leaf
        &&& self.spec_len() == other.spec_len()
        &&& self.spec_priority() == other.spec_priority()
    }

    /// What the diagnostic check `is_valid` decides for a node whose parent is
    /// `father`: every inner node caches the sum of its children's lengths and
    /// has at most its parent's priority. Leaves pass as they are.
    pub open spec fn valid_under(self, father: Option<&Self>) -> bool
        decreases self,
    {
        match self {
            Node::Leaf(_) => true,
            Node::Inner(priority, size, left, right) => {
                &&& father matches Some(f) ==> priority <= f.spec_priority()
                &&& size == left.spec_len() + right.spec_len()
                &&& left.valid_under(Some(&self))
                &&& right.valid_under(Some(&self))
            },
        }
    }

    /// How an insertion changes the root of a subtree. A leaf with room stays a
    /// leaf, a full leaf becomes an inner node over two leaves. An inner node
    /// keeps its priority, or gives way to a promoted node whose children fit
    /// below the old priority.
    pub open spec fn grown_from(self, old: Node<C>) -> bool {
        match old {
            Node::Leaf(block) => if block.len() < BLOCK_SIZE {
                self is Leaf
            } else {
                self matches Node::Inner(_, _, left, right) && *left is Leaf && *right is Leaf
            },
            Node::Inner(before, _, _, _) => {
                &&& self matches Node::Inner(priority, _, left, right)
                &&& priority == before || (left.fits_below(before) && right.fits_below(before))
            },
        }
    }

    /// A bound on the depth of the recursion of an insertion below this node. A
    /// full leaf counts one step, since it is divided first.
    pub open spec fn descent(self) -> nat
        decreases self,
    {
        match self {
            Node::Leaf(block) => if block.len() == BLOCK_SIZE {
                1
            } else {
                0
            },
            Node::Inner(_, _, left, right) => 1 + if left.descent() >= right.descent() {
                left.descent()
            } else {
                right.descent()
            },
        }
    }

    /// The blocks of the leaves from left to right.
    pub open spec fn blocks(self) -> Seq<Seq<C>>
        decreases self,
    {
        match self {
            Node::Leaf(block) => seq![block@],
            Node::Inner(_, _, left, right) => left.blocks() + right.blocks(),
        }
    }

    /// The blocks of the leaves, from left to right, after the insertion of
    /// `element` at `index`. A leaf with room takes the element; a leaf of
    /// `BLOCK_SIZE` elements becomes two, its first half and the rest, and the
    /// element goes to the one that holds its position, to the first one where
    /// both do. An inner node hands the element to its left child if `index` is
    /// at most that child's length, else to its right child. Neither the
    /// priority drawn nor a rotation changes the blocks.
    pub open spec fn blocks_after_insert(self, index: int, element: C) -> Seq<Seq<C>>
        decreases self,
    {
        match self {
            Node::Leaf(block) => if block.len() == BLOCK_SIZE {
                let half = block.len() as int / 2;
                if index <= half {
                    seq![block@.take(half).insert(index, element), block@.skip(half)]
                } else {
                    seq![block@.take(half), block@.skip(half).insert(index - half, element)]
                }
            } else {
                seq![block@.insert(index, element)]
            },
            Node::Inner(_, _, left, right) => if index <= left.spec_len() {
                left.blocks_after_insert(index, element) + right.blocks()
            } else {
                left.blocks() + right.blocks_after_insert(index - left.spec_len(), element)
            },
        }
    }

    /// A rotation keeps the blocks and their order.
    pub proof fn lemma_rotated_blocks(self, direction: usize)
        ensures
            self.rotated(direction).blocks() == self.blocks(),
    {
        reveal_with_fuel(Node::blocks, 3);
        match self {
            Node::Inner(_, _, left, right) => {
                if direction == RIGHT {
                    match *left {
                        Node::Inner(_, _, far, near) => {
                            assert(far.blocks() + (near.blocks() + right.blocks()) =~= (far.blocks()
                                + near.blocks()) + right.blocks());
                        },
                        Node::Leaf(_) => {},
                    }
                } else {
                    match *right {
                        Node::Inner(_, _, near, far) => {
                            assert((left.blocks() + near.blocks()) + far.blocks() =~= left.blocks()
                                + (near.blocks() + far.blocks()));
                        },
                        Node::Leaf(_) => {},
                    }
                }
            },
            Node::Leaf(_) => {},
        }
    }

    /// What an insertion makes of a leaf that `divide_with` has just divided is
    /// what it makes of the full leaf itself.
    pub proof fn lemma_insert_after_division(
        self,
        divided: Node<C>,
        index: int,
        element: C,
        fresh: Priority,
    )
        requires
            self matches Node::Leaf(block) && block.len() == BLOCK_SIZE,
            divided.divided_from(self),
            divided.spec_priority() == fresh,
            0 <= index <= BLOCK_SIZE,
        ensures
            divided.model().inserted(index, element, fresh) == self.model().inserted(
                index,
                element,
                fresh,
            ),
            divided.blocks_after_insert(index, element) == self.blocks_after_insert(index, element),
            divided.model() == self.model().divided(fresh),
    {
        reveal_with_fuel(Node::model, 3);
        reveal_with_fuel(Tree::inserted, 3);
        reveal_with_fuel(Node::blocks_after_insert, 3);
        reveal_with_fuel(Node::blocks, 3);
        match divided {
            Node::Inner(_, _, left, right) => {
                assert(left.model() == Tree::Leaf(left@));
                assert(right.model() == Tree::Leaf(right@));
                assert(left.blocks() =~= seq![left@]);
                assert(right.blocks() =~= seq![right@]);
                if index <= BLOCK_SIZE / 2 {
                    assert(left.blocks_after_insert(index, element) =~= seq![
                        left@.insert(index, element),
                    ]);
                    assert(divided.blocks_after_insert(index, element) =~= self.blocks_after_insert(
                        index,
                        element,
                    ));
                } else {
                    assert(right.blocks_after_insert(index - BLOCK_SIZE / 2, element) =~= seq![
                        right@.insert(index - BLOCK_SIZE / 2, element),
                    ]);
                    assert(divided.blocks_after_insert(index, element) =~= self.blocks_after_insert(
                        index,
                        element,
                    ));
                }
            },
            Node::Leaf(_) => {},
        }
    }

    /// A rotation keeps the elements and their order.
    pub proof fn lemma_rotated_elements(self, direction: usize)
        ensures
            self.rotated(direction)@ == self@,
    {
        reveal_with_fuel(Node::elements, 3);
    }

    /// In a well-formed tree the reported length is the number of elements.
    pub proof fn lemma_len(self)
        requires
            self.wf(),
        ensures
            self.spec_len() == self@.len(),
        decreases self,
    {
        match self {
            Node::Leaf(_) => {},
            Node::Inner(_, _, left, right) => {
                left.lemma_len();
                right.lemma_len();
            },
        }
    }

    /// A well-formed node passes the diagnostic check under every parent that it fits below.
    pub proof fn lemma_wf_is_valid(self, father: Option<&Self>)
        requires
            self.wf(),
            father matches Some(f) ==> self.fits_below(f.spec_priority()),
        ensures
            self.valid_under(father),
        decreases self,
    {
        match self {
            Node::Leaf(_) => {},
            Node::Inner(_, _, left, right) => {
                left.lemma_wf_is_valid(Some(&self));
                right.lemma_wf_is_valid(Some(&self));
            },
        }
    }

    /// Promoting a child that outranks its parent restores the invariant, given
    /// that the invariant holds everywhere else and that the grandchildren fit
    /// below the parent.
    pub proof fn lemma_promotion(self, direction: usize)
        requires
            self matches Node::Inner(priority, size, left, right) && {
                &&& size == left.spec_len() + right.spec_len()
                &&& left.wf()
                &&& right.wf()
                &&& self.child(direction).fits_below(priority)
                &&& self.promoted_by(direction) matches Node::Inner(promoted, _, a, b) && {
                    &&& promoted > priority
                    &&& a.fits_below(priority)
                    &&& b.fits_below(priority)
                }
            },
        ensures
            self.rotated(direction).wf(),
            self.rotated(direction) matches Node::Inner(_, _, left, right) && left.fits_below(
                self.spec_priority(),
            ) && right.fits_below(self.spec_priority()),
            self.rotated(direction).spec_len() == self.spec_len(),
    {
        reveal_with_fuel(Node::wf, 3);
    }

    /// Whether the node is a leaf.
    pub fn is_leaf(&self) -> (leaf: bool)
        ensures
            leaf == (self is Leaf),
    {
        match self {
            Node::Leaf(_) => true,
            _ => false,
        }
    }

    /// The number of elements that the node reports, in constant time.
    #[verifier::when_used_as_spec(spec_len)]
    pub fn len(&self) -> (n: usize)
        ensures
            n == self.spec_len(),
            self.wf() ==> n == self@.len(),
    {
        proof {
            if self.wf() {
                self.lemma_len();
            }
        }
        match self {
            Node::Leaf(block) => block.len(),
            Node::Inner(_, size, _, _) => *size,
        }
    }

    /// The priority of an inner node; a leaf answers with the largest priority.
    #[verifier::when_used_as_spec(spec_priority)]
    pub fn priority(&self) -> (priority: Priority)
        ensures
            priority == self.spec_priority(),
    {
        match self {
            Node::Leaf(_) => u64::MAX,
            Node::Inner(priority, _, _, _) => *priority,
        }
    }

    /// Takes an inner node apart: its priority, then the child on the side
    /// `direction`, then the other child.
    pub fn extract_content(self, direction: usize) -> (content: (
        Priority,
        Box<Node<C>>,
        Box<Node<C>>,
    ))
        requires
            self is Inner,
        ensures
            content.0 == self.spec_priority(),
            *content.1 == self.child(direction),
            *content.2 == self.promoted_by(direction),
    {
        match self {
            Node::Leaf(_) => unreached(),
            Node::Inner(priority, _, left, right) => {
                if direction == RIGHT {
                    (priority, right, left)
                } else {
                    (priority, left, right)
                }
            },
        }
    }

    /// Rotates the tree at this node in `direction`: the child on the other side
    /// takes this node's place, this node becomes its child on the side
    /// `direction` and takes over the grandchild that stood between them. The
    /// two nodes whose children change get their sizes anew; the elements keep
    /// their order.
    pub fn rotate(&mut self, direction: usize)
        requires
            old(self).can_rotate(direction),
        ensures
            *final(self) == old(self).rotated(direction),
            final(self)@ == old(self)@,
    {
        proof {
            self.lemma_rotated_elements(direction);
        }
        replace_with::replace_with_or_abort(
            self,
            |owned_self: Node<C>| -> (rotated: Node<C>)
                requires
                    owned_self.can_rotate(direction),
                ensures
                    rotated == owned_self.rotated(direction)
                {
                    let (self_priority, n1, n2) = owned_self.extract_content(direction);
                    let (n2_priority, n3, n4) = n2.extract_content(direction);
                    assert(self_priority <= n2_priority);
                    let new_self_size = n1.len() + n3.len();
                    let new_n2_size = new_self_size + n4.len();
                    if direction == RIGHT {
                        let new_self = Box::new(Node::Inner(self_priority, new_self_size, n3, n1));
                        Node::Inner(n2_priority, new_n2_size, n4, new_self)
                    } else {
                        let new_self = Box::new(Node::Inner(self_priority, new_self_size, n1, n3));
                        Node::Inner(n2_priority, new_n2_size, new_self, n4)
                    }
                },
        );
    }

    /// Turns a leaf into an inner node over two leaves that hold the first and
    /// the second half of its block, with a fresh random priority.
    pub fn divide(&mut self)
        requires
            (*old(self)) is Leaf,
        ensures
            final(self).divided_from(*old(self)),
            final(self)@ == old(self)@,
    {
        self.divide_with(random_priority())
    }

    /// Turns a leaf into an inner node of the given priority over two leaves
    /// that hold the first and the second half of its block.
    pub fn divide_with(&mut self, priority: Priority)
        requires
            (*old(self)) is Leaf,
        ensures
            final(self).divided_from(*old(self)),
            final(self).spec_priority() == priority,
            final(self).model() == old(self).model().divided(priority),
            final(self)@ == old(self)@,
    {
        replace_with::replace_with_or_abort(
            self,
            |owned_self: Node<C>| -> (divided: Node<C>)
                requires
                    owned_self is Leaf,
                ensures
                    divided.divided_from(owned_self),
                    divided.spec_priority() == priority,
                    divided.model() == owned_self.model().divided(priority),
                    divided@ == owned_self@
                {
                    let mut block: Vec<C> = match owned_self {
                        Node::Leaf(inner_block) => inner_block,
                        _ => unreached(),
                    };
                    let size = block.len();
                    let right_block = block.split_off(size / 2);
                    let divided = Node::Inner(
                        priority,
                        size,
                        Box::new(Node::Leaf(block)),
                        Box::new(Node::Leaf(right_block)),
                    );
                    proof {
                        reveal_with_fuel(Node::elements, 2);
                        reveal_with_fuel(Node::model, 2);
                        assert(block@ + right_block@ =~= owned_self@);
                    }
                    divided
                },
        );
    }

    /// The element at position `index`, if there is one. A position below the
    /// length of the left child lies in the left child; any other lies in the
    /// right child, that length further to the front.
    pub fn get(&self, index: usize) -> (element: Option<&C>)
        requires
            self.wf(),
        ensures
            index < self@.len() ==> element == Some(&self@[index as int]),
            index >= self@.len() ==> element is None,
        decreases self,
    {
        match self {
            Node::Leaf(block) => if index < block.len() {
                Some(&block[index])
            } else {
                None
            },
            Node::Inner(_, _, left, right) => {
                let left_size = left.len();
                if index < left_size {
                    left.get(index)
                } else {
                    right.get(index - left_size)
                }
            },
        }
    }

    /// A mutable reference to the element at position `index`, if there is one.
    /// Writing through it changes that element and nothing else: the tree keeps
    /// its shape, its sizes, its priorities and its other elements.
    pub fn get_mut(&mut self, index: usize) -> (element: Option<&mut C>)
        requires
            old(self).wf(),
        ensures
            index >= old(self)@.len() ==> element is None && *final(self) == *old(self),
            index < old(self)@.len() ==> {
                &&& element is Some
                &&& *element.unwrap() == old(self)@[index as int]
                &&& final(self)@ == old(self)@.update(index as int, *final(element.unwrap()))
                &&& final(self).model() == old(self).model().updated(
                    index as int,
                    *final(element.unwrap()),
                )
                &&& final(self).wf()
                &&& final(self).same_root(*old(self))
            },
        decreases *old(self),
    {
        match self {
            Node::Leaf(block) => if index < block.len() {
                Some(&mut block[index])
            } else {
                None
            },
            Node::Inner(_, _, left, right) => {
                let left_size = left.len();
                if index < left_size {
                    left.get_mut(index)
                } else {
                    right.get_mut(index - left_size)
                }
            },
        }
    }

    /// Checks the size and priority invariants of the subtree of a node whose
    /// parent is `father`.
    pub fn is_valid(&self, father: Option<&Self>) -> (valid: bool)
        ensures
            valid == self.valid_under(father),
        decreases self,
    {
        match self {
            Node::Inner(_, size, left, right) => {
                let below_father = match father {
                    Some(f) => self.priority() <= f.priority(),
                    None => true,
                };
                let left_size = left.len();
                below_father && left_size <= *size && *size - left_size == right.len()
                    && left.is_valid(Some(self)) && right.is_valid(Some(self))
            },
            _ => true,
        }
    }

    /// Inserts `element` at position `index`; the elements from there on move up by one.
    ///
    /// A full leaf is divided first, under a fresh random priority, which is
    /// drawn before the descent and goes unused where no leaf is divided. On
    /// the way back up, a child that is an inner node with a higher priority
    /// than its parent is promoted by a rotation. A leaf child is never
    /// promoted: it has no children to hand over, and the priority that it
    /// reports only says that it never gives way. What the tree is afterwards
    /// is `inserted` of its model, for the priority drawn.
    pub fn insert(&mut self, index: usize, element: C)
        requires
            old(self).wf(),
            index <= old(self)@.len(),
            old(self)@.len() < usize::MAX,
        ensures
            final(self).wf(),
            final(self)@ == old(self)@.insert(index as int, element),
            final(self).blocks() == old(self).blocks_after_insert(index as int, element),
            final(self).grown_from(*old(self)),
            final(self).spec_len() == old(self).spec_len() + 1,
            final(self).valid_under(None),
            exists|fresh: Priority|
                final(self).model() == #[trigger] old(self).model().inserted(
                    index as int,
                    element,
                    fresh,
                ),
    {
        proof {
            self.lemma_len();
        }
        self.insert_with(index, element, random_priority());
        proof {
            self.lemma_len();
            self.lemma_wf_is_valid(None);
        }
    }

    /// Inserts `element` at position `index` as `insert` does, with `fresh` as
    /// the priority of the inner node that a division makes.
    #[verifier::rlimit(60)]
    pub fn insert_with(&mut self, index: usize, element: C, fresh: Priority)
        requires
            old(self).wf(),
            index <= old(self)@.len(),
            old(self)@.len() < usize::MAX,
        ensures
            final(self).wf(),
            final(self)@ == old(self)@.insert(index as int, element),
            final(self).model() == old(self).model().inserted(index as int, element, fresh),
            final(self).blocks() == old(self).blocks_after_insert(index as int, element),
            final(self).grown_from(*old(self)),
        decreases old(self).descent(),
    {
        proof {
            self.lemma_len();
        }
        if self.is_leaf() && self.len() == BLOCK_SIZE {
            self.divide_with(fresh);
            proof {
                reveal_with_fuel(Node::wf, 2);
                reveal_with_fuel(Node::descent, 2);
                self.lemma_len();
                old(self).lemma_insert_after_division(*self, index as int, element, fresh);
            }
        }
        let ghost divided = *self;
        assert(divided.wf() && divided@ == old(self)@);
        assert(divided.model().inserted(index as int, element, fresh) == old(self).model().inserted(
            index as int,
            element,
            fresh,
        ));
        assert(divided.blocks_after_insert(index as int, element) == old(self).blocks_after_insert(
            index as int,
            element,
        ));
        match self {
            Node::Leaf(block) => {
                block.insert(index, element);
            },
            Node::Inner(priority, size, left, right) => {
                let ghost left_before = **left;
                let ghost right_before = **right;
                proof {
                    left.lemma_len();
                    right.lemma_len();
                    left.lemma_model_root();
                    right.lemma_model_root();
                }
                *size += 1;
                let left_size = left.len();
                let direction = if left_size >= index {
                    left.insert_with(index, element, fresh);
                    proof {
                        left.lemma_len();
                        left.lemma_model_root();
                    }
                    LEFT
                } else {
                    right.insert_with(index - left_size, element, fresh);
                    proof {
                        right.lemma_len();
                        right.lemma_model_root();
                    }
                    RIGHT
                };
                let child = if direction == LEFT {
                    &*left
                } else {
                    &*right
                };
                let promote = !child.is_leaf() && child.priority() > *priority;
                let ghost grown = Node::Inner(*priority, *size, *left, *right);
                proof {
                    assert(grown@ =~= divided@.insert(index as int, element));
                    assert(grown.blocks() =~= divided.blocks_after_insert(index as int, element));
                }
                if promote {
                    let opposite = 1 - direction;
                    proof {
                        grown.lemma_promotion(opposite);
                        grown.lemma_rotated_elements(opposite);
                        grown.lemma_rotated_blocks(opposite);
                        grown.lemma_model_rotated(opposite);
                    }
                    self.rotate(opposite)
                }
            },
        }
    }
}

} // verus!
