//! Assigning priorities to the inner nodes of a tree in breadth-first order.

use vstd::prelude::*;
use std::collections::VecDeque;
use crate::between::node_count;
use crate::deps::ascending;
use crate::node::{Node, Priority};

verus! {

/// The number of nodes in the trees of a queue.
pub open spec fn forest_nodes<C>(queue: Seq<Node<C>>) -> nat
    decreases queue.len(),
{
    if queue.len() == 0 {
        0
    } else {
        forest_nodes(queue.drop_last()) + node_count(queue.last())
    }
}

/// The number of inner nodes in the trees of a queue.
pub open spec fn forest_inner<C>(queue: Seq<Node<C>>) -> nat
    decreases queue.len(),
{
    if queue.len() == 0 {
        0
    } else {
        forest_inner(queue.drop_last()) + queue.last().inner_count()
    }
}

/// The nodes of a queue are those of its first tree and those of the rest.
pub proof fn lemma_forest_front<C>(queue: Seq<Node<C>>)
    requires
        queue.len() > 0,
    ensures
        forest_nodes(queue) == node_count(queue[0]) + forest_nodes(queue.drop_first()),
        forest_inner(queue) == queue[0].inner_count() + forest_inner(queue.drop_first()),
    decreases queue.len(),
{
    if queue.len() > 1 {
        lemma_forest_front(queue.drop_last());
        assert(queue.drop_last().drop_first() =~= queue.drop_first().drop_last());
        assert(queue.drop_first().last() == queue.last());
        assert(queue.drop_last()[0] == queue[0]);
    } else {
        assert(queue.drop_first() =~= Seq::<Node<C>>::empty());
        assert(queue.drop_last() =~= Seq::<Node<C>>::empty());
        assert(forest_nodes(queue.drop_last()) == 0);
        assert(forest_inner(queue.drop_last()) == 0);
    }
}

/// When the first tree of a queue is taken off and its two children are put
/// at the end, the queue holds one node less, an inner one.
pub proof fn lemma_forest_step<C>(queue: Seq<Node<C>>)
    requires
        queue.len() > 0,
        queue[0] is Inner,
    ensures
        ({
            let next = queue.drop_first().push(queue[0].child(0)).push(queue[0].child(1));
            &&& forest_nodes(next) + 1 == forest_nodes(queue)
            &&& forest_inner(next) + 1 == forest_inner(queue)
        }),
{
    let left = queue[0].child(0);
    let right = queue[0].child(1);
    let grown = queue.drop_first().push(left);
    let next = grown.push(right);
    lemma_forest_front(queue);
    assert(next.drop_last() =~= grown);
    assert(grown.drop_last() =~= queue.drop_first());
    assert(forest_nodes(next) == forest_nodes(grown) + node_count(right));
    assert(forest_nodes(grown) == forest_nodes(queue.drop_first()) + node_count(left));
    assert(forest_inner(next) == forest_inner(grown) + right.inner_count());
    assert(forest_inner(grown) == forest_inner(queue.drop_first()) + left.inner_count());
}

/// The trees of a queue after the breadth-first walk that starts with them in
/// the queue. The walk takes the first tree off the queue. If it is an inner
/// node, it receives the last of `priorities`, which leaves the pool, and its
/// children go to the end of the queue. The walk goes on until the queue is
/// empty.
pub open spec fn walked<C>(queue: Seq<Node<C>>, priorities: Seq<Priority>) -> Seq<Node<C>>
    decreases forest_nodes(queue),
{
    if queue.len() == 0 {
        Seq::empty()
    } else {
        match queue[0] {
            Node::Leaf(_) => {
                proof {
                    lemma_forest_front(queue);
                }
                seq![queue[0]] + walked(queue.drop_first(), priorities)
            },
            Node::Inner(_, size, left, right) => {
                proof {
                    lemma_forest_step(queue);
                }
                let rest = walked(
                    queue.drop_first().push(*left).push(*right),
                    priorities.drop_last(),
                );
                let kept = queue.len() - 1;
                seq![
                    Node::Inner(
                        priorities.last(),
                        size,
                        Box::new(rest[kept]),
                        Box::new(rest[kept + 1]),
                    ),
                ] + rest.take(kept)
            },
        }
    }
}

/// The walk keeps the number of trees and the shape of each.
pub proof fn lemma_walked_shape<C>(queue: Seq<Node<C>>, priorities: Seq<Priority>)
    ensures
        walked(queue, priorities).len() == queue.len(),
        forall|i: int|
            0 <= i < queue.len() ==> (#[trigger] walked(queue, priorities)[i]).same_shape(queue[i]),
    decreases forest_nodes(queue),
{
    if queue.len() > 0 {
        match queue[0] {
            Node::Leaf(_) => {
                lemma_forest_front(queue);
                lemma_walked_shape(queue.drop_first(), priorities);
                queue[0].lemma_same_shape_itself();
                let rest = walked(queue.drop_first(), priorities);
                assert forall|i: int| 0 <= i < queue.len() implies (#[trigger] walked(
                    queue,
                    priorities,
                )[i]).same_shape(queue[i]) by {
                    if i > 0 {
                        assert(walked(queue, priorities)[i] == rest[i - 1]);
                        assert(queue[i] == queue.drop_first()[i - 1]);
                    }
                }
            },
            Node::Inner(_, _, left, right) => {
                lemma_forest_step(queue);
                let next = queue.drop_first().push(*left).push(*right);
                let kept = queue.len() - 1;
                lemma_walked_shape(next, priorities.drop_last());
                let rest = walked(next, priorities.drop_last());
                assert(next[kept] == *left);
                assert(next[kept + 1] == *right);
                assert(rest[kept].same_shape(next[kept]));
                assert(rest[kept + 1].same_shape(next[kept + 1]));
                assert forall|i: int| 0 <= i < queue.len() implies (#[trigger] walked(
                    queue,
                    priorities,
                )[i]).same_shape(queue[i]) by {
                    if i > 0 {
                        assert(walked(queue, priorities)[i] == rest[i - 1]);
                        assert(queue[i] == next[i - 1]);
                        assert(rest[i - 1].same_shape(next[i - 1]));
                    }
                }
            },
        }
    }
}

/// A walk over well-formed trees with a sorted pool that holds a priority for
/// every inner node yields well-formed trees, and none of their roots has a
/// higher priority than the last of the pool.
pub proof fn lemma_walked_order<C>(queue: Seq<Node<C>>, priorities: Seq<Priority>)
    requires
        ascending(priorities),
        forest_inner(queue) <= priorities.len(),
        forall|i: int| 0 <= i < queue.len() ==> (#[trigger] queue[i]).wf(),
    ensures
        forall|i: int|
            0 <= i < queue.len() ==> {
                &&& (#[trigger] walked(queue, priorities)[i]).wf()
                &&& walked(queue, priorities)[i] is Inner ==> priorities.len() > 0 && walked(
                    queue,
                    priorities,
                )[i].spec_priority() <= priorities.last()
            },
    decreases forest_nodes(queue),
{
    if queue.len() > 0 {
        lemma_walked_shape(queue, priorities);
        match queue[0] {
            Node::Leaf(_) => {
                lemma_forest_front(queue);
                lemma_walked_order(queue.drop_first(), priorities);
                let rest = walked(queue.drop_first(), priorities);
                assert forall|i: int| 0 <= i < queue.len() implies {
                    &&& (#[trigger] walked(queue, priorities)[i]).wf()
                    &&& walked(queue, priorities)[i] is Inner ==> priorities.len() > 0 && walked(
                        queue,
                        priorities,
                    )[i].spec_priority() <= priorities.last()
                } by {
                    if i > 0 {
                        assert(walked(queue, priorities)[i] == rest[i - 1]);
                        assert(queue.drop_first()[i - 1] == queue[i]);
                    }
                }
            },
            Node::Inner(_, size, left, right) => {
                lemma_forest_step(queue);
                let next = queue.drop_first().push(*left).push(*right);
                let pool = priorities.drop_last();
                let kept = queue.len() - 1;
                assert(queue[0].wf());
                assert forall|i: int| 0 <= i < next.len() implies (#[trigger] next[i]).wf() by {
                    if i < kept {
                        assert(next[i] == queue[i + 1]);
                    }
                }
                assert(pool.len() > 0 ==> pool.last() == priorities[priorities.len() - 2]);
                lemma_walked_order(next, pool);
                lemma_walked_shape(next, pool);
                let rest = walked(next, pool);
                assert(next[kept] == *left);
                assert(next[kept + 1] == *right);
                rest[kept].lemma_same_shape(*left);
                rest[kept + 1].lemma_same_shape(*right);
                let first = Node::Inner(
                    priorities.last(),
                    size,
                    Box::new(rest[kept]),
                    Box::new(rest[kept + 1]),
                );
                assert(walked(queue, priorities)[0] == first);
                assert(rest[kept].wf() && rest[kept + 1].wf());
                assert(rest[kept].fits_below(priorities.last()));
                assert(rest[kept + 1].fits_below(priorities.last()));
                assert(first.wf());
                assert forall|i: int| 0 <= i < queue.len() implies {
                    &&& (#[trigger] walked(queue, priorities)[i]).wf()
                    &&& walked(queue, priorities)[i] is Inner ==> priorities.len() > 0 && walked(
                        queue,
                        priorities,
                    )[i].spec_priority() <= priorities.last()
                } by {
                    if i > 0 {
                        assert(walked(queue, priorities)[i] == rest[i - 1]);
                        assert(rest[i - 1].wf());
                    }
                }
            },
        }
    }
}

impl<C> Node<C> {
    /// The number of inner nodes.
    pub open spec fn inner_count(self) -> nat
        decreases self,
    {
        match self {
            Node::Leaf(_) => 0,
            Node::Inner(_, _, left, right) => 1 + left.inner_count() + right.inner_count(),
        }
    }

    /// The number of levels that hold an inner node.
    pub open spec fn inner_depth(self) -> nat
        decreases self,
    {
        match self {
            Node::Leaf(_) => 0,
            Node::Inner(_, _, left, right) => 1 + if left.inner_depth() >= right.inner_depth() {
                left.inner_depth()
            } else {
                right.inner_depth()
            },
        }
    }

    /// Whether the two trees differ in their priorities at most.
    pub open spec fn same_shape(self, other: Node<C>) -> bool
        decreases self,
    {
        match self {
            Node::Leaf(block) => other == self,
            Node::Inner(_, size, left, right) => {
                &&& other matches Node::Inner(_, other_size, other_left, other_right)
                &&& size == other_size
                &&& left.same_shape(*other_left)
                &&& right.same_shape(*other_right)
            },
        }
    }

    /// The tree whose inner nodes have, in breadth-first order from the root,
    /// each level from left to right, the last of `priorities`, the one before
    /// it, and so on.
    pub open spec fn relabeled_breadth_first(self, priorities: Seq<Priority>) -> Node<C> {
        walked(seq![self], priorities)[0]
    }

    /// A tree has its own shape.
    pub proof fn lemma_same_shape_itself(self)
        ensures
            self.same_shape(self),
        decreases self,
    {
        match self {
            Node::Leaf(_) => {},
            Node::Inner(_, _, left, right) => {
                left.lemma_same_shape_itself();
                right.lemma_same_shape_itself();
            },
        }
    }

    /// Trees of the same shape hold the same elements and count the same.
    pub proof fn lemma_same_shape(self, other: Node<C>)
        requires
            self.same_shape(other),
        ensures
            self@ == other@,
            self.spec_len() == other.spec_len(),
            self is Leaf <==> other is Leaf,
            self is Leaf ==> self == other,
            self.inner_count() == other.inner_count(),
            self.inner_depth() == other.inner_depth(),
        decreases self,
    {
        match self {
            Node::Leaf(_) => {},
            Node::Inner(_, _, left, right) => {
                match other {
                    Node::Leaf(_) => {},
                    Node::Inner(_, _, other_left, other_right) => {
                        left.lemma_same_shape(*other_left);
                        right.lemma_same_shape(*other_right);
                    },
                }
            },
        }
    }

    /// Assigning sorted priorities in breadth-first order to a well-formed tree
    /// yields a well-formed tree of the same shape, with the same elements.
    pub proof fn lemma_relabeled_breadth_first(self, priorities: Seq<Priority>)
        requires
            self.wf(),
            ascending(priorities),
            self.inner_count() <= priorities.len(),
        ensures
            self.relabeled_breadth_first(priorities).wf(),
            self.relabeled_breadth_first(priorities).same_shape(self),
            self.relabeled_breadth_first(priorities)@ == self@,
    {
        let queue = seq![self];
        assert(queue.drop_last() =~= Seq::<Node<C>>::empty());
        assert(forest_inner(queue.drop_last()) == 0);
        assert(forest_inner(queue) == self.inner_count());
        lemma_walked_shape(queue, priorities);
        lemma_walked_order(queue, priorities);
        assert(queue[0] == self);
        self.relabeled_breadth_first(priorities).lemma_same_shape(self);
    }
}

/// Visits the nodes of the tree in breadth-first order, the root first and each
/// level from left to right, and gives each inner node the last of
/// `priorities`, which it takes away.
pub fn for_each_node_breadth_first<C>(root: &mut Node<C>, priorities: &mut Vec<Priority>)
    requires
        old(root).inner_count() <= old(priorities)@.len(),
    ensures
        *final(root) == old(root).relabeled_breadth_first(old(priorities)@),
        final(priorities)@ == old(priorities)@.take(
            old(priorities)@.len() - old(root).inner_count(),
        ),
{
    let ghost target = root.relabeled_breadth_first(priorities@);
    let ghost all = root.inner_count();
    let ghost root_final = *final(root);
    // What the tree will be, given what the trees in the queue will be.
    let ghost mut frame: spec_fn(Seq<Node<C>>) -> Node<C> = |trees: Seq<Node<C>>| trees[0];
    let mut remaining: VecDeque<&mut Node<C>> = VecDeque::new();
    remaining.push_back(root);
    proof {
        let queue = Seq::new(remaining@.len(), |i: int| *remaining@[i]);
        assert(queue =~= seq![*old(root)]);
        assert(queue.drop_last() =~= Seq::<Node<C>>::empty());
        assert(forest_inner(queue.drop_last()) == 0);
        assert(forest_inner(queue) == all);
        assert(priorities@.take(priorities@.len() as int) =~= priorities@);
    }
    loop
        invariant
            root_final == frame(Seq::new(remaining@.len(), |i: int| *final(remaining@[i]))),
            frame(walked(Seq::new(remaining@.len(), |i: int| *remaining@[i]), priorities@))
                == target,
            forest_inner(Seq::new(remaining@.len(), |i: int| *remaining@[i])) <= priorities@.len(),
            forest_inner(Seq::new(remaining@.len(), |i: int| *remaining@[i])) <= all,
            all <= old(priorities)@.len(),
            priorities@ == old(priorities)@.take(
                old(priorities)@.len() - (all - forest_inner(
                    Seq::new(remaining@.len(), |i: int| *remaining@[i]),
                )),
            ),
        ensures
            root_final == target,
            priorities@ == old(priorities)@.take(old(priorities)@.len() - all),
        decreases forest_nodes(Seq::new(remaining@.len(), |i: int| *remaining@[i])),
    {
        let ghost before = remaining@;
        let ghost queue = Seq::new(before.len(), |i: int| *before[i]);
        let ghost pool = priorities@;
        match remaining.pop_front() {
            Some(node) => {
                let ghost popped = *node;
                let ghost rest = remaining@;
                let ghost kept = rest.len() as int;
                let ghost outer = frame;
                assert(forall|i: int| 0 <= i < kept ==> rest[i] == before[i + 1]);
                assert(queue[0] == popped);
                match node {
                    Node::Inner(priority, size, left, right) => {
                        proof {
                            lemma_forest_step(queue);
                        }
                        let ghost size_kept = *size;
                        let ghost left_before = **left;
                        let ghost right_before = **right;
                        *priority = priorities.pop().unwrap();
                        let ghost given = *priority;
                        let left_node: &mut Node<C> = &mut **left;
                        remaining.push_back(left_node);
                        let right_node: &mut Node<C> = &mut **right;
                        remaining.push_back(right_node);
                        proof {
                            frame =
                            |trees: Seq<Node<C>>|
                                outer(
                                    seq![
                                        Node::Inner(
                                            given,
                                            size_kept,
                                            Box::new(trees[kept]),
                                            Box::new(trees[kept + 1]),
                                        ),
                                    ] + trees.take(kept),
                                );
                            assert(remaining@.len() == kept + 2);
                            assert(forall|i: int| 0 <= i < kept ==> remaining@[i] == before[i + 1]);
                            let ends = Seq::new(remaining@.len(), |i: int| *final(remaining@[i]));
                            let ends_before = Seq::new(before.len(), |i: int| *final(before[i]));
                            assert(ends_before[0] == Node::Inner(
                                given,
                                size_kept,
                                Box::new(ends[kept]),
                                Box::new(ends[kept + 1]),
                            ));
                            assert(seq![
                                Node::Inner(
                                    given,
                                    size_kept,
                                    Box::new(ends[kept]),
                                    Box::new(ends[kept + 1]),
                                ),
                            ] + ends.take(kept) =~= ends_before);
                            let next = Seq::new(remaining@.len(), |i: int| *remaining@[i]);
                            assert(next =~= queue.drop_first().push(left_before).push(right_before));
                            assert(given == pool.last());
                            assert(priorities@ =~= pool.drop_last());
                            assert(popped == Node::Inner(
                                popped.spec_priority(),
                                size_kept,
                                Box::new(left_before),
                                Box::new(right_before),
                            ));
                            assert(walked(queue, pool) == seq![
                                Node::Inner(
                                    given,
                                    size_kept,
                                    Box::new(walked(next, priorities@)[kept]),
                                    Box::new(walked(next, priorities@)[kept + 1]),
                                ),
                            ] + walked(next, priorities@).take(kept));
                            assert(priorities@ =~= old(priorities)@.take(
                                old(priorities)@.len() - (all - forest_inner(next)),
                            ));
                        }
                    },
                    Node::Leaf(_) => {
                        proof {
                            lemma_forest_front(queue);
                            frame = |trees: Seq<Node<C>>| outer(seq![popped] + trees);
                            let ends = Seq::new(remaining@.len(), |i: int| *final(remaining@[i]));
                            let ends_before = Seq::new(before.len(), |i: int| *final(before[i]));
                            assert(ends_before[0] == popped);
                            assert(seq![popped] + ends =~= ends_before);
                            let next = Seq::new(remaining@.len(), |i: int| *remaining@[i]);
                            assert(next =~= queue.drop_first());
                            assert(walked(queue, pool) == seq![popped] + walked(next, pool));
                        }
                    },
                }
            },
            None => {
                proof {
                    let ends = Seq::new(remaining@.len(), |i: int| *final(remaining@[i]));
                    assert(ends =~= walked(queue, pool));
                    assert(forest_inner(queue) == 0);
                }
                break ;
            },
        }
    }
}

} // verus!
