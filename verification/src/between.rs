//! Lazy traversal of the elements whose positions fall in a range.

use vstd::prelude::*;
use std::ops::Range;
use crate::node::Node;

verus! {

/// The larger of two positions.
pub open spec fn later(a: int, b: int) -> int {
    if a >= b {
        a
    } else {
        b
    }
}

/// The smaller of two positions.
pub open spec fn earlier(a: int, b: int) -> int {
    if a <= b {
        a
    } else {
        b
    }
}

/// The part of `elements` that falls in the positions from `lo` up to, not
/// including, `hi`, where `elements` occupies the positions from `start` on.
pub open spec fn selected<C>(elements: Seq<C>, start: int, lo: int, hi: int) -> Seq<C> {
    let first = later(lo, start);
    let last = earlier(hi, start + elements.len());
    if first < last {
        elements.subrange(first - start, last - start)
    } else {
        Seq::empty()
    }
}

/// What is selected from two runs that follow each other is what is selected
/// from the first, followed by what is selected from the second.
pub proof fn lemma_selected_concat<C>(left: Seq<C>, right: Seq<C>, start: int, lo: int, hi: int)
    ensures
        selected(left + right, start, lo, hi) == selected(left, start, lo, hi) + selected(
            right,
            start + left.len(),
            lo,
            hi,
        ),
{
    assert(selected(left + right, start, lo, hi) =~= selected(left, start, lo, hi) + selected(
        right,
        start + left.len(),
        lo,
        hi,
    ));
}

/// The intersection of two ranges of positions. It is empty, with `start` at or
/// after `end`, where the two do not overlap.
pub fn intersect_ranges(r1: &Range<usize>, r2: &Range<usize>) -> (common: Range<usize>)
    ensures
        common.start == later(r1.start as int, r2.start as int),
        common.end == earlier(r1.end as int, r2.end as int),
{
    let start = if r1.start >= r2.start {
        r1.start
    } else {
        r2.start
    };
    let end = if r1.end <= r2.end {
        r1.end
    } else {
        r2.end
    };
    start..end
}

/// The subtrees still to be visited, as (node, positions that it spans), the
/// next one last.
pub type Pending<'a, C> = Seq<(&'a Node<C>, Range<usize>)>;

/// What the pending subtrees yield in `lo..hi`, the last one first.
pub open spec fn pending_elements<'a, C>(pending: Pending<'a, C>, lo: int, hi: int) -> Seq<C>
    decreases pending.len(),
{
    if pending.len() == 0 {
        Seq::empty()
    } else {
        selected(pending.last().0@, pending.last().1.start as int, lo, hi) + pending_elements(
            pending.drop_last(),
            lo,
            hi,
        )
    }
}

/// The number of nodes in a subtree.
pub open spec fn node_count<C>(node: Node<C>) -> nat
    decreases node,
{
    match node {
        Node::Leaf(_) => 1,
        Node::Inner(_, _, left, right) => 1 + node_count(*left) + node_count(*right),
    }
}

/// The number of nodes in the pending subtrees.
pub open spec fn pending_nodes<'a, C>(pending: Pending<'a, C>) -> nat
    decreases pending.len(),
{
    if pending.len() == 0 {
        0
    } else {
        node_count(*pending.last().0) + pending_nodes(pending.drop_last())
    }
}

/// A forward traversal of the elements of a tree whose positions lie in a range.
/// It descends only into the subtrees that overlap the range, and only when
/// their elements are asked for.
pub struct Between<'a, C> {
    remaining_nodes: Vec<(&'a Node<C>, Range<usize>)>,
    current_block: Option<&'a Vec<C>>,
    retained: Range<usize>,
    selection: Range<usize>,
}

impl<'a, C> View for Between<'a, C> {
    type V = Seq<C>;

    /// The elements still to come, in the order in which `next` hands them out.
    closed spec fn view(&self) -> Seq<C> {
        self.current_elements() + pending_elements(
            self.remaining_nodes@,
            self.selection.start as int,
            self.selection.end as int,
        )
    }
}

impl<'a, C> Between<'a, C> {
    /// What is left of the block being read.
    closed spec fn current_elements(&self) -> Seq<C> {
        match self.current_block {
            Some(block) => block@.subrange(self.retained.start as int, self.retained.end as int),
            None => Seq::empty(),
        }
    }

    /// The invariant of the traversal: the positions retained of the current
    /// block lie in it, and each pending subtree is well formed, spans as many
    /// positions as it has elements and overlaps the selection.
    pub closed spec fn wf(&self) -> bool {
        &&& self.current_block matches Some(block) ==> self.retained.start <= self.retained.end
            <= block@.len()
        &&& forall|i: int|
            0 <= i < self.remaining_nodes@.len() ==> {
                let (node, span) = #[trigger] self.remaining_nodes@[i];
                &&& node.wf()
                &&& span.start + node@.len() == span.end
                &&& later(span.start as int, self.selection.start as int) < earlier(
                    span.end as int,
                    self.selection.end as int,
                )
            }
    }

    /// Starts the traversal of the positions `selection` of the tree under `root`.
    pub fn new(root: &'a Node<C>, selection: Range<usize>) -> (between: Self)
        requires
            root.wf(),
        ensures
            between.wf(),
            between@ == selected(root@, 0, selection.start as int, selection.end as int),
    {
        let root_range = 0..root.len();
        let mut remaining_nodes = Vec::new();
        let common = intersect_ranges(&root_range, &selection);
        if common.start < common.end {
            remaining_nodes.push((root, root_range));
        }
        let between = Between { remaining_nodes, current_block: None, retained: 0..0, selection };
        proof {
            reveal_with_fuel(pending_elements, 2);
            assert(between.remaining_nodes@.len() > 0 ==> between.remaining_nodes@.drop_last()
                =~= Seq::empty());
        }
        between
    }
    /// The number of nodes in the subtrees still to be visited. It bounds the
    /// work left before the traversal ends.
    spec fn work_left(&self) -> nat {
        pending_nodes(self.remaining_nodes@)
    }

    /// Hands out the next element, or `None` when none is left.
    pub fn next(&mut self) -> (element: Option<&'a C>)
        requires
            old(self).wf(),
        ensures
            final(self).wf(),
            old(self)@.len() == 0 ==> element is None && final(self)@ == old(self)@,
            old(self)@.len() > 0 ==> element == Some(&old(self)@[0]) && final(self)@ == old(
                self,
            )@.drop_first(),
    {
        loop
            invariant
                self.wf(),
                self@ == old(self)@,
            decreases
                self.work_left(),
                if self.current_block is Some { 1nat } else { 0nat },
        {
            let ghost nodes_before = self.work_left();
            let ghost reading_before = self.current_block is Some;
            while self.current_block.is_none() && !self.remaining_nodes.is_empty()
                invariant
                    self.wf(),
                    self@ == old(self)@,
                    self.work_left() <= nodes_before,
                    self.current_block is Some && !reading_before ==> self.work_left()
                        < nodes_before,
                    reading_before ==> self.current_block is Some,
                decreases
                    self.work_left(),
            {
                let ghost before = self.remaining_nodes@;
                let ghost lo = self.selection.start as int;
                let ghost hi = self.selection.end as int;
                let (next_node, next_node_range) = self.remaining_nodes.pop().unwrap();
                let ghost rest = self.remaining_nodes@;
                match next_node {
                    Node::Inner(_, _, left, right) => {
                        proof {
                            lemma_selected_concat(left@, right@, next_node_range.start as int, lo, hi);
                        }
                        let right_start = next_node_range.start + left.len();
                        let right_range = right_start..next_node_range.end;
                        let left_range = next_node_range.start..right_start;
                        let right_common = intersect_ranges(&right_range, &self.selection);
                        if right_common.start < right_common.end {
                            self.remaining_nodes.push((right, right_range));
                            assert(self.remaining_nodes@.drop_last() == rest);
                        }
                        let ghost middle = self.remaining_nodes@;
                        assert(pending_elements(middle, lo, hi) == selected(
                            right@,
                            right_start as int,
                            lo,
                            hi,
                        ) + pending_elements(rest, lo, hi));
                        assert(pending_nodes(middle) <= node_count(**right) + pending_nodes(rest));
                        let left_common = intersect_ranges(&left_range, &self.selection);
                        if left_common.start < left_common.end {
                            self.remaining_nodes.push((left, left_range));
                            assert(self.remaining_nodes@.drop_last() == middle);
                        }
                        assert(pending_elements(self.remaining_nodes@, lo, hi) == selected(
                            left@,
                            next_node_range.start as int,
                            lo,
                            hi,
                        ) + pending_elements(middle, lo, hi));
                        assert(pending_nodes(self.remaining_nodes@) <= node_count(**left)
                            + pending_nodes(middle));
                        assert(pending_elements(self.remaining_nodes@, lo, hi) =~= pending_elements(
                            before,
                            lo,
                            hi,
                        ));
                    },
                    Node::Leaf(block) => {
                        self.current_block = Some(block);
                        let selected = intersect_ranges(&next_node_range, &self.selection);
                        self.retained = (selected.start - next_node_range.start)..(selected.end
                            - next_node_range.start);
                    },
                }
            }
            match self.current_block {
                Some(block) => {
                    if self.retained.start < self.retained.end {
                        let next_value = &block[self.retained.start];
                        self.retained.start += 1;
                        return Some(next_value);
                    } else {
                        self.current_block = None;
                    }
                },
                None => {
                    return None;
                },
            }
        }
    }

    /// Hands out all the elements that are left, in order.
    pub fn collect(self) -> (all: Vec<&'a C>)
        requires
            self.wf(),
        ensures
            all@.len() == self@.len(),
            forall|i: int| 0 <= i < all@.len() ==> *all@[i] == self@[i],
    {
        let mut rest = self;
        let mut all: Vec<&'a C> = Vec::new();
        loop
            invariant
                rest.wf(),
                all@.len() <= self@.len(),
                rest@ == self@.skip(all@.len() as int),
                forall|i: int| 0 <= i < all@.len() ==> *all@[i] == self@[i],
            ensures
                all@.len() == self@.len(),
                forall|i: int| 0 <= i < all@.len() ==> *all@[i] == self@[i],
            decreases rest@.len(),
        {
            let ghost taken = all@.len() as int;
            match rest.next() {
                Some(element) => {
                    all.push(element);
                    assert(self@.skip(taken).drop_first() =~= self@.skip(taken + 1));
                },
                None => {
                    break ;
                },
            }
        }
        all
    }
}

} // verus!
