//! What holds of every treap, stated over the models that the contracts use.

use vstd::prelude::*;
use crate::between::{selected, Between};
use crate::node::{Node, Priority};
use crate::treap::ITreap;

verus! {

/// The sequence after the insertions `steps`, each an index and an element,
/// have been made one after the other into `start`.
pub open spec fn after_inserts<C>(start: Seq<C>, steps: Seq<(int, C)>) -> Seq<C>
    decreases steps.len(),
{
    if steps.len() == 0 {
        start
    } else {
        after_inserts(start, steps.drop_last()).insert(steps.last().0, steps.last().1)
    }
}

/// Whether each of the insertions `steps` finds its index within the sequence
/// that the insertions before it have made of `start`.
pub open spec fn insertable<C>(start: Seq<C>, steps: Seq<(int, C)>) -> bool
    decreases steps.len(),
{
    steps.len() > 0 ==> {
        &&& insertable(start, steps.drop_last())
        &&& 0 <= steps.last().0 <= after_inserts(start, steps.drop_last()).len()
    }
}

/// The elements of `elements` whose position is at least `lo` and less than
/// `hi`, found by going through all of them in order.
pub open spec fn filtered<C>(elements: Seq<C>, lo: int, hi: int) -> Seq<C>
    decreases elements.len(),
{
    if elements.len() == 0 {
        Seq::empty()
    } else if lo <= elements.len() - 1 < hi {
        filtered(elements.drop_last(), lo, hi).push(elements.last())
    } else {
        filtered(elements.drop_last(), lo, hi)
    }
}

/// The subtree that the path leads to, where `true` goes right and `false`
/// goes left, if the path does not run past a leaf.
pub open spec fn subtree<C>(root: Node<C>, path: Seq<bool>) -> Option<Node<C>>
    decreases path.len(),
{
    if path.len() == 0 {
        Some(root)
    } else {
        match root {
            Node::Leaf(_) => None,
            Node::Inner(_, _, left, right) => if path[0] {
                subtree(*right, path.drop_first())
            } else {
                subtree(*left, path.drop_first())
            },
        }
    }
}

/// Every insertion adds one element and none is ever lost: after a run of
/// insertions the length is the length at the start plus the number of
/// insertions.
pub proof fn law_len_counts_insertions<C>(start: Seq<C>, steps: Seq<(int, C)>)
    requires
        insertable(start, steps),
    ensures
        after_inserts(start, steps).len() == start.len() + steps.len(),
    decreases steps.len(),
{
    if steps.len() > 0 {
        law_len_counts_insertions(start, steps.drop_last());
    }
}

/// An insertion puts the element at its index, leaves the elements before it
/// where they are and moves the others up by one. A run of insertions
/// therefore yields the sequence that the same insertions make of a list.
pub proof fn law_insert_order<C>(start: Seq<C>, steps: Seq<(int, C)>)
    requires
        insertable(start, steps),
        steps.len() > 0,
    ensures
        ({
            let before = after_inserts(start, steps.drop_last());
            let after = after_inserts(start, steps);
            let (index, element) = steps.last();
            &&& after[index] == element
            &&& forall|i: int| 0 <= i < index ==> after[i] == before[i]
            &&& forall|i: int| index <= i < before.len() ==> after[i + 1] == before[i]
        }),
{
}

/// A treap built from a sequence hands the sequence back: what holds the
/// elements that `build_from` states, gone through as `iter` states, yields
/// `items` from the first element to the last.
pub proof fn law_build_round_trip<'a, C>(items: Seq<C>, built: ITreap<C>, all: Between<'a, C>)
    requires
        built@ == items,
        all@ == built@,
    ensures
        all@ == items,
{
}

/// The length of a treap is the size that its root reports.
pub proof fn law_len_is_root_size<C>(treap: ITreap<C>)
    requires
        treap.wf(),
    ensures
        treap@.len() == treap.root().spec_len(),
{
    treap.root().lemma_len();
}

/// In a well-formed tree every subtree is well formed, and no inner node has a
/// higher priority than its parent: the priorities do not increase from the
/// root down.
pub proof fn law_heap_order<C>(root: Node<C>, path: Seq<bool>)
    requires
        root.wf(),
    ensures
        subtree(root, path) matches Some(parent) ==> {
            &&& parent.wf()
            &&& parent matches Node::Inner(priority, _, left, right) ==> {
                &&& *left is Inner ==> left.spec_priority() <= priority
                &&& *right is Inner ==> right.spec_priority() <= priority
            }
        },
    decreases path.len(),
{
    if path.len() > 0 {
        match root {
            Node::Leaf(_) => {},
            Node::Inner(_, _, left, right) => {
                if path[0] {
                    law_heap_order(*right, path.drop_first());
                } else {
                    law_heap_order(*left, path.drop_first());
                }
            },
        }
    }
}

/// In a well-formed tree no inner node has a higher priority than the root.
pub proof fn law_root_priority_is_largest<C>(root: Node<C>, path: Seq<bool>)
    requires
        root.wf(),
    ensures
        subtree(root, path) matches Some(node) ==> node is Inner ==> node.spec_priority()
            <= root.spec_priority(),
    decreases path.len(),
{
    if path.len() > 0 {
        match root {
            Node::Leaf(_) => {},
            Node::Inner(_, _, left, right) => {
                if path[0] {
                    law_root_priority_is_largest(*right, path.drop_first());
                } else {
                    law_root_priority_is_largest(*left, path.drop_first());
                }
            },
        }
    }
}

/// Assigning priorities in breadth-first order gives the last of them, which
/// is the largest of a sorted sequence, to the root.
pub proof fn law_breadth_first_root<C>(root: Node<C>, priorities: Seq<Priority>)
    requires
        root is Inner,
    ensures
        root.relabeled_breadth_first(priorities).spec_priority() == priorities.last(),
{
}

/// Selecting a range of positions gives the elements at those positions in
/// order, which is also what is left of all the elements when those at other
/// positions are dropped.
pub proof fn law_between_is_filter<C>(elements: Seq<C>, lo: int, hi: int)
    requires
        0 <= lo <= hi <= elements.len(),
    ensures
        selected(elements, 0, lo, hi) == elements.subrange(lo, hi),
        selected(elements, 0, lo, hi) == filtered(elements, lo, hi),
{
    lemma_filtered(elements, lo, hi);
}

/// Dropping the elements outside a range of positions leaves the subrange.
proof fn lemma_filtered<C>(elements: Seq<C>, lo: int, hi: int)
    requires
        0 <= lo <= hi,
    ensures
        filtered(elements, lo, hi) == if lo < elements.len() {
            elements.subrange(lo, if hi <= elements.len() {
                hi
            } else {
                elements.len() as int
            })
        } else {
            Seq::empty()
        },
    decreases elements.len(),
{
    if elements.len() > 0 {
        lemma_filtered(elements.drop_last(), lo, hi);
    }
}

} // verus!
