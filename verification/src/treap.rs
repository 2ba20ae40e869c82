//! The sequence itself: an indexed treap over one root node.

use vstd::prelude::*;
use std::ops::Range;
use crate::between::{selected, Between};
use crate::bulk::{build_tree, merged};
use crate::deps::chunked;
use crate::node::{Node, Priority, BLOCK_SIZE};

verus! {

/// A sequence with access and insertion by position.
pub struct ITreap<C> {
    root: Node<C>,
}

impl<C> View for ITreap<C> {
    type V = Seq<C>;

    /// The elements of the sequence in order.
    open spec fn view(&self) -> Seq<C> {
        self.root()@
    }
}

impl<C> ITreap<C> {
    /// The tree that holds the elements.
    pub closed spec fn root(&self) -> Node<C> {
        self.root
    }

    /// The invariant of the treap: its tree is well formed. Every constructor
    /// establishes it and every operation keeps it.
    pub open spec fn wf(&self) -> bool {
        self.root().wf()
    }

    /// Create a new empty indexed treap.
    pub fn new() -> (treap: Self)
        ensures
            treap.wf(),
            treap@ == Seq::<C>::empty(),
            treap.root() is Leaf,
    {
        ITreap { root: Node::Leaf(Vec::new()) }
    }

    /// Builds the treap of the elements of `items`, in their order, without
    /// inserting them one by one: the elements go into leaves of half the block
    /// size under a balanced tree.
    /// Cost is O(n).
    pub fn build_from(items: Vec<C>) -> (treap: Self)
        ensures
            treap.wf(),
            treap@ == items@,
            treap.root().balanced(),
            treap.root().ranked_breadth_first(),
            items@.len() > 0 ==> treap.root().model().without_priorities() == merged(
                chunked(items@, (BLOCK_SIZE / 2) as nat),
            ),
            items@.len() == 0 ==> treap.root() is Leaf,
            items@.len() > 0 ==> treap.root().blocks() == chunked(
                items@,
                (BLOCK_SIZE / 2) as nat,
            ),
    {
        ITreap { root: build_tree(items) }
    }

    /// Checks that the data structure respects its constraints. A well-formed
    /// treap always does.
    pub fn is_valid(&self) -> (valid: bool)
        ensures
            valid == self.root().valid_under(None),
            self.wf() ==> valid,
    {
        proof {
            if self.wf() {
                self.root.lemma_wf_is_valid(None);
            }
        }
        self.root.is_valid(None)
    }

    /// Inserts an element at position `index`. The tree is afterwards what
    /// `inserted` makes of it, for the priority that was drawn.
    /// Cost is O(log(n/B)+B).
    pub fn insert(&mut self, index: usize, element: C)
        requires
            old(self).wf(),
            index <= old(self)@.len(),
            old(self)@.len() < usize::MAX,
        ensures
            final(self).wf(),
            final(self)@ == old(self)@.insert(index as int, element),
            final(self)@.len() == old(self)@.len() + 1,
            final(self).root().spec_len() == final(self)@.len(),
            final(self).root().valid_under(None),
            final(self).root().blocks() == old(self).root().blocks_after_insert(
                index as int,
                element,
            ),
            exists|fresh: Priority|
                final(self).root().model() == #[trigger] old(self).root().model().inserted(
                    index as int,
                    element,
                    fresh,
                ),
    {
        self.root.insert(index, element);
        proof {
            self.root.lemma_len();
        }
    }

    /// Adds an element to the back.
    /// Cost is O(log(n/B)+1).
    pub fn push(&mut self, element: C)
        requires
            old(self).wf(),
            old(self)@.len() < usize::MAX,
        ensures
            final(self).wf(),
            final(self)@ == old(self)@.push(element),
            final(self)@.len() == old(self)@.len() + 1,
            final(self).root().spec_len() == final(self)@.len(),
            final(self).root().valid_under(None),
            final(self).root().blocks() == old(self).root().blocks_after_insert(
                old(self)@.len() as int,
                element,
            ),
            exists|fresh: Priority|
                final(self).root().model() == #[trigger] old(self).root().model().inserted(
                    old(self)@.len() as int,
                    element,
                    fresh,
                ),
    {
        let end = self.len();
        self.insert(end, element);
        assert(old(self)@.insert(end as int, element) =~= old(self)@.push(element));
    }

    /// Returns the number of elements in the indexed treap.
    /// Cost is O(1).
    pub fn len(&self) -> (n: usize)
        requires
            self.wf(),
        ensures
            n == self@.len(),
            n == self.root().spec_len(),
    {
        self.root.len()
    }

    /// Borrows the `i`th element, or nothing where `i` is out of range.
    /// Cost is O(log(n/B)).
    pub fn get(&self, i: usize) -> (element: Option<&C>)
        requires
            self.wf(),
        ensures
            i < self@.len() ==> element == Some(&self@[i as int]),
            i >= self@.len() ==> element is None,
    {
        self.root.get(i)
    }

    /// Mutably borrows the `i`th element, or nothing where `i` is out of range.
    /// Cost is O(log(n/B)).
    pub fn get_mut(&mut self, i: usize) -> (element: Option<&mut C>)
        requires
            old(self).wf(),
        ensures
            i >= old(self)@.len() ==> element is None && *final(self) == *old(self),
            i < old(self)@.len() ==> {
                &&& element is Some
                &&& *element.unwrap() == old(self)@[i as int]
                &&& final(self)@ == old(self)@.update(i as int, *final(element.unwrap()))
                &&& final(self).root().model() == old(self).root().model().updated(
                    i as int,
                    *final(element.unwrap()),
                )
                &&& final(self).wf()
            },
    {
        self.root.get_mut(i)
    }

    /// Loops on all elements.
    /// Cost is O(n).
    pub fn iter<'a>(&'a self) -> (all: Between<'a, C>)
        requires
            self.wf(),
        ensures
            all.wf(),
            all@ == self@,
    {
        self.between(0..self.root.len())
    }

    /// Loop on all elements corresponding to indices in given range. Positions
    /// of the range past the end of the treap select nothing.
    /// Cost is O(log(n/B) + k) where k designates the number of elements we should loop upon.
    pub fn between<'a>(&'a self, selection: Range<usize>) -> (chosen: Between<'a, C>)
        requires
            self.wf(),
        ensures
            chosen.wf(),
            chosen@ == selected(self@, 0, selection.start as int, selection.end as int),
            selection.start <= selection.end <= self@.len() ==> chosen@ == self@.subrange(
                selection.start as int,
                selection.end as int,
            ),
    {
        Between::new(&self.root, selection)
    }
}

impl<C> std::ops::Index<usize> for ITreap<C> {
    type Output = C;

    /// Borrows the `i`th element, which must exist.
    /// Cost is O(log(n/B)).
    fn index(&self, i: usize) -> (element: &C)
        ensures
            *element == self@[i as int],
    {
        self.root.get(i).unwrap()
    }
}

impl<C> vstd::std_specs::core::IndexSpecImpl<usize> for ITreap<C> {
    /// Indexing asks for a well-formed treap and a position below its length.
    open spec fn index_req(&self, index: &usize) -> bool {
        self.wf() && *index < self@.len()
    }
}

impl<C> Default for ITreap<C> {
    /// The empty treap.
    fn default() -> (treap: Self)
        ensures
            treap.wf(),
            treap@ == Seq::<C>::empty(),
    {
        ITreap::new()
    }
}

} // verus!
