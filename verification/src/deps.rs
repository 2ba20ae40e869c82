//! The functions of other crates that the treap calls, each with the contract
//! that the rest of the library relies on. Verus takes these contracts on trust.

use vstd::prelude::*;

verus! {

/// Draws a balancing priority with `rand::random::<u64>()`, which samples the
/// thread-local generator. The value depends on chance, so nothing is claimed of it.
#[verifier::external_body]
pub(crate) fn random_priority() -> (priority: u64) {
    rand::random()
}

/// `replace_with::replace_with_or_abort` moves the value out of `dest`, hands it to
/// `f`, and stores what `f` returns back into `dest`. The contract says exactly
/// this in terms of the closure's own contract: `f` is called once, on the old
/// value, and its result is the new value. (Were `f` to panic the process would
/// abort; verified closures do not panic when their precondition holds.)
pub assume_specification<T, F: FnOnce(T) -> T>[ replace_with::replace_with_or_abort::<T, F> ](
    dest: &mut T,
    f: F,
)
    requires
        f.requires((*old(dest),)),
    ensures
        f.ensures((*old(dest),), *final(dest)),
;

/// The blocks into which `items` falls when it is cut after every `size`
/// elements: all of them hold `size` elements, but for the last, which holds
/// what is left. Nothing has no blocks.
pub open spec fn chunked<C>(items: Seq<C>, size: nat) -> Seq<Seq<C>>
    decreases items.len(),
{
    if size == 0 || items.len() == 0 {
        Seq::empty()
    } else if items.len() <= size {
        seq![items]
    } else {
        seq![items.take(size as int)] + chunked(items.skip(size as int), size)
    }
}

/// The contents of each block.
pub open spec fn block_views<C>(blocks: Seq<Vec<C>>) -> Seq<Seq<C>> {
    Seq::new(blocks.len(), |i: int| blocks[i]@)
}

/// Cuts `items` into blocks with `Itertools::chunks` of the crate `itertools`,
/// which yields sub-iterators of `size` elements each, the last one shorter
/// where the elements run out, and panics where `size` is 0. Each sub-iterator
/// is collected into a vector.
#[verifier::external_body]
pub(crate) fn chunks<C>(items: Vec<C>, size: usize) -> (blocks: Vec<Vec<C>>)
    requires
        size > 0,
    ensures
        block_views(blocks@) == chunked(items@, size as nat),
{
    let chunks = itertools::Itertools::chunks(items.into_iter(), size);
    (&chunks).into_iter().map(|chunk| chunk.collect()).collect()
}

/// Whether the values stand in ascending order.
pub open spec fn ascending(values: Seq<u64>) -> bool {
    forall|i: int, j: int| 0 <= i <= j < values.len() ==> values[i] <= values[j]
}

/// Sorts with `sort_unstable` of std's slices, which puts the values in
/// ascending order and may reorder equal ones. The same values are there
/// afterwards, each as often as before.
#[verifier::external_body]
pub(crate) fn sort_unstable(values: &mut Vec<u64>)
    ensures
        ascending(final(values)@),
        final(values)@.to_multiset() == old(values)@.to_multiset(),
        final(values)@.len() == old(values)@.len(),
{
    values.sort_unstable();
}

} // verus!
