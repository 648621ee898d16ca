//! The priority queue that Dijkstra's search and A* draw their next cell from.
use vstd::prelude::*;
use vstd::multiset::Multiset;
use min_max_heap::MinMaxHeap;
use crate::maze::Coord;

verus! {

/// A double-ended priority queue of the `min-max-heap` crate, held opaquely.
#[verifier::external_type_specification]
#[verifier::external_body]
#[verifier::reject_recursive_types(T)]
pub struct ExMinMaxHeap<T>(MinMaxHeap<T>);

/// A queued cell with its priority.
pub type Entry = (usize, Coord);

/// The entries that a queue holds.
pub uninterp spec fn heap_items(h: MinMaxHeap<(usize, (usize, usize))>) -> Multiset<(usize, (usize, usize))>;

/// The order of tuples: by priority, then by `x`, then by `y`.
pub open spec fn entry_le(a: Entry, b: Entry) -> bool {
    a.0 < b.0 || (a.0 == b.0 && (a.1.0 < b.1.0 || (a.1.0 == b.1.0 && a.1.1 <= b.1.1)))
}

/// Relies on `MinMaxHeap::new`: a queue with no entries.
#[verifier::external_body]
pub(crate) fn heap_new() -> (r: MinMaxHeap<Entry>)
    ensures
        heap_items(r) =~= Multiset::empty(),
{
    MinMaxHeap::new()
}

/// Relies on `MinMaxHeap::push`: the entry is added to those held.
#[verifier::external_body]
pub(crate) fn heap_push(h: &mut MinMaxHeap<Entry>, e: Entry)
    ensures
        heap_items(*final(h)) =~= heap_items(*old(h)).insert(e),
{
    h.push(e);
}

/// Relies on `MinMaxHeap::pop_min`: removes and returns a least entry, or
/// returns `None` when the queue is empty.
#[verifier::external_body]
pub(crate) fn heap_pop_min(h: &mut MinMaxHeap<Entry>) -> (r: Option<Entry>)
    ensures
        r.is_none() <==> heap_items(*old(h)).len() == 0,
        r.is_none() ==> heap_items(*final(h)) == heap_items(*old(h)),
        r.is_some() ==> heap_items(*old(h)).contains(r.unwrap()) && heap_items(*final(h))
            =~= heap_items(*old(h)).remove(r.unwrap()),
        r.is_some() ==> forall|e: Entry| #[trigger]
            heap_items(*old(h)).contains(e) ==> entry_le(r.unwrap(), e),
{
    h.pop_min()
}

/// Relies on `MinMaxHeap::is_empty`: whether the queue holds no entry.
#[verifier::external_body]
pub(crate) fn heap_is_empty(h: &MinMaxHeap<Entry>) -> (r: bool)
    ensures
        r == (heap_items(*h).len() == 0),
{
    h.is_empty()
}

} // verus!
