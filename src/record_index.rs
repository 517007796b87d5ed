//! The bounded FIFO of record start offsets, kept in an `arraydeque::ArrayDeque`.

use arraydeque::ArrayDeque;
use vstd::prelude::*;

verus! {

/// Most records that the index can hold.
pub const INDEX_CAPACITY: usize = 16;

/// A saturating `arraydeque::ArrayDeque` of sixteen offsets. The deque is
/// reachable only through the functions below.
#[verifier::external_body]
#[derive(Debug)]
pub struct RecordIndex {
    deque: ArrayDeque<[usize; 16]>,
}

/// The offsets held by the index, front (oldest) first.
pub uninterp spec fn index_items(d: RecordIndex) -> Seq<usize>;

/// Relies on `ArrayDeque::new`: the deque starts empty.
#[verifier::external_body]
pub(crate) fn index_new() -> (d: RecordIndex)
    ensures
        index_items(d) == Seq::<usize>::empty(),
{
    RecordIndex { deque: ArrayDeque::new() }
}

/// Relies on `ArrayDeque::len`: the number of items, never above the
/// capacity of the backing array.
#[verifier::external_body]
pub(crate) fn index_len(d: &RecordIndex) -> (r: usize)
    ensures
        r == index_items(*d).len(),
        r <= INDEX_CAPACITY,
{
    d.deque.len()
}

/// Relies on `ArrayDeque::get`: the item at `i`, counted from the front.
#[verifier::external_body]
pub(crate) fn index_get(d: &RecordIndex, i: usize) -> (r: Option<usize>)
    ensures
        i < index_items(*d).len() ==> r == Some(index_items(*d)[i as int]),
        i >= index_items(*d).len() ==> r is None,
{
    d.deque.get(i).copied()
}

/// Relies on `ArrayDeque::push_back` of the saturating deque: appends at the
/// back unless the deque is full, and leaves a full deque unchanged.
#[verifier::external_body]
pub(crate) fn index_push_back(d: &mut RecordIndex, x: usize) -> (r: bool)
    ensures
        r == (index_items(*old(d)).len() < INDEX_CAPACITY),
        r ==> index_items(*final(d)) == index_items(*old(d)).push(x),
        !r ==> index_items(*final(d)) == index_items(*old(d)),
{
    d.deque.push_back(x).is_ok()
}

/// Relies on `ArrayDeque::pop_front`: removes and returns the front item.
#[verifier::external_body]
pub(crate) fn index_pop_front(d: &mut RecordIndex) -> (r: Option<usize>)
    ensures
        index_items(*old(d)).len() == 0 ==> r is None && index_items(*final(d)) == index_items(
            *old(d),
        ),
        index_items(*old(d)).len() > 0 ==> r == Some(index_items(*old(d))[0]) && index_items(
            *final(d),
        ) == index_items(*old(d)).drop_first(),
{
    d.deque.pop_front()
}

} // verus!
