//! Trusted view of the outside FIFO queue used by the breadth-first search.
//!
//! `queue::Queue<T>` wraps a `Vec<T>` with an optional capacity bound. The
//! search only ever uses an unbounded queue of zone indices, so the wrappers
//! below are stated for `queue::Queue<usize>` with no capacity set.

use vstd::prelude::*;

verus! {

#[verifier::external_type_specification]
#[verifier::external_body]
#[verifier::reject_recursive_types(T)]
pub struct ExQueue<T>(queue::Queue<T>);

/// The items held by the queue, front first.
pub uninterp spec fn queue_items(q: queue::Queue<usize>) -> Seq<usize>;

/// The capacity bound the queue was made with (`None`: it grows as needed).
pub uninterp spec fn queue_cap(q: queue::Queue<usize>) -> Option<usize>;

/// Relies on queue::Queue::new: the new queue is empty and has no capacity
/// bound.
#[verifier::external_body]
pub(crate) fn queue_new() -> (q: queue::Queue<usize>)
    ensures
        queue_items(q) == Seq::<usize>::empty(),
        queue_cap(q) == Option::<usize>::None,
{
    queue::Queue::new()
}

/// Relies on queue::Queue::queue: with no capacity bound set, the item is
/// appended at the back and the call succeeds.
#[verifier::external_body]
pub(crate) fn queue_push(q: &mut queue::Queue<usize>, item: usize)
    requires
        queue_cap(*old(q)) is None,
    ensures
        queue_items(*final(q)) == queue_items(*old(q)).push(item),
        queue_cap(*final(q)) == queue_cap(*old(q)),
{
    let _ = q.queue(item);
}

/// Relies on queue::Queue::dequeue: the front item is removed and returned,
/// or `None` is returned and nothing changes when the queue is empty.
#[verifier::external_body]
pub(crate) fn queue_dequeue(q: &mut queue::Queue<usize>) -> (r: Option<usize>)
    ensures
        queue_items(*old(q)).len() == 0 ==> {
            &&& r is None
            &&& queue_items(*final(q)) == queue_items(*old(q))
        },
        queue_items(*old(q)).len() > 0 ==> {
            &&& r == Some(queue_items(*old(q))[0])
            &&& queue_items(*final(q)) == queue_items(*old(q)).skip(1)
        },
        queue_cap(*final(q)) == queue_cap(*old(q)),
{
    q.dequeue()
}

/// Relies on queue::Queue::is_empty: true exactly when the queue holds no
/// items.
#[verifier::external_body]
pub(crate) fn queue_is_empty(q: &queue::Queue<usize>) -> (r: bool)
    ensures
        r == (queue_items(*q).len() == 0),
{
    q.is_empty()
}

} // verus!
