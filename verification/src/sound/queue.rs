//! The queue of sound functions that wait to be published.
//!
//! The queue is crossbeam's unbounded `SegQueue`. Nothing of it is proved
//! here: this file states what the rest of the library relies on.

use crossbeam_queue::SegQueue;
use vstd::prelude::*;

verus! {

#[verifier::external_type_specification]
#[verifier::external_body]
#[verifier::reject_recursive_types(T)]
pub struct ExSegQueue<T>(SegQueue<T>);

/// What a queue holds, oldest first.
pub uninterp spec fn queued(queue: SegQueue<u64>) -> Seq<u64>;

/// `SegQueue::new`: the queue it makes holds nothing.
#[verifier::external_body]
pub(crate) fn queue_new() -> (queue: SegQueue<u64>)
    ensures
        queued(queue) == Seq::<u64>::empty(),
{
    SegQueue::new()
}

/// `SegQueue::push`: the item goes to the tail, behind all that the queue
/// held. Holding the queue exclusively, no other thread pushes or pops
/// meanwhile.
#[verifier::external_body]
pub(crate) fn queue_push(queue: &mut SegQueue<u64>, item: u64)
    ensures
        queued(*final(queue)) == queued(*old(queue)).push(item),
{
    queue.push(item)
}

/// `SegQueue::pop`: takes the item at the head, the oldest, and hands it
/// out; `None`, and no change, where the queue holds nothing.
#[verifier::external_body]
pub(crate) fn queue_pop(queue: &mut SegQueue<u64>) -> (head: Option<u64>)
    ensures
        queued(*old(queue)).len() == 0 ==> head.is_none() && queued(*final(queue)) == queued(
            *old(queue),
        ),
        queued(*old(queue)).len() > 0 ==> head == Some(queued(*old(queue)).first()) && queued(
            *final(queue),
        ) == queued(*old(queue)).drop_first(),
{
    queue.pop()
}

/// `SegQueue::is_empty`: whether the queue holds nothing.
#[verifier::external_body]
pub(crate) fn queue_is_empty(queue: &SegQueue<u64>) -> (empty: bool)
    ensures
        empty == (queued(*queue).len() == 0),
{
    queue.is_empty()
}

} // verus!
