//! The queue of duplicable (splittable) executor addresses, backed by
//! crossbeam's lock-free `SegQueue`. The scheduler rotates through it when it
//! looks for an executor worth duplicating.
//!
//! Each address is carried as its routing triple
//! `(executor_type_id, index, nonce)`; the queue's contents are named by
//! [`split_queue_contents`] and every wrapper below states its effect over
//! that name. All wrappers take the queue by exclusive reference, so the
//! sequential first-in first-out behaviour that crossbeam documents applies.

use vstd::prelude::*;
use crossbeam::queue::SegQueue;

verus! {

#[verifier::external_type_specification]
#[verifier::external_body]
#[verifier::reject_recursive_types(T)]
pub struct ExSegQueue<T>(SegQueue<T>);

/// The elements currently in the queue, front first.
pub uninterp spec fn split_queue_contents(q: SegQueue<(u64, u64, u64)>) -> Seq<(u64, u64, u64)>;

/// Relies on crossbeam's `SegQueue::new`: a freshly created queue is empty.
#[verifier::external_body]
pub fn split_queue_new() -> (q: SegQueue<(u64, u64, u64)>)
    ensures
        split_queue_contents(q) == Seq::<(u64, u64, u64)>::empty(),
{
    SegQueue::new()
}

/// Relies on crossbeam's `SegQueue::push`: appends the element at the tail.
#[verifier::external_body]
pub fn split_queue_push(q: &mut SegQueue<(u64, u64, u64)>, v: (u64, u64, u64))
    ensures
        split_queue_contents(*final(q)) == split_queue_contents(*old(q)).push(v),
{
    q.push(v);
}

/// Relies on crossbeam's `SegQueue::pop`: removes and returns the element at
/// the head, or returns nothing when the queue is empty.
#[verifier::external_body]
pub fn split_queue_pop(q: &mut SegQueue<(u64, u64, u64)>) -> (r: Option<(u64, u64, u64)>)
    ensures
        match r {
            Some(v) => split_queue_contents(*old(q)).len() > 0
                && v == split_queue_contents(*old(q))[0]
                && split_queue_contents(*final(q)) == split_queue_contents(*old(q)).drop_first(),
            None => split_queue_contents(*old(q)).len() == 0
                && split_queue_contents(*final(q)) == split_queue_contents(*old(q)),
        },
{
    q.pop()
}

/// Relies on crossbeam's `SegQueue::len`: the number of elements in the queue.
#[verifier::external_body]
pub fn split_queue_len(q: &SegQueue<(u64, u64, u64)>) -> (r: usize)
    ensures
        r == split_queue_contents(*q).len(),
{
    q.len()
}

} // verus!
