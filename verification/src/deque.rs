//! The queue that holds a sweep of the round-robin sampler.

use crossbeam::deque::{Steal, Worker};
use vstd::prelude::*;

verus! {

/// `crossbeam::deque::Worker`, a queue. Nothing is known of what is inside
/// a value but what the functions below state.
#[verifier::external_type_specification]
#[verifier::external_body]
#[verifier::reject_recursive_types(T)]
pub struct ExWorker<T>(Worker<T>);

/// The texts that wait in the queue, oldest first.
pub uninterp spec fn queued(w: Worker<String>) -> Seq<Seq<char>>;

/// `crossbeam::deque::Worker::new_lifo`. Trusted: the new queue is empty.
#[verifier::external_body]
pub(crate) fn queue_new() -> (w: Worker<String>)
    ensures
        queued(w) == Seq::<Seq<char>>::empty(),
{
    Worker::new_lifo()
}

/// `crossbeam::deque::Worker::push`. Trusted: the text is added behind the
/// ones that already wait.
#[verifier::external_body]
pub(crate) fn queue_push(w: &mut Worker<String>, text: String)
    ensures
        queued(*final(w)) == queued(*old(w)).push(text@),
{
    w.push(text)
}

/// `crossbeam::deque::Stealer::steal`, on a stealer made for this call.
/// Trusted: the oldest text leaves the queue and is returned; an empty queue
/// stays empty and gives `None`. The queue is borrowed exclusively here and no
/// other stealer of it exists, so no other thread can interfere and the call
/// never asks to be retried.
#[verifier::external_body]
pub(crate) fn queue_steal(w: &mut Worker<String>) -> (r: Option<String>)
    ensures
        queued(*old(w)).len() == 0 ==> r.is_none() && queued(*final(w)) == queued(*old(w)),
        queued(*old(w)).len() > 0 ==> r.is_some() && r.unwrap()@ == queued(*old(w)).first()
            && queued(*final(w)) == queued(*old(w)).drop_first(),
{
    match w.stealer().steal() {
        Steal::Success(text) => Some(text),
        Steal::Empty => None,
        Steal::Retry => None,
    }
}

} // verus!
