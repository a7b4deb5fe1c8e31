//! The redo work queue: an unbounded multi-producer/multi-consumer channel
//! carrying the index positions of entries whose page image a WAL-redo
//! worker must reconstruct.
//!
//! Both ends of the channel live in one value. A `crossbeam_channel` end
//! sends and receives through `&self`, so the queue's contents cannot be a
//! function of either end alone; holding the pair opaquely and passing it by
//! `&mut` lets the contracts relate the contents before and after each call.

use vstd::prelude::*;

verus! {

/// Both ends of a `crossbeam_channel::unbounded` channel of entry positions.
#[verifier::external_body]
pub struct RedoQueue {
    sender: crossbeam_channel::Sender<usize>,
    receiver: crossbeam_channel::Receiver<usize>,
}

/// The positions sent on the queue and not yet received, oldest first.
pub uninterp spec fn redo_queue_view(q: RedoQueue) -> Seq<usize>;

/// Relies on `crossbeam_channel::unbounded`: a fresh channel holds nothing.
#[verifier::external_body]
pub(crate) fn redo_queue_new() -> (q: RedoQueue)
    ensures
        redo_queue_view(q) == Seq::<usize>::empty(),
{
    let (sender, receiver) = crossbeam_channel::unbounded();
    RedoQueue { sender, receiver }
}

/// Relies on `Sender::send` on an unbounded channel: it appends the message
/// in send order and fails only when every receiver is gone, which cannot
/// happen while the queue holds its own receiver.
#[verifier::external_body]
pub(crate) fn redo_queue_send(q: &mut RedoQueue, pos: usize)
    ensures
        redo_queue_view(*final(q)) == redo_queue_view(*old(q)).push(pos),
{
    q.sender.send(pos).unwrap();
}

/// Relies on `Receiver::try_recv`: it pops the oldest message, or reports
/// the channel empty; messages arrive in the order they were sent.
#[verifier::external_body]
pub(crate) fn redo_queue_try_recv(q: &mut RedoQueue) -> (r: Option<usize>)
    ensures
        redo_queue_view(*old(q)).len() == 0 ==> r is None
            && redo_queue_view(*final(q)) == redo_queue_view(*old(q)),
        redo_queue_view(*old(q)).len() > 0 ==> r == Some(redo_queue_view(*old(q))[0])
            && redo_queue_view(*final(q)) == redo_queue_view(*old(q)).subrange(
                1,
                redo_queue_view(*old(q)).len() as int,
            ),
{
    match q.receiver.try_recv() {
        Ok(pos) => Some(pos),
        Err(_) => None,
    }
}

} // verus!
