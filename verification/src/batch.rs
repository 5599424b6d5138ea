//! Collection of submitted orders into send batches through a bounded
//! queue.

use vstd::prelude::*;
use crossbeam::channel::{Receiver, Sender};
use crate::order::UltraFastOrder;

verus! {

/// Capacity of the queue of submitted orders.
pub const ORDER_QUEUE_SIZE: usize = 65536;

/// A batch is sent once it holds this many orders.
pub const MAX_BATCH: usize = 32;

/// Room reserved for a batch buffer.
pub const BATCH_BUFFER_CAPACITY: usize = 128;

#[verifier::external_type_specification]
#[verifier::external_body]
#[verifier::reject_recursive_types(T)]
pub struct ExSender<T>(Sender<T>);

#[verifier::external_type_specification]
#[verifier::external_body]
#[verifier::reject_recursive_types(T)]
pub struct ExReceiver<T>(Receiver<T>);

/// The capacity that a bounded order queue was created with, as its
/// sending side reports it.
pub uninterp spec fn queue_capacity(sender: Sender<UltraFastOrder>) -> usize;

/// Whether the sending and the receiving side are the two ends of one
/// channel, so that what is sent through the one can be received through
/// the other.
pub uninterp spec fn same_queue(sender: Sender<UltraFastOrder>, receiver: Receiver<UltraFastOrder>) -> bool;

/// `crossbeam::channel::bounded`: creates a channel holding at most `cap`
/// messages. For a positive `cap` the channel is array-backed and its
/// `capacity()` is `Some(cap)`; the contract claims that limit, and that
/// the sender and the receiver it returns are the two ends of that one
/// channel. It panics
/// only for capacities too large to index or allocate; `requires` keeps to
/// small ones.
/// The channel's contents are shared with every clone of either side, so
/// no contract states them.
#[verifier::external_body]
fn bounded_order_queue(cap: usize) -> (queue: (Sender<UltraFastOrder>, Receiver<UltraFastOrder>))
    requires
        0 < cap <= ORDER_QUEUE_SIZE,
    ensures
        queue_capacity(queue.0) == cap,
        same_queue(queue.0, queue.1),
{
    crossbeam::channel::bounded(cap)
}

/// `Sender::try_send`: enqueues the order without blocking, or fails when
/// the queue is full or disconnected. Which happens depends on what other
/// handles did, so nothing is stated of the result.
#[verifier::external_body]
fn try_send_order(sender: &Sender<UltraFastOrder>, order: UltraFastOrder) -> bool {
    sender.try_send(order).is_ok()
}

/// `Receiver::try_recv`: dequeues an order without blocking, or gives
/// `None` when the queue is empty or disconnected. The outcome depends on
/// other handles, so nothing is stated of it.
#[verifier::external_body]
fn try_recv_order(receiver: &Receiver<UltraFastOrder>) -> Option<UltraFastOrder> {
    receiver.try_recv().ok()
}

/// Accounts for one receive attempt while collecting a batch: a received
/// order is appended, and the result says whether to keep receiving, which
/// is when an order arrived and the batch is still short of `MAX_BATCH`.
pub fn push_received(batch: &mut Vec<UltraFastOrder>, received: Option<UltraFastOrder>) -> (more: bool)
    ensures
        final(batch)@ == match received {
            Some(order) => old(batch)@.push(order),
            None => old(batch)@,
        },
        more == (received is Some && final(batch)@.len() < MAX_BATCH),
{
    match received {
        Some(order) => {
            batch.push(order);
            batch.len() < MAX_BATCH
        },
        None => false,
    }
}

/// Collects submitted orders from a bounded queue into batches for the
/// connection pool `P`.
pub struct BatchOrderProcessor<P> {
    order_queue: Receiver<UltraFastOrder>,
    sender: Sender<UltraFastOrder>,
    pool: P,
}

impl<P> BatchOrderProcessor<P> {
    /// The pool the batches are sent through.
    pub closed spec fn spec_pool(&self) -> P {
        self.pool
    }

    /// The capacity of the order queue.
    pub closed spec fn spec_queue_capacity(&self) -> usize {
        queue_capacity(self.sender)
    }

    /// Whether the orders submitted to the processor are the ones it
    /// collects: its sending and receiving ends belong to one channel.
    pub closed spec fn spec_connected(&self) -> bool {
        same_queue(self.sender, self.order_queue)
    }

    /// A processor over `pool` with a new queue of `ORDER_QUEUE_SIZE`
    /// orders, whose submitting and collecting ends are one channel.
    pub fn new(pool: P) -> (p: Self)
        ensures
            p.spec_pool() == pool,
            p.spec_queue_capacity() == ORDER_QUEUE_SIZE,
            p.spec_connected(),
    {
        let (sender, receiver) = bounded_order_queue(ORDER_QUEUE_SIZE);
        BatchOrderProcessor { order_queue: receiver, sender, pool }
    }

    /// The pool the batches are sent through.
    pub fn pool(&self) -> (p: &P)
        ensures
            *p == self.spec_pool(),
    {
        &self.pool
    }

    /// Submits an order without blocking; `false` when the queue is full
    /// or closed.
    pub fn submit_order(&self, order: UltraFastOrder) -> bool {
        try_send_order(&self.sender, order)
    }

    /// Moves queued orders into `batch` until the queue is found empty
    /// or the batch holds `MAX_BATCH` orders. Orders are appended; what was
    /// in the batch stays in front. The result says whether it stopped on
    /// an empty queue: otherwise it stopped because an order it received
    /// filled the batch.
    pub fn collect_batch(&self, batch: &mut Vec<UltraFastOrder>) -> (drained: bool)
        ensures
            old(batch)@.is_prefix_of(final(batch)@),
            old(batch)@.len() < MAX_BATCH ==> final(batch)@.len() <= MAX_BATCH,
            old(batch)@.len() >= MAX_BATCH ==> final(batch)@.len() <= old(batch)@.len() + 1,
            drained == !(final(batch)@.len() > old(batch)@.len()
                && final(batch)@.len() >= MAX_BATCH),
    {
        let ghost start = batch@;
        let mut drained = false;
        loop
            invariant_except_break
                start.len() < MAX_BATCH ==> batch@.len() < MAX_BATCH,
                start.len() >= MAX_BATCH ==> batch@ == start,
            invariant
                start.is_prefix_of(batch@),
            ensures
                start.is_prefix_of(batch@),
                start.len() < MAX_BATCH ==> batch@.len() <= MAX_BATCH,
                start.len() >= MAX_BATCH ==> batch@.len() <= start.len() + 1,
                drained == !(batch@.len() > start.len() && batch@.len() >= MAX_BATCH),
            decreases (if batch@.len() < MAX_BATCH { MAX_BATCH - batch@.len() } else { 0 }),
        {
            let received = try_recv_order(&self.order_queue);
            let arrived = received.is_some();
            let more = push_received(batch, received);
            if !more {
                drained = !arrived;
                break;
            }
        }
        drained
    }
}

} // verus!
