//! The non-blocking queue capability behind the hybrid portion queue: a
//! bounded lock-free ring from the `concurrent_queue` crate, and an unbounded
//! FIFO alternative.
use crate::queue::MPMC_PortionQueue;
use std::collections::VecDeque;
use vstd::prelude::*;

verus! {

/// A queue whose operations never block: enqueueing can fail on a full
/// bounded backend, dequeueing can fail on an empty one.
pub trait NonBlockingQueue<E>: Sized {
    /// The queued items, oldest first.
    spec fn items(&self) -> Seq<E>;

    /// The fixed capacity, or `None` for an unbounded backend.
    spec fn capacity(&self) -> Option<nat>;

    spec fn wf(&self) -> bool;

    fn tryEnqueue(&mut self, portion: E) -> (r: Result<(), E>)
        requires
            old(self).wf(),
        ensures
            final(self).wf(),
            final(self).capacity() == old(self).capacity(),
            r matches Ok(_) ==> final(self).items() == old(self).items().push(portion),
            r matches Err(e) ==> e == portion && final(self).items() == old(self).items() && (match
            old(self).capacity() {
                Some(c) => old(self).items().len() >= c,
                None => false,
            }),
            (match old(self).capacity() {
                Some(c) => old(self).items().len() < c,
                None => true,
            }) ==> r is Ok,
    ;

    fn tryDequeue(&mut self) -> (r: Option<E>)
        requires
            old(self).wf(),
        ensures
            final(self).wf(),
            final(self).capacity() == old(self).capacity(),
            old(self).items().len() == 0 ==> r is None && final(self).items() == old(self).items(),
            old(self).items().len() > 0 ==> r == Some(old(self).items()[0]) && final(self).items()
                == old(self).items().drop_first(),
    ;
}

#[verifier::external_type_specification]
#[verifier::external_body]
#[verifier::reject_recursive_types(T)]
pub struct ExConcurrentQueue<T>(concurrent_queue::ConcurrentQueue<T>);

/// The items a bounded `concurrent_queue` ring holds, oldest first.
pub uninterp spec fn ring_items(q: concurrent_queue::ConcurrentQueue<u64>) -> Seq<u64>;

/// The capacity a bounded `concurrent_queue` ring was created with.
pub uninterp spec fn ring_capacity(q: concurrent_queue::ConcurrentQueue<u64>) -> nat;

/// Relies on `concurrent_queue::ConcurrentQueue::bounded`: creates an empty
/// ring of the given capacity (it panics on capacity zero).
#[verifier::external_body]
fn ring_bounded(maxSize: usize) -> (q: concurrent_queue::ConcurrentQueue<u64>)
    requires
        maxSize >= 1,
    ensures
        ring_items(q) == Seq::<u64>::empty(),
        ring_capacity(q) == maxSize,
{
    concurrent_queue::ConcurrentQueue::<u64>::bounded(maxSize)
}

/// Relies on `concurrent_queue::ConcurrentQueue::push`: on a ring that is
/// never closed, the push appends exactly when the ring is not full, and on a
/// full ring it hands the item back.
#[verifier::external_body]
fn ring_push(q: &mut concurrent_queue::ConcurrentQueue<u64>, portion: u64) -> (r: Result<(), u64>)
    ensures
        ring_capacity(*final(q)) == ring_capacity(*old(q)),
        r matches Ok(_) ==> ring_items(*old(q)).len() < ring_capacity(*old(q)) && ring_items(
            *final(q),
        ) == ring_items(*old(q)).push(portion),
        r matches Err(e) ==> e == portion && ring_items(*final(q)) == ring_items(*old(q))
            && ring_items(*old(q)).len() >= ring_capacity(*old(q)),
        ring_items(*old(q)).len() < ring_capacity(*old(q)) ==> r is Ok,
{
    match q.push(portion) {
        Ok(()) => Ok(()),
        Err(error) => Err(error.into_inner()),
    }
}

/// Relies on `concurrent_queue::ConcurrentQueue::pop`: the ring is FIFO, so
/// the pop returns the oldest item, or fails exactly on an empty ring.
#[verifier::external_body]
fn ring_pop(q: &mut concurrent_queue::ConcurrentQueue<u64>) -> (r: Option<u64>)
    ensures
        ring_capacity(*final(q)) == ring_capacity(*old(q)),
        ring_items(*old(q)).len() == 0 ==> r is None && ring_items(*final(q)) == ring_items(
            *old(q),
        ),
        ring_items(*old(q)).len() > 0 ==> r == Some(ring_items(*old(q))[0]) && ring_items(
            *final(q),
        ) == ring_items(*old(q)).drop_first(),
{
    match q.pop() {
        Ok(portion) => Some(portion),
        Err(_) => None,
    }
}

/// The bounded lock-free ring backend, carrying grille ordinals.
pub struct ConcurrentPortionQueue {
    queue: concurrent_queue::ConcurrentQueue<u64>,
}

impl ConcurrentPortionQueue {
    pub fn new(maxSize: usize) -> (r: ConcurrentPortionQueue)
        requires
            maxSize >= 1,
        ensures
            r.wf(),
            r.items() == Seq::<u64>::empty(),
            r.capacity() == Some(maxSize as nat),
    {
        ConcurrentPortionQueue { queue: ring_bounded(maxSize) }
    }
}

impl NonBlockingQueue<u64> for ConcurrentPortionQueue {
    closed spec fn items(&self) -> Seq<u64> {
        ring_items(self.queue)
    }

    closed spec fn capacity(&self) -> Option<nat> {
        Some(ring_capacity(self.queue))
    }

    closed spec fn wf(&self) -> bool {
        &&& ring_items(self.queue).len() <= ring_capacity(self.queue)
        &&& ring_capacity(self.queue) >= 1
    }

    fn tryEnqueue(&mut self, portion: u64) -> (r: Result<(), u64>) {
        ring_push(&mut self.queue, portion)
    }

    fn tryDequeue(&mut self) -> (r: Option<u64>) {
        ring_pop(&mut self.queue)
    }
}

/// The unbounded FIFO backend, used to measure the cost of dropping the size
/// bound; enqueueing never fails.
pub struct AsyncMPMC_PortionQueue<E> {
    queue: VecDeque<E>,
}

impl<E> AsyncMPMC_PortionQueue<E> {
    pub fn new(_maxSize: usize) -> (r: AsyncMPMC_PortionQueue<E>)
        ensures
            r.wf(),
            r.items() == Seq::<E>::empty(),
            r.capacity() is None,
    {
        AsyncMPMC_PortionQueue { queue: VecDeque::new() }
    }
}

impl<E> NonBlockingQueue<E> for AsyncMPMC_PortionQueue<E> {
    closed spec fn items(&self) -> Seq<E> {
        self.queue@
    }

    closed spec fn capacity(&self) -> Option<nat> {
        None
    }

    closed spec fn wf(&self) -> bool {
        true
    }

    fn tryEnqueue(&mut self, portion: E) -> (r: Result<(), E>) {
        self.queue.push_back(portion);
        Ok(())
    }

    fn tryDequeue(&mut self) -> (r: Option<E>) {
        let r = self.queue.pop_front();
        proof {
            if old(self).queue@.len() > 0 {
                assert(final(self).queue@ =~= old(self).queue@.drop_first());
            }
        }
        r
    }
}

} // verus!
