//! The textbook and channel-backed variants of the bounded MPMC portion
//! queue, as sequential models: the mutexes, condition variables and channel
//! endpoints of a concurrent deployment wrap these steps without changing
//! what they do to the queue.
use crate::queue::MPMC_PortionQueue;
use std::collections::VecDeque;
use vstd::prelude::*;

verus! {

/// The textbook variant: one FIFO and a termination flag, guarded in a
/// concurrent deployment by a single mutex with two condition variables.
pub struct StdTextbookPortionQueue<E> {
    maxSize: usize,
    queue: VecDeque<E>,
    workDone: bool,
}

impl<E> StdTextbookPortionQueue<E> {
    /// An empty queue with capacity `initialConsumerCount * producerCount *
    /// 1000`, sized so that adaptive tuning can raise the consumer count
    /// without starving producers.
    pub fn new(initialConsumerCount: usize, producerCount: usize) -> (r: StdTextbookPortionQueue<
        E,
    >)
        requires
            initialConsumerCount * producerCount * 1000 <= usize::MAX,
        ensures
            r.wf(),
            r.pending() == Seq::<E>::empty(),
            !r.work_done(),
            r.max_size() == initialConsumerCount * producerCount * 1000,
    {
        let maxSize: usize = initialConsumerCount * producerCount * 1000;
        StdTextbookPortionQueue { maxSize, queue: VecDeque::new(), workDone: false }
    }
}

impl<E> MPMC_PortionQueue<E> for StdTextbookPortionQueue<E> {
    closed spec fn pending(&self) -> Seq<E> {
        self.queue@
    }

    closed spec fn max_size(&self) -> nat {
        self.maxSize as nat
    }

    closed spec fn work_done(&self) -> bool {
        self.workDone
    }

    closed spec fn spec_size(&self) -> nat {
        self.queue@.len()
    }

    closed spec fn wf(&self) -> bool {
        self.queue@.len() <= self.maxSize
    }

    closed spec fn can_stop(&self, k: nat) -> bool {
        k == 0 || self.workDone
    }

    proof fn lemma_size_bounded(&self) {
    }

    proof fn lemma_size_when_active(&self) {
    }

    proof fn lemma_can_stop_monotone(&self, j: nat, k: nat) {
    }

    fn addPortion(&mut self, portion: E) {
        self.queue.push_back(portion);
    }

    fn retrievePortion(&mut self) -> (r: Option<E>) {
        let r = self.queue.pop_front();
        proof {
            if old(self).queue@.len() > 0 {
                assert(final(self).queue@ =~= old(self).queue@.drop_first());
            }
        }
        r
    }

    fn ensureAllPortionsAreRetrieved(&self) -> (r: bool) {
        self.queue.len() == 0
    }

    fn stopConsumers(&mut self, _finalConsumerCount: usize) {
        self.workDone = true;
    }

    fn isWorkDone(&self) -> (r: bool) {
        self.workDone
    }

    fn getSize(&self) -> (r: usize) {
        self.queue.len()
    }

    fn getMaxSize(&self) -> (r: usize) {
        self.maxSize
    }
}

/// The channel-backed variant: a bounded FIFO channel that carries its own
/// end-of-work marks, one sentinel per consumer, so each consumer observes
/// exactly one terminator.
pub struct SyncMpmcPortionQueue<E> {
    maxSize: usize,
    queue: VecDeque<E>,
    sentinels: usize,
}

impl<E> SyncMpmcPortionQueue<E> {
    /// An empty channel with capacity `initialConsumerCount * producerCount *
    /// 1000`.
    pub fn new(initialConsumerCount: usize, producerCount: usize) -> (r: SyncMpmcPortionQueue<E>)
        requires
            initialConsumerCount * producerCount * 1000 <= usize::MAX,
        ensures
            r.wf(),
            r.pending() == Seq::<E>::empty(),
            !r.work_done(),
            r.max_size() == initialConsumerCount * producerCount * 1000,
    {
        let maxSize: usize = initialConsumerCount * producerCount * 1000;
        SyncMpmcPortionQueue { maxSize, queue: VecDeque::new(), sentinels: 0 }
    }
}

impl<E> MPMC_PortionQueue<E> for SyncMpmcPortionQueue<E> {
    closed spec fn pending(&self) -> Seq<E> {
        self.queue@
    }

    closed spec fn max_size(&self) -> nat {
        self.maxSize as nat
    }

    closed spec fn work_done(&self) -> bool {
        self.sentinels > 0
    }

    closed spec fn spec_size(&self) -> nat {
        (self.queue@.len() + self.sentinels) as nat
    }

    closed spec fn wf(&self) -> bool {
        self.queue@.len() + self.sentinels <= self.maxSize
    }

    closed spec fn can_stop(&self, k: nat) -> bool {
        k <= self.sentinels
    }

    proof fn lemma_size_bounded(&self) {
    }

    proof fn lemma_size_when_active(&self) {
    }

    proof fn lemma_can_stop_monotone(&self, j: nat, k: nat) {
    }

    fn addPortion(&mut self, portion: E) {
        self.queue.push_back(portion);
    }

    fn retrievePortion(&mut self) -> (r: Option<E>) {
        let r = self.queue.pop_front();
        match r {
            Some(portion) => {
                proof {
                    assert(final(self).queue@ =~= old(self).queue@.drop_first());
                }
                Some(portion)
            },
            None => {
                self.sentinels = self.sentinels - 1;
                None
            },
        }
    }

    fn ensureAllPortionsAreRetrieved(&self) -> (r: bool) {
        self.queue.len() == 0
    }

    fn stopConsumers(&mut self, finalConsumerCount: usize) {
        self.sentinels = finalConsumerCount;
    }

    fn isWorkDone(&self) -> (r: bool) {
        self.sentinels > 0
    }

    fn getSize(&self) -> (r: usize) {
        self.queue.len() + self.sentinels
    }

    fn getMaxSize(&self) -> (r: usize) {
        self.maxSize
    }
}

} // verus!
