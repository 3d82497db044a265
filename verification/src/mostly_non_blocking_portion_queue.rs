//! The mostly non-blocking portion queue: a non-blocking backend plus a size
//! counter and a termination flag. In a concurrent deployment only the empty
//! and full boundaries take a mutex; away from them the steps below run
//! against the backend alone, and these are the steps verified here.
use crate::non_blocking_queue::AsyncMPMC_PortionQueue;
use crate::non_blocking_queue::ConcurrentPortionQueue;
use crate::non_blocking_queue::NonBlockingQueue;
use crate::queue::MPMC_PortionQueue;
use core::marker::PhantomData;
use vstd::prelude::*;

verus! {

pub struct MostlyNonBlockingPortionQueue<E, Q: NonBlockingQueue<E>> {
    maxSize: usize,
    size: usize,
    workDone: bool,
    nonBlockingQueue: Q,
    portion: PhantomData<E>,
}

impl<E, Q: NonBlockingQueue<E>> MostlyNonBlockingPortionQueue<E, Q> {
    /// Wraps a non-blocking backend whose capacity, if it has one, is at
    /// least `maxSize`, so that the size counter alone enforces the bound.
    pub fn new(maxSize: usize, nonBlockingQueue: Q) -> (r: MostlyNonBlockingPortionQueue<E, Q>)
        requires
            nonBlockingQueue.wf(),
            nonBlockingQueue.items().len() == 0,
            match nonBlockingQueue.capacity() {
                Some(c) => maxSize <= c,
                None => true,
            },
        ensures
            r.wf(),
            r.pending() == Seq::<E>::empty(),
            !r.work_done(),
            r.max_size() == maxSize,
    {
        MostlyNonBlockingPortionQueue {
            maxSize,
            size: 0,
            workDone: false,
            nonBlockingQueue,
            portion: PhantomData,
        }
    }
}

impl MostlyNonBlockingPortionQueue<u64, ConcurrentPortionQueue> {
    /// The hybrid queue over the bounded lock-free ring.
    pub fn createConcurrentBlownQueue(maxSize: usize) -> (r: MostlyNonBlockingPortionQueue<
        u64,
        ConcurrentPortionQueue,
    >)
        requires
            maxSize >= 1,
        ensures
            r.wf(),
            r.pending() == Seq::<u64>::empty(),
            !r.work_done(),
            r.max_size() == maxSize,
    {
        let nonBlockingQueue = ConcurrentPortionQueue::new(maxSize);
        MostlyNonBlockingPortionQueue::new(maxSize, nonBlockingQueue)
    }
}

impl<E> MostlyNonBlockingPortionQueue<E, AsyncMPMC_PortionQueue<E>> {
    /// The hybrid queue over the unbounded FIFO backend.
    pub fn createAsynMPMC_BlownQueue(maxSize: usize) -> (r: MostlyNonBlockingPortionQueue<
        E,
        AsyncMPMC_PortionQueue<E>,
    >)
        ensures
            r.wf(),
            r.pending() == Seq::<E>::empty(),
            !r.work_done(),
            r.max_size() == maxSize,
    {
        let nonBlockingQueue = AsyncMPMC_PortionQueue::<E>::new(maxSize);
        MostlyNonBlockingPortionQueue::new(maxSize, nonBlockingQueue)
    }
}

impl<E, Q: NonBlockingQueue<E>> MPMC_PortionQueue<E> for MostlyNonBlockingPortionQueue<E, Q> {
    closed spec fn pending(&self) -> Seq<E> {
        self.nonBlockingQueue.items()
    }

    closed spec fn max_size(&self) -> nat {
        self.maxSize as nat
    }

    closed spec fn work_done(&self) -> bool {
        self.workDone
    }

    closed spec fn spec_size(&self) -> nat {
        self.size as nat
    }

    closed spec fn wf(&self) -> bool {
        &&& self.nonBlockingQueue.wf()
        &&& self.nonBlockingQueue.items().len() == self.size
        &&& self.size <= self.maxSize
        &&& match self.nonBlockingQueue.capacity() {
            Some(c) => self.maxSize <= c,
            None => true,
        }
    }

    closed spec fn can_stop(&self, k: nat) -> bool {
        k == 0 || self.workDone
    }

    proof fn lemma_size_bounded(&self) {
    }

    proof fn lemma_size_when_active(&self) {
    }

    proof fn lemma_can_stop_monotone(&self, j: nat, k: nat) {
    }

    fn addPortion(&mut self, portion: E) {
        match self.nonBlockingQueue.tryEnqueue(portion) {
            Ok(_) => {},
            Err(_) => {
                // the size counter is below the bound and the backend is at
                // least as large, so the backend cannot be full
                vstd::pervasive::unreached::<()>()
            },
        }
        self.size = self.size + 1;
    }

    fn retrievePortion(&mut self) -> (r: Option<E>) {
        let portion = self.nonBlockingQueue.tryDequeue();
        match portion {
            Some(e) => {
                self.size = self.size - 1;
                Some(e)
            },
            None => {
                if self.workDone {
                    None
                } else {
                    // the caller reaches this step only with a portion queued
                    // or the work done
                    vstd::pervasive::unreached::<Option<E>>()
                }
            },
        }
    }

    fn ensureAllPortionsAreRetrieved(&self) -> (r: bool) {
        self.size == 0
    }

    fn stopConsumers(&mut self, _finalConsumerCount: usize) {
        self.workDone = true;
    }

    fn isWorkDone(&self) -> (r: bool) {
        self.workDone
    }

    fn getSize(&self) -> (r: usize) {
        self.size
    }

    fn getMaxSize(&self) -> (r: usize) {
        self.maxSize
    }
}

} // verus!
