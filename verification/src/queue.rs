//! The shared contract of the bounded multi-producer/multi-consumer portion
//! queues, given as a sequential model: the portions pending in FIFO order, a
//! capacity, and a sticky termination flag. A blocking caller waits until the
//! stated precondition of a step holds and then takes the step; the contracts
//! say what each step does to the queue.
use vstd::prelude::*;

verus! {

pub trait MPMC_PortionQueue<E>: Sized {
    /// The portions now queued, oldest first.
    spec fn pending(&self) -> Seq<E>;

    /// The capacity the queue was created with.
    spec fn max_size(&self) -> nat;

    /// Whether `stopConsumers` has announced the end of the work.
    spec fn work_done(&self) -> bool;

    /// What the queue reports as its size; for a variant that carries its own
    /// end-of-work sentinels this also counts those.
    spec fn spec_size(&self) -> nat;

    spec fn wf(&self) -> bool;

    /// Whether `k` more consumers can still observe the end of the work.
    spec fn can_stop(&self, k: nat) -> bool;

    /// Every variant keeps its size between 0 and its capacity at all times.
    proof fn lemma_size_bounded(&self)
        requires
            self.wf(),
        ensures
            self.pending().len() <= self.spec_size(),
            self.spec_size() <= self.max_size(),
    ;

    /// Fewer consumers than can stop can also stop.
    proof fn lemma_can_stop_monotone(&self, j: nat, k: nat)
        requires
            j <= k,
            self.can_stop(k),
        ensures
            self.can_stop(j),
    ;

    /// Before the end of the work is announced, the reported size counts
    /// exactly the pending portions.
    proof fn lemma_size_when_active(&self)
        requires
            self.wf(),
            !self.work_done(),
        ensures
            self.spec_size() == self.pending().len(),
    ;

    /// Queues one portion. A blocking caller reaches this step only once
    /// there is room; the portion always goes to the back of the queue.
    fn addPortion(&mut self, portion: E)
        requires
            old(self).wf(),
            !old(self).work_done(),
            old(self).pending().len() < old(self).max_size(),
        ensures
            final(self).wf(),
            final(self).max_size() == old(self).max_size(),
            final(self).work_done() == old(self).work_done(),
            final(self).pending() == old(self).pending().push(portion),
            final(self).spec_size() == old(self).spec_size() + 1,
    ;

    /// Dequeues the oldest portion. A blocking caller reaches this step only
    /// once the queue is non-empty or the work is done; `None` is returned
    /// exactly when the work is done and the queue is empty.
    fn retrievePortion(&mut self) -> (r: Option<E>)
        requires
            old(self).wf(),
            old(self).pending().len() > 0 || old(self).can_stop(1),
        ensures
            final(self).wf(),
            final(self).max_size() == old(self).max_size(),
            old(self).pending().len() > 0 ==> r == Some(old(self).pending()[0])
                && final(self).pending() == old(self).pending().drop_first()
                && final(self).work_done() == old(self).work_done()
                && final(self).spec_size() == old(self).spec_size() - 1,
            old(self).pending().len() == 0 ==> r is None
                && final(self).pending() == old(self).pending()
                && (forall|k: nat| old(self).can_stop((k + 1) as nat) ==> final(self).can_stop(k)),
    ;

    /// Polls whether every queued portion has been retrieved; a blocking
    /// caller repeats this step until it reports true.
    fn ensureAllPortionsAreRetrieved(&self) -> (r: bool)
        requires
            self.wf(),
        ensures
            r == (self.pending().len() == 0),
    ;

    /// Announces the end of the work to `finalConsumerCount` consumers. Must
    /// come after the queue has drained; the queue is not reusable afterwards.
    fn stopConsumers(&mut self, finalConsumerCount: usize)
        requires
            old(self).wf(),
            !old(self).work_done(),
            old(self).pending().len() == 0,
            1 <= finalConsumerCount <= old(self).max_size(),
        ensures
            final(self).wf(),
            final(self).work_done(),
            final(self).pending() == old(self).pending(),
            final(self).max_size() == old(self).max_size(),
            final(self).can_stop(finalConsumerCount as nat),
    ;

    /// Whether the end of the work has been announced.
    fn isWorkDone(&self) -> (r: bool)
        requires
            self.wf(),
        ensures
            r == self.work_done(),
    ;

    fn getSize(&self) -> (r: usize)
        requires
            self.wf(),
        ensures
            r == self.spec_size(),
    ;

    fn getMaxSize(&self) -> (r: usize)
        requires
            self.wf(),
        ensures
            r == self.max_size(),
    ;
}

} // verus!
