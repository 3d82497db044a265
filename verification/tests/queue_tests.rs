use turning_grille::blocking_portion_queue::StdTextbookPortionQueue;
use turning_grille::blocking_portion_queue::SyncMpmcPortionQueue;
use turning_grille::mostly_non_blocking_portion_queue::MostlyNonBlockingPortionQueue;
use turning_grille::non_blocking_queue::AsyncMPMC_PortionQueue;
use turning_grille::non_blocking_queue::ConcurrentPortionQueue;
use turning_grille::non_blocking_queue::NonBlockingQueue;
use turning_grille::queue::MPMC_PortionQueue;

#[test]
fn textbook_queue_is_fifo_with_a_sticky_end() {
    let mut queue: StdTextbookPortionQueue<u64> = StdTextbookPortionQueue::new(1, 1);
    assert_eq!(queue.getMaxSize(), 1000);
    assert_eq!(queue.getSize(), 0);
    queue.addPortion(10);
    queue.addPortion(20);
    queue.addPortion(30);
    assert_eq!(queue.getSize(), 3);
    assert!(!queue.ensureAllPortionsAreRetrieved());
    assert_eq!(queue.retrievePortion(), Some(10));
    assert_eq!(queue.retrievePortion(), Some(20));
    assert_eq!(queue.retrievePortion(), Some(30));
    assert!(queue.ensureAllPortionsAreRetrieved());
    queue.stopConsumers(2);
    assert_eq!(queue.retrievePortion(), None);
    assert_eq!(queue.retrievePortion(), None);
}

#[test]
fn sync_mpmc_queue_hands_one_sentinel_to_each_consumer() {
    let mut queue: SyncMpmcPortionQueue<u64> = SyncMpmcPortionQueue::new(2, 1);
    assert_eq!(queue.getMaxSize(), 2000);
    queue.addPortion(7);
    assert_eq!(queue.retrievePortion(), Some(7));
    assert!(queue.ensureAllPortionsAreRetrieved());
    queue.stopConsumers(2);
    // the sentinels count toward the reported size
    assert_eq!(queue.getSize(), 2);
    assert_eq!(queue.retrievePortion(), None);
    assert_eq!(queue.retrievePortion(), None);
    assert_eq!(queue.getSize(), 0);
}

#[test]
fn bounded_ring_fails_cleanly_when_full_or_empty() {
    let mut ring = ConcurrentPortionQueue::new(2);
    assert_eq!(ring.tryDequeue(), None);
    assert_eq!(ring.tryEnqueue(1), Ok(()));
    assert_eq!(ring.tryEnqueue(2), Ok(()));
    // a full ring hands the portion back
    assert_eq!(ring.tryEnqueue(3), Err(3));
    assert_eq!(ring.tryDequeue(), Some(1));
    assert_eq!(ring.tryEnqueue(3), Ok(()));
    assert_eq!(ring.tryDequeue(), Some(2));
    assert_eq!(ring.tryDequeue(), Some(3));
    assert_eq!(ring.tryDequeue(), None);
}

#[test]
fn unbounded_backend_never_refuses() {
    let mut queue: AsyncMPMC_PortionQueue<u64> = AsyncMPMC_PortionQueue::new(1);
    for i in 0..100 {
        assert_eq!(queue.tryEnqueue(i), Ok(()));
    }
    for i in 0..100 {
        assert_eq!(queue.tryDequeue(), Some(i));
    }
    assert_eq!(queue.tryDequeue(), None);
}

#[test]
fn hybrid_queue_over_the_ring_conserves_portions() {
    let mut queue = MostlyNonBlockingPortionQueue::createConcurrentBlownQueue(1000);
    let puts: Vec<u64> = (0..200).map(|i| i * 3 + 1).collect();
    for &p in &puts {
        queue.addPortion(p);
    }
    assert_eq!(queue.getSize(), 200);
    assert!(!queue.ensureAllPortionsAreRetrieved());
    let mut takes: Vec<u64> = Vec::new();
    while !queue.ensureAllPortionsAreRetrieved() {
        takes.push(queue.retrievePortion().expect("a portion is pending"));
    }
    // every put has been observed by exactly one take
    let mut sorted_puts = puts.clone();
    sorted_puts.sort();
    let mut sorted_takes = takes.clone();
    sorted_takes.sort();
    assert_eq!(sorted_puts, sorted_takes);
    queue.stopConsumers(3);
    assert_eq!(queue.retrievePortion(), None);
}

#[test]
fn hybrid_queue_over_the_unbounded_backend_is_fifo() {
    let mut queue = MostlyNonBlockingPortionQueue::<u64, AsyncMPMC_PortionQueue<u64>>::createAsynMPMC_BlownQueue(8);
    queue.addPortion(5);
    queue.addPortion(6);
    assert_eq!(queue.getSize(), 2);
    assert_eq!(queue.retrievePortion(), Some(5));
    assert_eq!(queue.retrievePortion(), Some(6));
    assert!(queue.ensureAllPortionsAreRetrieved());
    queue.stopConsumers(1);
    assert_eq!(queue.retrievePortion(), None);
}

#[test]
fn queue_size_never_exceeds_capacity() {
    let mut queue = MostlyNonBlockingPortionQueue::createConcurrentBlownQueue(4);
    for i in 0..4 {
        queue.addPortion(i);
        assert!(queue.getSize() <= queue.getMaxSize());
    }
    assert_eq!(queue.getSize(), queue.getMaxSize());
    while !queue.ensureAllPortionsAreRetrieved() {
        queue.retrievePortion();
        assert!(queue.getSize() <= queue.getMaxSize());
    }
}
