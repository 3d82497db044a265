use turning_grille::blocking_portion_queue::StdTextbookPortionQueue;
use turning_grille::blocking_portion_queue::SyncMpmcPortionQueue;
use turning_grille::mostly_non_blocking_portion_queue::MostlyNonBlockingPortionQueue;
use turning_grille::non_blocking_queue::AsyncMPMC_PortionQueue;
use turning_grille::text::normalizeToCapitals;
use turning_grille::text::u64ToString;
use turning_grille::text::uppercaseBytes;
use turning_grille::turning_grille::tunerStep;
use turning_grille::turning_grille::CrackerError;
use turning_grille::turning_grille::TunerAction;
use turning_grille::turning_grille::TurningGrilleCracker;
use turning_grille::turning_grille::TurningGrilleCrackerImplDetails;
use turning_grille::turning_grille::TurningGrilleCrackerMilestoneState;
use turning_grille::turning_grille::TurningGrilleCrackerProducerConsumer;
use turning_grille::turning_grille::TurningGrilleCrackerSerial;
use turning_grille::turning_grille::TurningGrilleCrackerSyncless;
use turning_grille::words_trie::WordsTrie;

fn lines(words: &[&str]) -> Vec<Vec<u8>> {
    words.iter().map(|w| w.as_bytes().to_vec()).collect()
}

fn empty_trie() -> WordsTrie {
    WordsTrie::new(&Vec::new())
}

// A ciphertext of sixteen As: every grille of side 4 reads the same
// candidate, and a dictionary of AAA and AAAA scores it at 14 + 13 = 27
// pairs, above the acceptance threshold.
fn all_a_cracker() -> TurningGrilleCracker {
    let trie = WordsTrie::new(&lines(&["aaa", "aaaa"]));
    TurningGrilleCracker::new(&b"AAAAAAAAAAAAAAAA".to_vec(), trie, false)
        .expect("sixteen capital letters form a valid ciphertext")
}

#[test]
fn ciphertext_with_digits_is_rejected() {
    let r = TurningGrilleCracker::new(&b"AB1D".to_vec(), empty_trie(), false);
    assert!(matches!(r, Err(CrackerError::InvalidCharacters)));
}

#[test]
fn ciphertext_of_odd_square_length_is_rejected() {
    // 25 = 5 * 5, and 5 is odd
    let r = TurningGrilleCracker::new(&[b'A'; 25].to_vec(), empty_trie(), false);
    assert!(matches!(r, Err(CrackerError::InvalidLength)));
}

#[test]
fn ciphertext_of_non_square_length_is_rejected() {
    let r = TurningGrilleCracker::new(&b"ABCDE".to_vec(), empty_trie(), false);
    assert!(matches!(r, Err(CrackerError::InvalidLength)));
}

#[test]
fn oversized_ciphertext_is_rejected() {
    // side 12 would need 4^36 grilles
    let r = TurningGrilleCracker::new(&[b'A'; 144].to_vec(), empty_trie(), false);
    assert!(matches!(r, Err(CrackerError::TooLarge)));
}

#[test]
fn lowercase_ciphertext_is_uppercased_and_accepted() {
    let cracker = TurningGrilleCracker::new(&b"abcd".to_vec(), empty_trie(), false)
        .expect("four letters form a two-sided square");
    assert_eq!(cracker.sideLength(), 2);
    assert_eq!(cracker.grilleCount(), 4);
    assert_eq!(cracker.grilleCountSoFar(), 0);
    assert!(cracker.candidatesList().is_empty());
}

#[test]
fn tiny_run_scores_all_grilles_and_accepts_nothing() {
    // four characters can hold at most three word starts, never seventeen
    let trie = WordsTrie::new(&lines(&["abdc", "cdba"]));
    let mut cracker =
        TurningGrilleCracker::new(&b"ABCD".to_vec(), trie, false).expect("valid ciphertext");
    let mut serial = TurningGrilleCrackerSerial::new();
    let candidates = cracker.bruteForce(&mut serial);
    assert_eq!(cracker.grilleCountSoFar(), 4);
    assert!(candidates.is_empty());
}

#[test]
fn serial_strategy_finds_the_plain_text() {
    let mut cracker = all_a_cracker();
    let mut serial = TurningGrilleCrackerSerial::new();
    let candidates = cracker.bruteForce(&mut serial);
    assert_eq!(cracker.grilleCountSoFar(), 256);
    assert_eq!(candidates, vec![b"AAAAAAAAAAAAAAAA".to_vec()]);
    // the run hands the candidate set over and leaves the cracker's empty
    assert!(!cracker.containsCandidate(&b"AAAAAAAAAAAAAAAA".to_vec()));
}

#[test]
fn syncless_strategy_finds_the_plain_text() {
    let mut cracker = all_a_cracker();
    let mut syncless = TurningGrilleCrackerSyncless::new(3);
    let candidates = cracker.bruteForce(&mut syncless);
    assert_eq!(cracker.grilleCountSoFar(), 256);
    assert_eq!(candidates, vec![b"AAAAAAAAAAAAAAAA".to_vec()]);
}

#[test]
fn producer_consumer_over_textbook_queue_finds_the_plain_text() {
    let mut cracker = all_a_cracker();
    let queue: StdTextbookPortionQueue<u64> = StdTextbookPortionQueue::new(3, 2);
    let mut strategy = TurningGrilleCrackerProducerConsumer::new(3, 2, queue);
    let candidates = cracker.bruteForce(&mut strategy);
    assert_eq!(cracker.grilleCountSoFar(), 256);
    assert_eq!(candidates, vec![b"AAAAAAAAAAAAAAAA".to_vec()]);
}

#[test]
fn producer_consumer_over_sync_channel_finds_the_plain_text() {
    let mut cracker = all_a_cracker();
    let queue: SyncMpmcPortionQueue<u64> = SyncMpmcPortionQueue::new(3, 2);
    let mut strategy = TurningGrilleCrackerProducerConsumer::new(3, 2, queue);
    let candidates = cracker.bruteForce(&mut strategy);
    assert_eq!(cracker.grilleCountSoFar(), 256);
    assert_eq!(candidates, vec![b"AAAAAAAAAAAAAAAA".to_vec()]);
}

#[test]
fn producer_consumer_over_the_ring_finds_the_plain_text() {
    let mut cracker = all_a_cracker();
    let queue = MostlyNonBlockingPortionQueue::createConcurrentBlownQueue(6000);
    let mut strategy = TurningGrilleCrackerProducerConsumer::new(3, 2, queue);
    let candidates = cracker.bruteForce(&mut strategy);
    assert_eq!(cracker.grilleCountSoFar(), 256);
    assert_eq!(candidates, vec![b"AAAAAAAAAAAAAAAA".to_vec()]);
}

#[test]
fn producer_consumer_over_the_unbounded_backend_finds_the_plain_text() {
    let mut cracker = all_a_cracker();
    let queue = MostlyNonBlockingPortionQueue::<u64, AsyncMPMC_PortionQueue<u64>>::createAsynMPMC_BlownQueue(6000);
    let mut strategy = TurningGrilleCrackerProducerConsumer::new(3, 2, queue);
    let candidates = cracker.bruteForce(&mut strategy);
    assert_eq!(cracker.grilleCountSoFar(), 256);
    assert_eq!(candidates, vec![b"AAAAAAAAAAAAAAAA".to_vec()]);
}

#[test]
fn a_small_queue_forces_the_producers_to_wait() {
    // capacity 4 against 256 grilles: the put path must make room repeatedly
    let mut cracker = all_a_cracker();
    let queue = MostlyNonBlockingPortionQueue::createConcurrentBlownQueue(4);
    let mut strategy = TurningGrilleCrackerProducerConsumer::new(1, 1, queue);
    let candidates = cracker.bruteForce(&mut strategy);
    assert_eq!(cracker.grilleCountSoFar(), 256);
    assert_eq!(candidates, vec![b"AAAAAAAAAAAAAAAA".to_vec()]);
}

#[test]
fn reversal_symmetry_produces_both_readings() {
    // both the forward and the reversed reading of each grille are scored;
    // here the dictionary accepts either reading, so the accepted set is
    // closed under reversal
    let mut cracker = all_a_cracker();
    let mut serial = TurningGrilleCrackerSerial::new();
    let candidates = cracker.bruteForce(&mut serial);
    assert!(!candidates.is_empty());
    for c in &candidates {
        let reversed: Vec<u8> = c.iter().rev().cloned().collect();
        assert!(candidates.contains(&reversed));
    }
}

#[test]
fn milestone_reports_the_throughput_of_the_stretch() {
    let cracker = all_a_cracker();
    let mut state = TurningGrilleCrackerMilestoneState::new();
    let now = std::time::Instant::now();
    // 1000 grilles in one second
    let gps = cracker.milestoneWithElapsed(now, 1_000_000_000, 1000, &mut state, String::new());
    assert_eq!(gps, Some(1000));
    assert_eq!(state.bestGrillesPerSecond(), 1000);
    // 2000 more grilles in two seconds: the best stays
    let gps = cracker.milestoneWithElapsed(now, 2_000_000_000, 3000, &mut state, String::new());
    assert_eq!(gps, Some(1000));
    assert_eq!(state.bestGrillesPerSecond(), 1000);
    // a faster stretch raises the best
    let gps = cracker.milestoneWithElapsed(now, 1_000_000, 3002, &mut state, String::new());
    assert_eq!(gps, Some(2000));
    assert_eq!(state.bestGrillesPerSecond(), 2000);
    // a zero elapsed time is skipped
    let gps = cracker.milestoneWithElapsed(now, 0, 4000, &mut state, String::new());
    assert_eq!(gps, None);
}

#[test]
fn tuner_acts_at_once_on_improvement() {
    let (improving, adding, action) = tunerStep(0, true, 100, 50);
    assert_eq!(improving, 0);
    assert!(adding);
    assert!(matches!(action, TunerAction::SpawnConsumer));
}

#[test]
fn tuner_waits_for_two_drops_before_turning_around() {
    let (improving, adding, action) = tunerStep(0, true, 50, 100);
    assert_eq!(improving, -1);
    assert!(adding);
    assert!(matches!(action, TunerAction::KeepConsumers));
    let (improving, adding, action) = tunerStep(improving, adding, 40, 50);
    assert_eq!(improving, 0);
    assert!(!adding);
    assert!(matches!(action, TunerAction::RetireConsumer));
}

#[test]
fn tuner_keeps_the_pool_on_a_flat_trend() {
    let (improving, adding, action) = tunerStep(0, true, 100, 100);
    assert_eq!(improving, 0);
    assert!(adding);
    assert!(matches!(action, TunerAction::KeepConsumers));
    let (improving, _, action) = tunerStep(-1, false, 100, 50);
    assert_eq!(improving, 0);
    assert!(matches!(action, TunerAction::KeepConsumers));
}

#[test]
fn tuner_in_retiring_mode_retires_on_improvement() {
    let (improving, adding, action) = tunerStep(0, false, 100, 50);
    assert_eq!(improving, 0);
    assert!(!adding);
    assert!(matches!(action, TunerAction::RetireConsumer));
}

#[test]
fn producer_consumer_summary_names_the_best_consumer_count() {
    let cracker = all_a_cracker();
    let queue: StdTextbookPortionQueue<u64> = StdTextbookPortionQueue::new(3, 2);
    let strategy = TurningGrilleCrackerProducerConsumer::new(3, 2, queue);
    let summary = strategy.milestonesSummary(&cracker);
    assert_eq!(summary.as_str(), "best consumer count: 0");
}

#[test]
fn decimal_formatting_matches_the_number() {
    assert_eq!(u64ToString(0).as_str(), "0");
    assert_eq!(u64ToString(7).as_str(), "7");
    assert_eq!(u64ToString(1234567890).as_str(), "1234567890");
    assert_eq!(u64ToString(u64::MAX).as_str(), "18446744073709551615");
}

#[test]
fn text_normalization_strips_and_uppercases() {
    assert_eq!(normalizeToCapitals(&b"Hello, World! 123".to_vec()), b"HELLOWORLD".to_vec());
    assert_eq!(uppercaseBytes(&b"aB1d".to_vec()), b"AB1D".to_vec());
}
