use turning_grille::grille::Grille;
use turning_grille::grille::GrilleInterval;

// The four rotations of any grille tile the square exactly once: each cell
// shows a hole in exactly one rotation.
fn assert_tiles_once(grille: &Grille, side: usize) {
    for y in 0..side {
        for x in 0..side {
            let mut holes = 0;
            for rotation in 0..4 {
                if grille.isHole(x, y, rotation) {
                    holes += 1;
                }
            }
            assert_eq!(holes, 1, "cell ({}, {}) must be a hole exactly once", x, y);
        }
    }
}

fn same_grille(a: &Grille, b: &Grille, side: usize) -> bool {
    for y in 0..side {
        for x in 0..side {
            for rotation in 0..4 {
                if a.isHole(x, y, rotation) != b.isHole(x, y, rotation) {
                    return false;
                }
            }
        }
    }
    true
}

#[test]
fn grille_ordinal_zero_has_all_holes_in_first_quadrant() {
    let grille = Grille::new(1, 0);
    // rotation 0 shows (0, 0), rotation 1 shows (1, 0), rotation 2 shows
    // (1, 1), rotation 3 shows (0, 1)
    assert!(grille.isHole(0, 0, 0));
    assert!(grille.isHole(1, 0, 1));
    assert!(grille.isHole(1, 1, 2));
    assert!(grille.isHole(0, 1, 3));
    assert!(!grille.isHole(1, 0, 0));
    assert!(!grille.isHole(0, 1, 0));
    assert!(!grille.isHole(1, 1, 0));
}

#[test]
fn rotations_tile_small_grilles() {
    for ordinal in 0..4 {
        assert_tiles_once(&Grille::new(1, ordinal), 2);
    }
    for ordinal in [0u64, 1, 5, 17, 100, 255] {
        assert_tiles_once(&Grille::new(2, ordinal), 4);
    }
    for ordinal in [0u64, 123456, 4u64.pow(9) - 1] {
        assert_tiles_once(&Grille::new(3, ordinal), 6);
    }
}

#[test]
fn grille_ordinal_round_trip() {
    // incrementing k times from ordinal 0 reaches the grille built at k
    let mut walked = Grille::new(2, 0);
    for k in 0..20u64 {
        assert!(same_grille(&walked, &Grille::new(2, k), 4), "ordinal {}", k);
        walked.increment();
    }
}

#[test]
fn grille_odometer_wraps_around() {
    let mut grille = Grille::new(1, 0);
    for _ in 0..4 {
        grille.increment();
    }
    assert!(same_grille(&grille, &Grille::new(1, 0), 2));
}

#[test]
fn clone_preserves_the_grille() {
    let grille = Grille::new(2, 99);
    let copy = grille.clone();
    assert!(same_grille(&grille, &copy, 4));
}

#[test]
fn interval_hands_out_the_full_range() {
    let mut interval = GrilleInterval::new(1, 0, 4);
    for k in 0..4u64 {
        let grille = interval.cloneNext().expect("the range holds four grilles");
        assert!(same_grille(&grille, &Grille::new(1, k), 2), "ordinal {}", k);
    }
    assert!(interval.cloneNext().is_none());
    assert!(interval.cloneNext().is_none());
}

#[test]
fn interval_loans_match_owned_copies() {
    let mut loaning = GrilleInterval::new(2, 3, 9);
    for k in 3..9u64 {
        let expected = Grille::new(2, k);
        let grille = loaning.getNext().expect("the range is not exhausted");
        assert!(same_grille(grille, &expected, 4), "ordinal {}", k);
    }
    assert!(loaning.getNext().is_none());
}

#[test]
fn empty_interval_hands_out_nothing() {
    let mut interval = GrilleInterval::new(1, 2, 2);
    assert!(interval.getNext().is_none());
    let mut backwards = GrilleInterval::new(1, 3, 1);
    assert!(backwards.cloneNext().is_none());
}
