//! The cracker core and its execution strategies: it owns the ciphertext,
//! the dictionary trie, the progress counter and the candidate set, applies
//! one grille at a time, and keeps milestone accounts of throughput.
use crate::grille::base4_digits;
use crate::grille::digits_wf;
use crate::grille::hole_at;
use crate::grille::lemma_digits_of_ord;
use crate::grille::lemma_pow4_pos;
use crate::grille::lemma_rotations_tile;
use crate::grille::pow4;
use crate::grille::Grille;
use crate::grille::GrilleInterval;
use crate::host::instantNow;
use crate::queue::MPMC_PortionQueue;
use crate::host::nanosBetween;
use crate::host::writeCandidateLine;
use crate::host::writeStderrLine;
use crate::text::all_capitals;
use crate::text::upper_byte;
use crate::text::u64ToString;
use crate::words_trie::WordsTrie;
use std::time::Instant;
use vstd::prelude::*;
use vstd::string::StringExecFns;

verus! {

/// The ciphertext characters visible through the grille in rotation `r`,
/// scanning the cells at or after `k` row by row.
pub open spec fn read_rotation_from(
    cipher: Seq<u8>,
    h: int,
    digits: Seq<u8>,
    r: int,
    k: int,
) -> Seq<u8>
    decreases 4 * h * h - k,
{
    let s = 2 * h;
    if h <= 0 || k < 0 || k >= 4 * h * h {
        Seq::empty()
    } else {
        let rest = read_rotation_from(cipher, h, digits, r, k + 1);
        if hole_at(h, digits, k % s, k / s, r) {
            seq![cipher[k]] + rest
        } else {
            rest
        }
    }
}

/// The candidate read through a grille: the holes of the four rotations in
/// turn, each scanned row by row.
pub open spec fn candidate_of(cipher: Seq<u8>, h: int, digits: Seq<u8>) -> Seq<u8> {
    read_rotation_from(cipher, h, digits, 0, 0) + read_rotation_from(cipher, h, digits, 1, 0)
        + read_rotation_from(cipher, h, digits, 2, 0) + read_rotation_from(cipher, h, digits, 3, 0)
}

/// The candidates a grille contributes: its reading and the reversed
/// reading, each kept when its word count meets the threshold.
pub open spec fn accepted_of_digits(
    cipher: Seq<u8>,
    trie: WordsTrie,
    h: nat,
    digits: Seq<u8>,
) -> Set<Seq<u8>> {
    let c = candidate_of(cipher, h as int, digits);
    let rc = c.reverse();
    Set::new(
        |w: Seq<u8>|
            (w == c && trie.spec_word_count(c) >= TurningGrilleCracker::MIN_DETECTED_WORD_COUNT)
                || (w == rc && trie.spec_word_count(rc)
                >= TurningGrilleCracker::MIN_DETECTED_WORD_COUNT),
    )
}

/// The candidates contributed by the grille at ordinal `ord`.
pub open spec fn accepted_at(cipher: Seq<u8>, trie: WordsTrie, h: nat, ord: nat) -> Set<Seq<u8>> {
    accepted_of_digits(cipher, trie, h, base4_digits(ord, h * h))
}

/// The candidates contributed by the grilles at ordinals below `n`.
pub open spec fn accepted_upto(cipher: Seq<u8>, trie: WordsTrie, h: nat, n: nat) -> Set<Seq<u8>> {
    Set::new(
        |w: Seq<u8>| exists|ord: nat| ord < n && accepted_at(cipher, trie, h, ord).contains(w),
    )
}

/// The set of byte strings held by a list of candidates.
pub open spec fn byte_lists_set(l: Seq<Vec<u8>>) -> Set<Seq<u8>> {
    Set::new(|w: Seq<u8>| exists|i: int| 0 <= i < l.len() && l[i]@ == w)
}

/// At each cell, exactly one of the four rotations shows a hole, so the four
/// rotation readings of the cells at or after `k` have one character per
/// cell between them.
proof fn lemma_reads_length(cipher: Seq<u8>, h: int, digits: Seq<u8>, k: int)
    requires
        h >= 1,
        digits.len() == h * h,
        digits_wf(digits),
        cipher.len() == 4 * h * h,
        0 <= k <= 4 * h * h,
    ensures
        read_rotation_from(cipher, h, digits, 0, k).len() + read_rotation_from(
            cipher,
            h,
            digits,
            1,
            k,
        ).len() + read_rotation_from(cipher, h, digits, 2, k).len() + read_rotation_from(
            cipher,
            h,
            digits,
            3,
            k,
        ).len() == 4 * h * h - k,
    decreases 4 * h * h - k,
{
    let s = 2 * h;
    assert((2 * h) * (2 * h) == 4 * h * h) by (nonlinear_arith);
    if k < 4 * h * h {
        lemma_reads_length(cipher, h, digits, k + 1);
        assert(0 <= k % s < s && 0 <= k / s < s) by (nonlinear_arith)
            requires
                s >= 1 && 0 <= k < s * s,
        ;
        lemma_rotations_tile(h, digits, k % s, k / s);
        let rw = choose|r: int| 0 <= r < 4 && #[trigger] hole_at(h, digits, k % s, k / s, r);
        assert forall|r: int| 0 <= r < 4 implies read_rotation_from(cipher, h, digits, r, k).len()
            == read_rotation_from(cipher, h, digits, r, k + 1).len() + (if r == rw {
            1int
        } else {
            0int
        }) by {
            if hole_at(h, digits, k % s, k / s, r) {
                assert(r == rw);
            }
        }
    }
}

/// The four rotations of a grille together show every ciphertext character
/// exactly once, so a candidate is exactly as long as the ciphertext.
pub proof fn lemma_candidate_length(cipher: Seq<u8>, h: int, digits: Seq<u8>)
    requires
        h >= 1,
        digits.len() == h * h,
        digits_wf(digits),
        cipher.len() == 4 * h * h,
    ensures
        candidate_of(cipher, h, digits).len() == cipher.len(),
{
    lemma_reads_length(cipher, h, digits, 0);
}

/// Why a ciphertext was rejected.
#[derive(Debug)]
pub enum CrackerError {
    /// After uppercasing, a character outside the capital English letters
    /// remains.
    InvalidCharacters,
    /// The length is not the square of an even positive number.
    InvalidLength,
    /// The grille count 4^(side²/4) does not fit the progress counter.
    TooLarge,
}

/// The length is a square of an even positive side.
pub open spec fn has_even_square_side(len: nat) -> bool {
    exists|s: nat| s > 0 && s % 2 == 0 && #[trigger] (s * s) == len
}

pub struct TurningGrilleCracker {
    verbose: bool,
    sideLength: usize,
    grilleCount: u64,
    grilleCountSoFar: u64,
    cipherText: Vec<u8>,
    wordsTrie: WordsTrie,
    candidates: Vec<Vec<u8>>,
}

impl TurningGrilleCracker {
    /// Word-count threshold for a candidate to be kept.
    pub const MIN_DETECTED_WORD_COUNT: usize = 17;

    pub closed spec fn spec_verbose(&self) -> bool {
        self.verbose
    }

    pub closed spec fn spec_side(&self) -> nat {
        self.sideLength as nat
    }

    pub open spec fn half(&self) -> nat {
        self.spec_side() / 2
    }

    pub closed spec fn spec_grille_count(&self) -> u64 {
        self.grilleCount
    }

    pub closed spec fn spec_count(&self) -> u64 {
        self.grilleCountSoFar
    }

    pub closed spec fn spec_cipher(&self) -> Seq<u8> {
        self.cipherText@
    }

    pub closed spec fn spec_trie(&self) -> WordsTrie {
        self.wordsTrie
    }

    pub closed spec fn spec_candidates(&self) -> Set<Seq<u8>> {
        byte_lists_set(self.candidates@)
    }

    pub closed spec fn wf(&self) -> bool {
        &&& self.spec_side() == 2 * self.half()
        &&& self.half() >= 1
        &&& self.half() * self.half() <= 32
        &&& self.spec_cipher().len() == self.spec_side() * self.spec_side()
        &&& all_capitals(self.spec_cipher())
        &&& self.grilleCount == pow4(self.half() * self.half())
        &&& self.grilleCountSoFar <= self.grilleCount
        &&& self.wordsTrie.wf()
        &&& forall|i: int, j: int|
            0 <= i < j < self.candidates@.len() ==> self.candidates@[i]@ != self.candidates@[j]@
    }

    /// The configuration fixed at construction.
    pub open spec fn same_config(&self, other: &TurningGrilleCracker) -> bool {
        &&& self.spec_verbose() == other.spec_verbose()
        &&& self.spec_side() == other.spec_side()
        &&& self.spec_grille_count() == other.spec_grille_count()
        &&& self.spec_cipher() == other.spec_cipher()
        &&& self.spec_trie() == other.spec_trie()
    }

    /// The candidates of the whole grille space of this cracker.
    pub open spec fn all_accepted(&self) -> Set<Seq<u8>> {
        accepted_upto(
            self.spec_cipher(),
            self.spec_trie(),
            self.half(),
            self.spec_grille_count() as nat,
        )
    }
}

fn bytesEqual(a: &Vec<u8>, b: &Vec<u8>) -> (r: bool)
    ensures
        r == (a@ == b@),
{
    if a.len() != b.len() {
        proof {
            assert(a@ != b@);
        }
        return false;
    }
    let mut i: usize = 0;
    while i < a.len()
        invariant
            i <= a@.len(),
            a@.len() == b@.len(),
            forall|k: int| 0 <= k < i ==> a@[k] == b@[k],
        decreases a@.len() - i,
    {
        if a[i] != b[i] {
            proof {
                assert(a@ != b@);
            }
            return false;
        }
        i = i + 1;
    }
    proof {
        assert(a@ =~= b@);
    }
    true
}

fn cloneBytes(v: &Vec<u8>) -> (r: Vec<u8>)
    ensures
        r@ == v@,
{
    let mut r: Vec<u8> = Vec::new();
    let mut i: usize = 0;
    while i < v.len()
        invariant
            i <= v@.len(),
            r@ =~= v@.take(i as int),
        decreases v@.len() - i,
    {
        r.push(v[i]);
        i = i + 1;
    }
    proof {
        assert(v@.take(v@.len() as int) =~= v@);
    }
    r
}

fn reverseBytes(v: &Vec<u8>) -> (r: Vec<u8>)
    ensures
        r@ == v@.reverse(),
{
    let mut r: Vec<u8> = Vec::new();
    let n: usize = v.len();
    let mut i: usize = 0;
    while i < n
        invariant
            i <= n,
            n == v@.len(),
            r@.len() == i,
            forall|k: int| 0 <= k < i ==> r@[k] == v@[n - 1 - k],
        decreases n - i,
    {
        r.push(v[n - 1 - i]);
        i = i + 1;
    }
    proof {
        assert(r@ =~= v@.reverse());
    }
    r
}

/// The integer square root by bisection.
fn intSqrt(len: usize) -> (r: usize)
    ensures
        r * r <= len,
        (r + 1) * (r + 1) > len,
{
    let mut lo: usize = 0;
    let mut hi: usize = 4294967295;
    proof {
        assert((4294967295usize + 1) * (4294967295usize + 1) > usize::MAX) by (nonlinear_arith);
    }
    while lo < hi
        invariant
            lo <= hi <= 4294967295,
            lo * lo <= len,
            (hi + 1) * (hi + 1) > len,
        decreases hi - lo,
    {
        let mid: usize = hi - (hi - lo) / 2;
        proof {
            assert(lo < mid <= hi);
            assert((mid as u128) * (mid as u128) < 0x10000000000000000u128) by (nonlinear_arith)
                requires
                    mid <= 4294967295,
            ;
        }
        if (mid as u128) * (mid as u128) <= (len as u128) {
            proof {
                assert(mid * mid <= len) by (nonlinear_arith)
                    requires
                        (mid as u128) * (mid as u128) <= (len as u128),
                ;
            }
            lo = mid;
        } else {
            proof {
                assert(mid * mid > len) by (nonlinear_arith)
                    requires
                        (mid as u128) * (mid as u128) > (len as u128),
                ;
            }
            hi = mid - 1;
        }
    }
    lo
}

/// The rotation readings from rotation `r` on, concatenated.
pub open spec fn reads_from_rotation(cipher: Seq<u8>, h: int, digits: Seq<u8>, r: int) -> Seq<u8>
    decreases 4 - r,
{
    if r < 0 || r >= 4 {
        Seq::empty()
    } else {
        read_rotation_from(cipher, h, digits, r, 0) + reads_from_rotation(cipher, h, digits, r + 1)
    }
}

proof fn lemma_candidate_is_reads(cipher: Seq<u8>, h: int, digits: Seq<u8>)
    ensures
        candidate_of(cipher, h, digits) == reads_from_rotation(cipher, h, digits, 0),
{
    let r0 = read_rotation_from(cipher, h, digits, 0, 0);
    let r1 = read_rotation_from(cipher, h, digits, 1, 0);
    let r2 = read_rotation_from(cipher, h, digits, 2, 0);
    let r3 = read_rotation_from(cipher, h, digits, 3, 0);
    assert(reads_from_rotation(cipher, h, digits, 4) =~= Seq::<u8>::empty());
    assert(reads_from_rotation(cipher, h, digits, 3) =~= r3);
    assert(reads_from_rotation(cipher, h, digits, 2) == r2 + reads_from_rotation(
        cipher,
        h,
        digits,
        3,
    ));
    assert(reads_from_rotation(cipher, h, digits, 1) == r1 + reads_from_rotation(
        cipher,
        h,
        digits,
        2,
    ));
    assert(reads_from_rotation(cipher, h, digits, 0) == r0 + reads_from_rotation(
        cipher,
        h,
        digits,
        1,
    ));
    assert(reads_from_rotation(cipher, h, digits, 0) =~= candidate_of(cipher, h, digits));
}

impl TurningGrilleCracker {
    /// Validates the ciphertext and sets up a cracker over it: uppercased,
    /// it must consist of capital English letters only, and its length must
    /// be the square of an even positive side small enough for the grille
    /// count to fit the progress counter (a side of at most 10).
    pub fn new(cipherText: &Vec<u8>, wordsTrie: WordsTrie, verbose: bool) -> (r: Result<
        TurningGrilleCracker,
        CrackerError,
    >)
        requires
            wordsTrie.wf(),
        ensures
            match r {
                Ok(c) => {
                    &&& c.wf()
                    &&& c.spec_cipher() == cipherText@.map_values(|b: u8| upper_byte(b))
                    &&& c.spec_side() * c.spec_side() == cipherText@.len()
                    &&& c.spec_grille_count() == pow4(c.half() * c.half())
                    &&& c.spec_count() == 0
                    &&& c.spec_candidates() == Set::<Seq<u8>>::empty()
                    &&& c.spec_trie() == wordsTrie
                    &&& c.spec_verbose() == verbose
                    &&& all_capitals(cipherText@.map_values(|b: u8| upper_byte(b)))
                    &&& has_even_square_side(cipherText@.len())
                    &&& cipherText@.len() <= 100
                },
                Err(e) => {
                    &&& (e is InvalidCharacters <==> !all_capitals(
                        cipherText@.map_values(|b: u8| upper_byte(b)),
                    ))
                    &&& (e is InvalidLength ==> !has_even_square_side(cipherText@.len()))
                    &&& (e is TooLarge ==> has_even_square_side(cipherText@.len())
                        && cipherText@.len() > 100)
                },
            },
    {
        let upper = crate::text::uppercaseBytes(cipherText);
        if !crate::text::allCapitals(&upper) {
            return Err(CrackerError::InvalidCharacters);
        }
        let len: usize = upper.len();

        let mut sideLength: usize = 0;
        let mut candidate_side: usize = 2;
        while candidate_side <= 10
            invariant
                2 <= candidate_side <= 12,
                candidate_side % 2 == 0,
                sideLength == 0 ==> forall|s: nat|
                    2 <= s < candidate_side && s % 2 == 0 ==> #[trigger] (s * s) != len,
                sideLength != 0 ==> sideLength % 2 == 0 && 2 <= sideLength <= 10 && sideLength
                    * sideLength == len,
            decreases 12 - candidate_side,
        {
            proof {
                assert(candidate_side * candidate_side <= 100) by (nonlinear_arith)
                    requires
                        candidate_side <= 10,
                ;
            }
            if candidate_side * candidate_side == len {
                sideLength = candidate_side;
            }
            candidate_side = candidate_side + 2;
        }

        if sideLength == 0 {
            // distinguish a length that is no even square from one whose
            // grille count would overflow
            let root = intSqrt(len);
            proof {
                assert(root <= len) by (nonlinear_arith)
                    requires
                        root * root <= len,
                ;
            }
            let valid = root > 0 && root % 2 == 0 && (root as u128) * (root as u128) == (
            len as u128);
            proof {
                assert(valid == (root > 0 && root % 2 == 0 && root * root == len))
                    by (nonlinear_arith)
                    requires
                        valid == (root > 0 && root % 2 == 0 && (root as u128) * (root as u128) == (
                        len as u128)),
                ;
            }
            proof {
                if valid {
                    assert((root as nat) * (root as nat) == len as nat);
                    assert(has_even_square_side(len as nat));
                    assert forall|s: nat|
                        s > 0 && s % 2 == 0 && #[trigger] (s * s) == len implies s > 10 by {
                        if s <= 10 {
                            assert((s * s) != len);
                        }
                    }
                    assert(root > 10) by {
                        if root <= 10 {
                            assert((root as nat) * (root as nat) == len);
                        }
                    }
                    assert(len > 100) by (nonlinear_arith)
                        requires
                            root > 10 && root * root == len,
                    ;
                } else {
                    assert forall|s: nat|
                        s > 0 && s % 2 == 0 implies #[trigger] (s * s) != len by {
                        if s * s == len {
                            assert(s <= root && root < s + 1) by (nonlinear_arith)
                                requires
                                    s * s == len && root * root <= len && (root + 1) * (root + 1)
                                        > len,
                            ;
                        }
                    }
                    assert(!has_even_square_side(len as nat));
                }
            }
            if valid {
                return Err(CrackerError::TooLarge);
            }
            return Err(CrackerError::InvalidLength);
        }

        let digitCount: usize = sideLength * sideLength / 4;
        let mut grilleCount: u64 = 1;
        let mut i: usize = 0;
        proof {
            assert(digitCount == (sideLength / 2) * (sideLength / 2) && digitCount <= 25)
                by (nonlinear_arith)
                requires
                    sideLength % 2 == 0 && 2 <= sideLength <= 10 && digitCount == sideLength
                        * sideLength / 4,
            ;
            lemma_pow4_25();
        }
        while i < digitCount
            invariant
                i <= digitCount <= 25,
                grilleCount == pow4(i as nat),
                pow4(25) == 1125899906842624,
            decreases digitCount - i,
        {
            proof {
                lemma_pow4_monotone((i + 1) as nat, 25);
            }
            grilleCount = grilleCount * 4;
            i = i + 1;
        }

        let r = TurningGrilleCracker {
            verbose,
            sideLength,
            grilleCount,
            grilleCountSoFar: 0,
            cipherText: upper,
            wordsTrie,
            candidates: Vec::new(),
        };
        proof {
            assert(r.spec_side() == 2 * r.half() && r.half() >= 1 && r.half() * r.half() <= 25)
                by (nonlinear_arith)
                requires
                    r.spec_side() == sideLength && sideLength % 2 == 0 && 2 <= sideLength <= 10
                        && r.half() == r.spec_side() / 2,
            ;
            assert(r.half() * r.half() == digitCount) by (nonlinear_arith)
                requires
                    r.half() == sideLength as nat / 2 && sideLength % 2 == 0 && 2 <= sideLength
                        <= 10 && digitCount == sideLength * sideLength / 4,
            ;
            assert(r.spec_cipher().len() == r.spec_side() * r.spec_side());
            assert(r.spec_candidates() =~= Set::<Seq<u8>>::empty());
            assert(len <= 100) by (nonlinear_arith)
                requires
                    sideLength * sideLength == len && sideLength <= 10,
            ;
            assert(has_even_square_side(len as nat));
        }
        Ok(r)
    }

    /// Whether `candidate` is already among the accepted candidates.
    pub fn containsCandidate(&self, candidate: &Vec<u8>) -> (r: bool)
        ensures
            r == self.spec_candidates().contains(candidate@),
    {
        let mut i: usize = 0;
        while i < self.candidates.len()
            invariant
                i <= self.candidates@.len(),
                forall|k: int| 0 <= k < i ==> self.candidates@[k]@ != candidate@,
            decreases self.candidates@.len() - i,
        {
            if bytesEqual(&self.candidates[i], candidate) {
                return true;
            }
            i = i + 1;
        }
        false
    }

    /// Scores one candidate and keeps it when at least
    /// `MIN_DETECTED_WORD_COUNT` dictionary words occur in it.
    fn findWordsAndReport(&mut self, candidate: &Vec<u8>)
        requires
            old(self).wf(),
            candidate@.len() < 65536,
        ensures
            final(self).wf(),
            final(self).same_config(old(self)),
            final(self).spec_count() == old(self).spec_count(),
            final(self).spec_candidates() == (if old(self).spec_trie().spec_word_count(candidate@)
                >= TurningGrilleCracker::MIN_DETECTED_WORD_COUNT {
                old(self).spec_candidates().insert(candidate@)
            } else {
                old(self).spec_candidates()
            }),
    {
        let wordsFound: usize = self.wordsTrie.countWords(candidate);
        if wordsFound >= TurningGrilleCracker::MIN_DETECTED_WORD_COUNT {
            if !self.containsCandidate(candidate) {
                self.candidates.push(cloneBytes(candidate));
                proof {
                    let oldl = old(self).candidates@;
                    let newl = self.candidates@;
                    assert forall|w: Seq<u8>|
                        byte_lists_set(newl).contains(w) == old(self).spec_candidates().insert(
                            candidate@,
                        ).contains(w) by {
                        if byte_lists_set(newl).contains(w) {
                            let i = choose|i: int| 0 <= i < newl.len() && newl[i]@ == w;
                            if i < oldl.len() {
                                assert(oldl[i]@ == w);
                            }
                        }
                        if old(self).spec_candidates().contains(w) {
                            let i = choose|i: int| 0 <= i < oldl.len() && oldl[i]@ == w;
                            assert(newl[i]@ == w);
                        }
                        if w == candidate@ {
                            assert(newl[newl.len() - 1]@ == w);
                        }
                    }
                    assert(byte_lists_set(newl) =~= old(self).spec_candidates().insert(
                        candidate@,
                    ));
                }
            } else {
                proof {
                    assert(self.spec_candidates() =~= old(self).spec_candidates().insert(
                        candidate@,
                    ));
                }
            }
            if self.verbose {
                writeCandidateLine(wordsFound, candidate);
            }
        }
    }

    /// Reads the ciphertext through one grille, scores the reading and its
    /// reversal, and counts the grille as applied; returns the new count,
    /// which the caller hands to the milestone throttle.
    pub fn applyGrille(&mut self, grille: &Grille) -> (r: u64)
        requires
            old(self).wf(),
            grille.wf(),
            grille.h() == old(self).half(),
            old(self).spec_count() < old(self).spec_grille_count(),
        ensures
            final(self).wf(),
            final(self).same_config(old(self)),
            final(self).spec_count() == old(self).spec_count() + 1,
            r == final(self).spec_count(),
            final(self).spec_candidates() == old(self).spec_candidates().union(
                accepted_of_digits(
                    old(self).spec_cipher(),
                    old(self).spec_trie(),
                    old(self).half(),
                    grille.digits(),
                ),
            ),
    {
        let cipherTextLength: usize = self.cipherText.len();
        let mut candidateBuf: Vec<u8> = Vec::new();
        let s: usize = self.sideLength;
        let ghost h = self.half() as int;
        let ghost digits = grille.digits();
        let ghost cipher = self.spec_cipher();
        let ghost cand = candidate_of(cipher, h, digits);
        proof {
            lemma_candidate_is_reads(cipher, h, digits);
            assert(s == 2 * h);
            assert(cipherTextLength == 4 * h * h) by (nonlinear_arith)
                requires
                    cipherTextLength == s * s && s == 2 * h,
            ;
            lemma_candidate_length(cipher, h, digits);
        }

        let mut rotation: usize = 0;
        while rotation < 4
            invariant
                rotation <= 4,
                self == old(self),
                s == self.sideLength,
                h == self.half() as int,
                s == 2 * h,
                self.wf(),
                grille.wf(),
                digits == grille.digits(),
                grille.h() == self.half(),
                cipher == self.spec_cipher(),
                cipherTextLength == cipher.len(),
                cipherTextLength == 4 * h * h,
                cand == candidate_of(cipher, h, digits),
                candidateBuf@ + reads_from_rotation(cipher, h, digits, rotation as int) == cand,
            decreases 4 - rotation,
        {
            let mut k: usize = 0;
            proof {
                assert(reads_from_rotation(cipher, h, digits, rotation as int)
                    == read_rotation_from(cipher, h, digits, rotation as int, 0)
                    + reads_from_rotation(cipher, h, digits, rotation as int + 1));
            }
            while k < cipherTextLength
                invariant
                    k <= cipherTextLength,
                    rotation < 4,
                    self == old(self),
                    s == self.sideLength,
                    h == self.half() as int,
                    s == 2 * h,
                    self.wf(),
                    grille.wf(),
                    digits == grille.digits(),
                    grille.h() == self.half(),
                    cipher == self.spec_cipher(),
                    cipherTextLength == cipher.len(),
                    cipherTextLength == 4 * h * h,
                    cand == candidate_of(cipher, h, digits),
                    candidateBuf@ + read_rotation_from(cipher, h, digits, rotation as int, k as int)
                        + reads_from_rotation(cipher, h, digits, rotation as int + 1) == cand,
                decreases cipherTextLength - k,
            {
                let x: usize = k % s;
                let y: usize = k / s;
                proof {
                    assert(x < s && y < s) by (nonlinear_arith)
                        requires
                            s >= 1 && k < s * s && x == k % s && y == k / s && s * s
                                == cipherTextLength && k < cipherTextLength,
                    ;
                    assert(read_rotation_from(cipher, h, digits, rotation as int, k as int) == (
                    if hole_at(h, digits, k as int % (2 * h), k as int / (2 * h), rotation as int) {
                        seq![cipher[k as int]] + read_rotation_from(
                            cipher,
                            h,
                            digits,
                            rotation as int,
                            k as int + 1,
                        )
                    } else {
                        read_rotation_from(cipher, h, digits, rotation as int, k as int + 1)
                    }));
                    assert(k as int % (2 * h) == x as int && k as int / (2 * h) == y as int);
                }
                if grille.isHole(x, y, rotation) {
                    candidateBuf.push(self.cipherText[k]);
                    proof {
                        assert(candidateBuf@ + read_rotation_from(
                            cipher,
                            h,
                            digits,
                            rotation as int,
                            k as int + 1,
                        ) + reads_from_rotation(cipher, h, digits, rotation as int + 1) =~= cand);
                    }
                } else {
                    proof {
                        assert(candidateBuf@ + read_rotation_from(
                            cipher,
                            h,
                            digits,
                            rotation as int,
                            k as int + 1,
                        ) + reads_from_rotation(cipher, h, digits, rotation as int + 1) =~= cand);
                    }
                }
                k = k + 1;
            }
            proof {
                assert(read_rotation_from(cipher, h, digits, rotation as int, cipherTextLength as int)
                    =~= Seq::<u8>::empty());
                assert(candidateBuf@ + reads_from_rotation(cipher, h, digits, rotation as int + 1)
                    =~= cand);
            }
            rotation = rotation + 1;
        }
        proof {
            assert(reads_from_rotation(cipher, h, digits, 4) =~= Seq::<u8>::empty());
            assert(candidateBuf@ =~= cand);
        }

        proof {
            assert(cipherTextLength < 65536) by (nonlinear_arith)
                requires
                    cipherTextLength == 4 * h * h && h * h <= 32,
            ;
        }
        self.findWordsAndReport(&candidateBuf);
        let candidateRevBuf: Vec<u8> = reverseBytes(&candidateBuf);
        proof {
            assert(candidateRevBuf@.len() == candidateBuf@.len());
        }
        self.findWordsAndReport(&candidateRevBuf);

        self.grilleCountSoFar = self.grilleCountSoFar + 1;
        proof {
            let acc = accepted_of_digits(cipher, old(self).spec_trie(), old(self).half(), digits);
            assert(self.spec_candidates() =~= old(self).spec_candidates().union(acc));
        }
        self.grilleCountSoFar
    }
}

/// Throughput of one milestone, as the 64-bit truncation the progress
/// reports use.
pub open spec fn milestone_gps(grilleCount: u64, elapsedNs: u128) -> u64
    recommends
        elapsedNs > 0,
{
    ((((grilleCount as nat) * 1000000000) / (elapsedNs as nat)) % 0x10000000000000000) as u64
}

/// The maximum of two throughput readings.
pub open spec fn gps_max(a: u64, b: u64) -> u64 {
    if a >= b {
        a
    } else {
        b
    }
}

/// Start time, milestone start time, progress at the last milestone and the
/// best throughput seen, shared by every strategy.
#[derive(Clone, Copy)]
pub struct TurningGrilleCrackerMilestoneState {
    start: Instant,
    milestoneStart: Instant,
    grilleCountAtMilestoneStart: u64,
    bestGrillesPerSecond: u64,
}

impl TurningGrilleCrackerMilestoneState {
    pub closed spec fn spec_start(&self) -> Instant {
        self.start
    }

    pub closed spec fn spec_milestone_start(&self) -> Instant {
        self.milestoneStart
    }

    pub closed spec fn spec_count_at_milestone_start(&self) -> u64 {
        self.grilleCountAtMilestoneStart
    }

    pub closed spec fn spec_best(&self) -> u64 {
        self.bestGrillesPerSecond
    }

    /// The best throughput seen so far.
    pub fn bestGrillesPerSecond(&self) -> (r: u64)
        ensures
            r == self.spec_best(),
    {
        self.bestGrillesPerSecond
    }

    pub fn new() -> (r: TurningGrilleCrackerMilestoneState)
        ensures
            r.spec_count_at_milestone_start() == 0,
            r.spec_best() == 0,
    {
        let now = instantNow();
        TurningGrilleCrackerMilestoneState {
            start: now,
            milestoneStart: now,
            grilleCountAtMilestoneStart: 0,
            bestGrillesPerSecond: 0,
        }
    }
}

/// One strategy driving the cracker: how the whole grille space is walked,
/// and what happens at each milestone.
pub trait TurningGrilleCrackerImplDetails: Sized {
    spec fn wf(&self) -> bool;

    /// The milestone state every strategy keeps.
    spec fn milestone_state(&self) -> TurningGrilleCrackerMilestoneState;

    /// The progress recorded at the last milestone; it never runs ahead of
    /// the progress counter.
    open spec fn milestone_floor(&self) -> u64 {
        self.milestone_state().spec_count_at_milestone_start()
    }

    /// Whether the strategy is still fresh enough to drive one full run; a
    /// strategy whose queue has already seen work is not reusable.
    open spec fn ready(&self) -> bool {
        true
    }

    /// Begins the milestone accounting at `start`.
    fn restartCrackerMilestoneState(&mut self, start: Instant)
        requires
            old(self).wf(),
        ensures
            final(self).wf(),
            final(self).ready() == old(self).ready(),
            final(self).milestone_floor() == old(self).milestone_floor(),
    ;

    fn cloneCrackerMilestoneState(&self) -> (r: TurningGrilleCrackerMilestoneState)
        requires
            self.wf(),
        ensures
            r == self.milestone_state(),
    ;

    /// Walks the whole grille space of the cracker: every grille is applied
    /// exactly once, so the progress counter ends at the grille count and
    /// the candidate set is exactly that of the whole space.
    fn bruteForce(&mut self, cracker: &mut TurningGrilleCracker)
        requires
            old(self).wf(),
            old(self).ready(),
            old(self).milestone_floor() == 0,
            old(cracker).wf(),
            old(cracker).spec_count() == 0,
            old(cracker).spec_candidates() == Set::<Seq<u8>>::empty(),
        ensures
            final(self).wf(),
            final(cracker).wf(),
            final(cracker).same_config(old(cracker)),
            final(cracker).spec_count() == final(cracker).spec_grille_count(),
            final(cracker).spec_candidates() == old(cracker).all_accepted(),
    ;

    /// One best-effort milestone: updates the strategy's accounts from the
    /// observed progress.
    fn tryMilestone(
        &mut self,
        cracker: &TurningGrilleCracker,
        milestoneEnd: Instant,
        grilleCountSoFar: u64,
    )
        requires
            old(self).wf(),
            cracker.wf(),
            old(self).milestone_floor() <= grilleCountSoFar,
        ensures
            final(self).wf(),
            final(self).milestone_floor() <= grilleCountSoFar,
    ;

    /// A strategy-specific closing line for the final report.
    fn milestonesSummary(&self, cracker: &TurningGrilleCracker) -> (r: String)
        requires
            self.wf(),
            cracker.wf(),
    {
        String::new()
    }
}

impl TurningGrilleCracker {
    /// The side length of the ciphertext square.
    pub fn sideLength(&self) -> (r: usize)
        ensures
            r == self.spec_side(),
    {
        self.sideLength
    }

    /// The number of grilles of the whole space.
    pub fn grilleCount(&self) -> (r: u64)
        ensures
            r == self.spec_grille_count(),
    {
        self.grilleCount
    }

    /// How many grilles have been applied so far.
    pub fn grilleCountSoFar(&self) -> (r: u64)
        ensures
            r == self.spec_count(),
    {
        self.grilleCountSoFar
    }

    /// A copy of the accepted candidates.
    pub fn candidatesList(&self) -> (r: Vec<Vec<u8>>)
        ensures
            byte_lists_set(r@) == self.spec_candidates(),
    {
        let mut r: Vec<Vec<u8>> = Vec::new();
        let mut i: usize = 0;
        while i < self.candidates.len()
            invariant
                i <= self.candidates@.len(),
                r@.len() == i,
                forall|k: int| 0 <= k < i ==> r@[k]@ == self.candidates@[k]@,
            decreases self.candidates@.len() - i,
        {
            r.push(cloneBytes(&self.candidates[i]));
            i = i + 1;
        }
        proof {
            assert forall|w: Seq<u8>|
                byte_lists_set(r@).contains(w) == self.spec_candidates().contains(w) by {
                if byte_lists_set(r@).contains(w) {
                    let k = choose|k: int| 0 <= k < r@.len() && r@[k]@ == w;
                    assert(self.candidates@[k]@ == w);
                }
                if self.spec_candidates().contains(w) {
                    let k = choose|k: int|
                        0 <= k < self.candidates@.len() && self.candidates@[k]@ == w;
                    assert(r@[k]@ == w);
                }
            }
            assert(byte_lists_set(r@) =~= self.spec_candidates());
        }
        r
    }

    /// The milestone throttle interval: one milestone every 0.1% of the
    /// grille space, at least every grille.
    pub fn milestoneStep(&self) -> (r: u64)
        requires
            self.wf(),
        ensures
            r == (if self.spec_grille_count() >= 1000 {
                self.spec_grille_count() / 1000
            } else {
                1u64
            }),
            r >= 1,
    {
        if self.grilleCount >= 1000 {
            self.grilleCount / 1000
        } else {
            1
        }
    }

    /// Hands one applied grille to the milestone throttle, which fires the
    /// strategy's milestone when the count crosses a 0.1% boundary.
    pub fn registerOneAppliedGrill<D: TurningGrilleCrackerImplDetails>(
        &self,
        implDetails: &mut D,
        grilleCountSoFar: u64,
    )
        requires
            self.wf(),
            old(implDetails).wf(),
            old(implDetails).milestone_floor() <= grilleCountSoFar,
        ensures
            final(implDetails).wf(),
            final(implDetails).milestone_floor() <= grilleCountSoFar,
    {
        let step = self.milestoneStep();
        if grilleCountSoFar % step == 0 {
            let milestoneEnd = instantNow();
            implDetails.tryMilestone(self, milestoneEnd, grilleCountSoFar);
        }
    }

    /// One milestone against the clock: measures the elapsed time and hands
    /// it on; what the update does for each elapsed value is stated on
    /// `milestoneWithElapsed`.
    pub fn milestone(
        &self,
        milestoneEnd: Instant,
        grilleCountSoFar: u64,
        milestoneState: &mut TurningGrilleCrackerMilestoneState,
        milestoneDetailsStatus: String,
    ) -> (r: Option<u64>)
        requires
            self.wf(),
            old(milestoneState).spec_count_at_milestone_start() <= grilleCountSoFar,
        ensures
            final(milestoneState).spec_best() >= old(milestoneState).spec_best(),
            final(milestoneState).spec_start() == old(milestoneState).spec_start(),
            final(milestoneState).spec_count_at_milestone_start() <= grilleCountSoFar,
            r is None ==> *final(milestoneState) == *old(milestoneState),
            r matches Some(g) ==> final(milestoneState).spec_best() == gps_max(
                old(milestoneState).spec_best(),
                g,
            ) && final(milestoneState).spec_count_at_milestone_start() == grilleCountSoFar,
    {
        let elapsedTimeNs = nanosBetween(&milestoneEnd, &milestoneState.milestoneStart);
        self.milestoneWithElapsed(
            milestoneEnd,
            elapsedTimeNs,
            grilleCountSoFar,
            milestoneState,
            milestoneDetailsStatus,
        )
    }

    /// One milestone over a known elapsed time: for a positive elapsed time
    /// the throughput is reported and folded into the best, and the next
    /// milestone is begun; a zero elapsed time is skipped.
    pub fn milestoneWithElapsed(
        &self,
        milestoneEnd: Instant,
        elapsedTimeNs: u128,
        grilleCountSoFar: u64,
        milestoneState: &mut TurningGrilleCrackerMilestoneState,
        milestoneDetailsStatus: String,
    ) -> (r: Option<u64>)
        requires
            self.wf(),
            old(milestoneState).spec_count_at_milestone_start() <= grilleCountSoFar,
        ensures
            elapsedTimeNs == 0 ==> r is None && *final(milestoneState) == *old(milestoneState),
            elapsedTimeNs > 0 ==> r == Some(
                milestone_gps(
                    (grilleCountSoFar - old(milestoneState).spec_count_at_milestone_start()) as u64,
                    elapsedTimeNs,
                ),
            ) && final(milestoneState).spec_best() == gps_max(
                old(milestoneState).spec_best(),
                r.unwrap(),
            ) && final(milestoneState).spec_count_at_milestone_start() == grilleCountSoFar
                && final(milestoneState).spec_milestone_start() == milestoneEnd
                && final(milestoneState).spec_start() == old(milestoneState).spec_start(),
    {
        if elapsedTimeNs > 0 {
            let grilleCountForMilestone: u64 = grilleCountSoFar
                - milestoneState.grilleCountAtMilestoneStart;
            let grillesPerSecond: u64 = computeGps(grilleCountForMilestone, elapsedTimeNs);
            if grillesPerSecond > milestoneState.bestGrillesPerSecond {
                milestoneState.bestGrillesPerSecond = grillesPerSecond;
            }
            if self.verbose {
                proof {
                    lemma_pow4_pos(self.half() * self.half());
                }
                let perMille: u64 = computePerMille(grilleCountSoFar, self.grilleCount);
                let mut line = String::new();
                line.append(u64ToString(perMille / 10).as_str());
                line.append(".");
                line.append(u64ToString(perMille % 10).as_str());
                line.append("% done; current speed: ");
                line.append(u64ToString(grillesPerSecond).as_str());
                line.append(" grilles/s; best speed so far: ");
                line.append(u64ToString(milestoneState.bestGrillesPerSecond).as_str());
                line.append(" grilles/s");
                if !milestoneDetailsStatus.as_str().is_empty() {
                    line.append("; ");
                    line.append(milestoneDetailsStatus.as_str());
                }
                writeStderrLine(&line);
            }
            milestoneState.milestoneStart = milestoneEnd;
            milestoneState.grilleCountAtMilestoneStart = grilleCountSoFar;
            Some(grillesPerSecond)
        } else {
            None
        }
    }
}

/// The truncated grilles-per-second reading of one milestone.
fn computeGps(grilleCount: u64, elapsedNs: u128) -> (r: u64)
    requires
        elapsedNs > 0,
    ensures
        r == milestone_gps(grilleCount, elapsedNs),
{
    proof {
        assert((grilleCount as u128) * 1000000000 <= 0xFFFFFFFFFFFFFFFFu128 * 1000000000)
            by (nonlinear_arith)
            requires
                grilleCount <= 0xFFFFFFFFFFFFFFFFu64,
        ;
    }
    let v: u128 = (grilleCount as u128) * 1000000000;
    let q: u128 = v / elapsedNs;
    let r: u64 = #[verifier::truncate] (q as u64);
    proof {
        assert(v as nat == (grilleCount as nat) * 1000000000) by (nonlinear_arith)
            requires
                v == (grilleCount as u128) * 1000000000,
        ;
        assert(q as nat == (v as nat) / (elapsedNs as nat));
        assert(r as nat == (q as nat) % 0x10000000000000000) by (bit_vector)
            requires
                r == q as u64,
        ;
    }
    r
}

/// How much of the grille space is done, in thousandths.
fn computePerMille(grilleCountSoFar: u64, grilleCount: u64) -> (r: u64)
    requires
        grilleCount >= 1,
    ensures
        r == ((grilleCountSoFar as nat) * 1000) / (grilleCount as nat) % 0x10000000000000000,
{
    proof {
        assert((grilleCountSoFar as u128) * 1000 <= 0xFFFFFFFFFFFFFFFFu128 * 1000)
            by (nonlinear_arith)
            requires
                grilleCountSoFar <= 0xFFFFFFFFFFFFFFFFu64,
        ;
    }
    let v: u128 = (grilleCountSoFar as u128) * 1000;
    let q: u128 = v / (grilleCount as u128);
    let r: u64 = #[verifier::truncate] (q as u64);
    proof {
        assert(v as nat == (grilleCountSoFar as nat) * 1000) by (nonlinear_arith)
            requires
                v == (grilleCountSoFar as u128) * 1000,
        ;
        assert(q as nat == (v as nat) / (grilleCount as nat));
        assert(r as nat == (q as nat) % 0x10000000000000000) by (bit_vector)
            requires
                r == q as u64,
        ;
    }
    r
}

proof fn lemma_pow4_25()
    ensures
        pow4(25) == 1125899906842624,
{
    assert(pow4(0) == 1);
    assert(pow4(1) == 4);
    assert(pow4(2) == 16);
    assert(pow4(3) == 64);
    assert(pow4(4) == 256);
    assert(pow4(5) == 1024);
    assert(pow4(6) == 4096);
    assert(pow4(7) == 16384);
    assert(pow4(8) == 65536);
    assert(pow4(9) == 262144);
    assert(pow4(10) == 1048576);
    assert(pow4(11) == 4194304);
    assert(pow4(12) == 16777216);
    assert(pow4(13) == 67108864);
    assert(pow4(14) == 268435456);
    assert(pow4(15) == 1073741824);
    assert(pow4(16) == 4294967296);
    assert(pow4(17) == 17179869184);
    assert(pow4(18) == 68719476736);
    assert(pow4(19) == 274877906944);
    assert(pow4(20) == 1099511627776);
    assert(pow4(21) == 4398046511104);
    assert(pow4(22) == 17592186044416);
    assert(pow4(23) == 70368744177664);
    assert(pow4(24) == 281474976710656);
    assert(pow4(25) == 1125899906842624);
}

proof fn lemma_pow4_monotone(i: nat, j: nat)
    requires
        i <= j,
    ensures
        pow4(i) <= pow4(j),
    decreases j,
{
    if i < j {
        lemma_pow4_monotone(i, (j - 1) as nat);
        lemma_pow4_pos((j - 1) as nat);
    }
}

/// Scanning one more ordinal adds exactly that grille's candidates.
proof fn lemma_accepted_upto_step(cipher: Seq<u8>, trie: WordsTrie, h: nat, n: nat)
    ensures
        accepted_upto(cipher, trie, h, n + 1) == accepted_upto(cipher, trie, h, n).union(
            accepted_at(cipher, trie, h, n),
        ),
{
    assert forall|w: Seq<u8>|
        accepted_upto(cipher, trie, h, n + 1).contains(w) == accepted_upto(
            cipher,
            trie,
            h,
            n,
        ).union(accepted_at(cipher, trie, h, n)).contains(w) by {
        if accepted_upto(cipher, trie, h, n + 1).contains(w) {
            let ord = choose|ord: nat|
                ord < n + 1 && #[trigger] accepted_at(cipher, trie, h, ord).contains(w);
            if ord < n {
                assert(accepted_upto(cipher, trie, h, n).contains(w));
            }
        }
        if accepted_upto(cipher, trie, h, n).contains(w) {
            let ord = choose|ord: nat|
                ord < n && #[trigger] accepted_at(cipher, trie, h, ord).contains(w);
            assert(accepted_at(cipher, trie, h, ord).contains(w) && ord < n + 1);
        }
        if accepted_at(cipher, trie, h, n).contains(w) {
            assert(accepted_at(cipher, trie, h, n).contains(w) && n < n + 1);
        }
    }
    assert(accepted_upto(cipher, trie, h, n + 1) =~= accepted_upto(cipher, trie, h, n).union(
        accepted_at(cipher, trie, h, n),
    ));
}

/// A well-formed grille whose ordinal is `k` carries the digits of `k`, so
/// its candidates are those of ordinal `k`.
proof fn lemma_grille_digits(grille: &Grille, k: nat, h: nat)
    requires
        grille.wf(),
        grille.h() == h,
        k < pow4(h * h),
        grille.ord() == k % pow4(h * h),
    ensures
        grille.digits() == base4_digits(k, h * h),
{
    lemma_pow4_pos(h * h);
    vstd::arithmetic::div_mod::lemma_small_mod(k, pow4(h * h));
    lemma_digits_of_ord(grille.digits(), k);
}

/// The milestone state of the serial strategy.
pub struct SerialMilestoneState {
    crackerMilestoneState: TurningGrilleCrackerMilestoneState,
}

impl SerialMilestoneState {
    pub closed spec fn spec_cracker_milestone_state(&self) -> TurningGrilleCrackerMilestoneState {
        self.crackerMilestoneState
    }

    pub fn new() -> (r: SerialMilestoneState)
        ensures
            r.spec_cracker_milestone_state().spec_count_at_milestone_start() == 0,
    {
        SerialMilestoneState { crackerMilestoneState: TurningGrilleCrackerMilestoneState::new() }
    }
}

/// The serial strategy: one interval over the whole grille space, walked on
/// the calling thread, with inline milestone bookkeeping.
pub struct TurningGrilleCrackerSerial {
    milestoneState: SerialMilestoneState,
}

impl TurningGrilleCrackerSerial {
    pub fn new() -> (r: TurningGrilleCrackerSerial)
        ensures
            r.wf(),
            r.milestone_floor() == 0,
    {
        TurningGrilleCrackerSerial { milestoneState: SerialMilestoneState::new() }
    }
}

impl TurningGrilleCrackerImplDetails for TurningGrilleCrackerSerial {
    open spec fn wf(&self) -> bool {
        true
    }

    closed spec fn milestone_state(&self) -> TurningGrilleCrackerMilestoneState {
        self.milestoneState.crackerMilestoneState
    }

    fn restartCrackerMilestoneState(&mut self, start: Instant) {
        self.milestoneState.crackerMilestoneState.start = start;
        self.milestoneState.crackerMilestoneState.milestoneStart = start;
    }

    fn cloneCrackerMilestoneState(&self) -> (r: TurningGrilleCrackerMilestoneState) {
        self.milestoneState.crackerMilestoneState
    }

    fn bruteForce(&mut self, cracker: &mut TurningGrilleCracker) {
        let ghost cipher = cracker.spec_cipher();
        let ghost trie = cracker.spec_trie();
        let ghost h = cracker.half();
        let halfSideLength: usize = cracker.sideLength / 2;
        proof {
            assert(halfSideLength * halfSideLength <= 32) by (nonlinear_arith)
                requires
                    halfSideLength == cracker.half() && cracker.half() * cracker.half() <= 32,
            ;
            assert(accepted_upto(cipher, trie, h, 0) =~= Set::<Seq<u8>>::empty());
        }
        let mut grilleInterval = GrilleInterval::new(halfSideLength, 0, cracker.grilleCount);
        let milestoneStep: u64 = cracker.milestoneStep();
        let mut milestoneStart: Instant = instantNow();
        let mut grilleCountAtMilestoneStart: u64 = 0;
        let mut bestGrillesPerSecond: u64 = 0;

        loop
            invariant
                *self == *old(self),
                cracker.wf(),
                cracker.same_config(old(cracker)),
                cipher == cracker.spec_cipher(),
                trie == cracker.spec_trie(),
                h == cracker.half(),
                grilleInterval.wf(),
                grilleInterval.h() == h,
                grilleInterval.end_ord() == cracker.spec_grille_count(),
                grilleInterval.next_ord() == cracker.spec_count(),
                cracker.spec_grille_count() == pow4(h * h),
                cracker.spec_candidates() == accepted_upto(
                    cipher,
                    trie,
                    h,
                    cracker.spec_count() as nat,
                ),
                grilleCountAtMilestoneStart <= cracker.spec_count(),
                milestoneStep >= 1,
            ensures
                *self == *old(self),
                cracker.wf(),
                cracker.same_config(old(cracker)),
                cracker.spec_count() == cracker.spec_grille_count(),
                cracker.spec_candidates() == accepted_upto(
                    cipher,
                    trie,
                    h,
                    cracker.spec_count() as nat,
                ),
            decreases cracker.spec_grille_count() - cracker.spec_count(),
        {
            let ghost ordinal = grilleInterval.next_ord();
            let grille = grilleInterval.getNext();
            let grilleCountSoFar: u64 = match grille {
                None => {
                    break ;
                },
                Some(grille) => {
                    proof {
                        lemma_grille_digits(grille, ordinal, h);
                        lemma_accepted_upto_step(cipher, trie, h, ordinal);
                    }
                    cracker.applyGrille(grille)
                },
            };

            // a milestone every 0.1%, computed inline as this strategy has
            // the thread to itself
            if grilleCountSoFar % milestoneStep == 0 {
                let milestoneEnd: Instant = instantNow();
                let elapsedTimeNs: u128 = nanosBetween(&milestoneEnd, &milestoneStart);
                if elapsedTimeNs > 0 {
                    let grilleCountForMilestone: u64 = grilleCountSoFar
                        - grilleCountAtMilestoneStart;
                    let grillesPerSecond: u64 = computeGps(grilleCountForMilestone, elapsedTimeNs);
                    if grillesPerSecond > bestGrillesPerSecond {
                        bestGrillesPerSecond = grillesPerSecond;
                    }
                    if cracker.verbose {
                        proof {
                            lemma_pow4_pos(h * h);
                        }
                        let perMille: u64 = computePerMille(grilleCountSoFar, cracker.grilleCount);
                        let mut line = String::new();
                        line.append(u64ToString(perMille / 10).as_str());
                        line.append(".");
                        line.append(u64ToString(perMille % 10).as_str());
                        line.append("% done; current speed: ");
                        line.append(u64ToString(grillesPerSecond).as_str());
                        line.append(" grilles/s; best speed so far: ");
                        line.append(u64ToString(bestGrillesPerSecond).as_str());
                        line.append(" grilles/s");
                        writeStderrLine(&line);
                    }
                    milestoneStart = milestoneEnd;
                    grilleCountAtMilestoneStart = grilleCountSoFar;
                }
            }
        }
        self.milestoneState.crackerMilestoneState.bestGrillesPerSecond = bestGrillesPerSecond;
    }

    fn tryMilestone(
        &mut self,
        cracker: &TurningGrilleCracker,
        milestoneEnd: Instant,
        grilleCountSoFar: u64,
    ) {
        let _ = cracker.milestone(
            milestoneEnd,
            grilleCountSoFar,
            &mut self.milestoneState.crackerMilestoneState,
            String::new(),
        );
    }
}

impl TurningGrilleCracker {
    /// Runs the whole brute force under the given strategy and returns the
    /// accepted candidates: every grille of the space has then been applied
    /// exactly once.
    pub fn bruteForce<D: TurningGrilleCrackerImplDetails>(&mut self, implDetails: &mut D) -> (r:
        Vec<Vec<u8>>)
        requires
            old(self).wf(),
            old(implDetails).wf(),
            old(implDetails).ready(),
            old(implDetails).milestone_floor() == 0,
            old(self).spec_count() == 0,
        ensures
            final(self).wf(),
            final(self).same_config(old(self)),
            final(self).spec_count() == final(self).spec_grille_count(),
            byte_lists_set(r@) == old(self).all_accepted(),
            final(self).spec_candidates() == Set::<Seq<u8>>::empty(),
    {
        self.candidates = Vec::new();
        proof {
            assert(self.spec_candidates() =~= Set::<Seq<u8>>::empty());
        }
        let start = instantNow();
        implDetails.restartCrackerMilestoneState(start);

        implDetails.bruteForce(self);

        let end = instantNow();
        let milestoneState: TurningGrilleCrackerMilestoneState =
            implDetails.cloneCrackerMilestoneState();
        let elapsedTimeNs: u128 = nanosBetween(&end, &milestoneState.start);
        let grillsPerSecond: u64 = if elapsedTimeNs > 0 {
            computeGps(self.grilleCount, elapsedTimeNs)
        } else {
            0
        };

        let mut line = String::new();
        line.append("Average speed: ");
        line.append(u64ToString(grillsPerSecond).as_str());
        line.append(" grilles/s; best speed: ");
        line.append(u64ToString(milestoneState.bestGrillesPerSecond).as_str());
        line.append(" grilles/s");
        let summary: String = implDetails.milestonesSummary(self);
        if !summary.as_str().is_empty() {
            line.append("; ");
            line.append(summary.as_str());
        }
        writeStderrLine(&line);

        if self.grilleCountSoFar != self.grilleCount {
            return vstd::pervasive::unreached::<Vec<Vec<u8>>>();
        }

        let mut r: Vec<Vec<u8>> = Vec::new();
        core::mem::swap(&mut r, &mut self.candidates);
        proof {
            assert(self.spec_candidates() =~= Set::<Seq<u8>>::empty());
        }
        r
    }
}

/// The candidates a grille hands to the scorer: the forward reading and the
/// reversed reading.
pub open spec fn produced_of_digits(cipher: Seq<u8>, h: nat, digits: Seq<u8>) -> Set<Seq<u8>> {
    let c = candidate_of(cipher, h as int, digits);
    set![c, c.reverse()]
}

/// Reversal symmetry: the candidates a grille produces for scoring are
/// closed under output reversal by construction, since each grille yields a
/// reading and that reading reversed.
pub proof fn lemma_produced_closed_under_reversal(
    cipher: Seq<u8>,
    h: nat,
    digits: Seq<u8>,
    w: Seq<u8>,
)
    ensures
        produced_of_digits(cipher, h, digits).contains(w) == produced_of_digits(
            cipher,
            h,
            digits,
        ).contains(w.reverse()),
{
    let c = candidate_of(cipher, h as int, digits);
    assert(c.reverse().reverse() =~= c);
    assert(w.reverse().reverse() =~= w);
    if w == c {
        assert(w.reverse() == c.reverse());
    }
    if w == c.reverse() {
        assert(w.reverse() == c);
    }
    if w.reverse() == c {
        assert(w == c.reverse());
    }
    if w.reverse() == c.reverse() {
        assert(w == c);
    }
}

/// Half-up rounding of `grilleCount / workerCount`: the length of each
/// worker's share of the grille space.
fn roundedIntervalLength(grilleCount: u64, workerCount: usize) -> (r: u64)
    requires
        workerCount >= 1,
    ensures
        r as nat == ((2 * grilleCount + workerCount) as nat) / ((2 * workerCount) as nat),
        r <= grilleCount,
{
    let num: u128 = 2u128 * (grilleCount as u128) + (workerCount as u128);
    let den: u128 = 2u128 * (workerCount as u128);
    let v: u128 = num / den;
    proof {
        let g = grilleCount as int;
        let w = workerCount as int;
        assert(num as int == 2 * g + w);
        assert(den as int == 2 * w);
        vstd::arithmetic::div_mod::lemma_fundamental_div_mod(num as int, den as int);
        vstd::arithmetic::div_mod::lemma_mod_bound(num as int, den as int);
        assert(num as int == den as int * (v as int) + (num as int) % (den as int));
        assert(v as int * (2 * w) <= 2 * g + w) by (nonlinear_arith)
            requires
                num as int == den as int * (v as int) + (num as int) % (den as int) && (num as int)
                    % (den as int) >= 0 && num as int == 2 * g + w && den as int == 2 * w,
        ;
        assert(v as int <= g) by (nonlinear_arith)
            requires
                v as int * (2 * w) <= 2 * g + w && w >= 1 && g >= 0 && v as int >= 0,
        ;
    }
    v as u64
}

/// The milestone state of the partitioned syncless strategy: per-worker
/// progress plus the shared milestone accounts.
pub struct SynclessMilestoneState {
    grilleIntervalsCompletion: Vec<(u64, u64)>,
    crackerMilestoneState: TurningGrilleCrackerMilestoneState,
}

impl SynclessMilestoneState {
    pub closed spec fn spec_cracker_milestone_state(&self) -> TurningGrilleCrackerMilestoneState {
        self.crackerMilestoneState
    }

    pub fn new() -> (r: SynclessMilestoneState)
        ensures
            r.spec_cracker_milestone_state().spec_count_at_milestone_start() == 0,
    {
        SynclessMilestoneState {
            grilleIntervalsCompletion: Vec::new(),
            crackerMilestoneState: TurningGrilleCrackerMilestoneState::new(),
        }
    }
}

/// The partitioned syncless strategy: each worker owns a disjoint interval
/// of the grille space and no queue stands between them.
pub struct TurningGrilleCrackerSyncless {
    workersCount: usize,
    milestoneState: SynclessMilestoneState,
}

impl TurningGrilleCrackerSyncless {
    pub fn new(workerCount: usize) -> (r: TurningGrilleCrackerSyncless)
        requires
            workerCount >= 1,
        ensures
            r.wf(),
            r.milestone_floor() == 0,
            r.spec_workers_count() == workerCount,
    {
        TurningGrilleCrackerSyncless {
            workersCount: workerCount,
            milestoneState: SynclessMilestoneState::new(),
        }
    }

    pub closed spec fn spec_workers_count(&self) -> nat {
        self.workersCount as nat
    }

    /// One best-effort milestone of this strategy: composes the per-worker
    /// completion report and updates the shared accounts; the workers'
    /// progress records are left as they are.
    fn milestoneTick(
        &mut self,
        cracker: &TurningGrilleCracker,
        milestoneEnd: Instant,
        grilleCountSoFar: u64,
    )
        requires
            old(self).wf(),
            cracker.wf(),
            old(self).milestone_floor() <= grilleCountSoFar,
        ensures
            final(self).wf(),
            final(self).milestone_floor() <= grilleCountSoFar,
            final(self).workersCount == old(self).workersCount,
            final(self).milestoneState.grilleIntervalsCompletion == old(
                self,
            ).milestoneState.grilleIntervalsCompletion,
    {
        let mut milestoneStatus = String::new();
        if cracker.verbose {
            milestoneStatus.append("workers: ");
            milestoneStatus.append(u64ToString(self.workersCount as u64).as_str());
            milestoneStatus.append("; completion per worker: ");
            let mut w: usize = 0;
            while w < self.milestoneState.grilleIntervalsCompletion.len()
                invariant
                    w <= self.milestoneState.grilleIntervalsCompletion@.len(),
                decreases self.milestoneState.grilleIntervalsCompletion@.len() - w,
            {
                if w > 0 {
                    milestoneStatus.append("/");
                }
                let pair = self.milestoneState.grilleIntervalsCompletion[w];
                let perMille: u64 = if pair.1 >= 1 {
                    computePerMille(pair.0, pair.1)
                } else {
                    0
                };
                milestoneStatus.append(u64ToString(perMille / 10).as_str());
                milestoneStatus.append(".");
                milestoneStatus.append(u64ToString(perMille % 10).as_str());
                w = w + 1;
            }
            milestoneStatus.append("% done");
        }
        let _ = cracker.milestone(
            milestoneEnd,
            grilleCountSoFar,
            &mut self.milestoneState.crackerMilestoneState,
            milestoneStatus,
        );
    }
}

impl TurningGrilleCrackerImplDetails for TurningGrilleCrackerSyncless {
    closed spec fn wf(&self) -> bool {
        self.workersCount >= 1
    }

    closed spec fn milestone_state(&self) -> TurningGrilleCrackerMilestoneState {
        self.milestoneState.crackerMilestoneState
    }

    fn restartCrackerMilestoneState(&mut self, start: Instant) {
        self.milestoneState.crackerMilestoneState.start = start;
        self.milestoneState.crackerMilestoneState.milestoneStart = start;
    }

    fn cloneCrackerMilestoneState(&self) -> (r: TurningGrilleCrackerMilestoneState) {
        self.milestoneState.crackerMilestoneState
    }

    fn bruteForce(&mut self, cracker: &mut TurningGrilleCracker) {
        let ghost cipher = cracker.spec_cipher();
        let ghost trie = cracker.spec_trie();
        let ghost h = cracker.half();
        let halfSideLength: usize = cracker.sideLength / 2;
        let workerCount: usize = self.workersCount;
        proof {
            assert(halfSideLength * halfSideLength <= 32) by (nonlinear_arith)
                requires
                    halfSideLength == cracker.half() && cracker.half() * cracker.half() <= 32,
            ;
            assert(accepted_upto(cipher, trie, h, 0) =~= Set::<Seq<u8>>::empty());
        }
        let grilleCount: u64 = cracker.grilleCount;
        let milestoneStep: u64 = cracker.milestoneStep();
        let intervalLength: u64 = roundedIntervalLength(grilleCount, workerCount);
        self.milestoneState.grilleIntervalsCompletion = Vec::new();

        let mut nextIntervalBegin: u64 = 0;
        let mut worker: usize = 0;
        while worker < workerCount
            invariant
                worker <= workerCount,
                workerCount == self.workersCount,
                self.wf(),
                milestoneStep >= 1,
                cracker.wf(),
                cracker.same_config(old(cracker)),
                cipher == cracker.spec_cipher(),
                trie == cracker.spec_trie(),
                h == cracker.half(),
                halfSideLength == cracker.half(),
                grilleCount == cracker.spec_grille_count(),
                cracker.spec_grille_count() == pow4(h * h),
                nextIntervalBegin == cracker.spec_count(),
                nextIntervalBegin <= grilleCount,
                worker == workerCount ==> nextIntervalBegin == grilleCount,
                self.milestoneState.grilleIntervalsCompletion@.len() == worker,
                cracker.spec_candidates() == accepted_upto(
                    cipher,
                    trie,
                    h,
                    cracker.spec_count() as nat,
                ),
                self.milestone_floor() <= cracker.spec_count(),
            decreases workerCount - worker,
        {
            let nextIntervalEnd: u64 = if worker < workerCount - 1 {
                let room: u64 = grilleCount - nextIntervalBegin;
                if intervalLength <= room {
                    nextIntervalBegin + intervalLength
                } else {
                    grilleCount
                }
            } else {
                grilleCount
            };
            let mut grilleInterval = GrilleInterval::new(
                halfSideLength,
                nextIntervalBegin,
                nextIntervalEnd,
            );
            let total: u64 = nextIntervalEnd - nextIntervalBegin;
            let workerIndex: usize = worker;
            self.milestoneState.grilleIntervalsCompletion.push((0, total));

            loop
                invariant
                    workerCount == self.workersCount,
                    self.wf(),
                    milestoneStep >= 1,
                    cracker.wf(),
                    cracker.same_config(old(cracker)),
                    cipher == cracker.spec_cipher(),
                    trie == cracker.spec_trie(),
                    h == cracker.half(),
                    halfSideLength == cracker.half(),
                    grilleCount == cracker.spec_grille_count(),
                    cracker.spec_grille_count() == pow4(h * h),
                    grilleInterval.wf(),
                    grilleInterval.h() == h,
                    grilleInterval.end_ord() == nextIntervalEnd,
                    nextIntervalEnd <= grilleCount,
                    grilleInterval.next_ord() == cracker.spec_count(),
                    cracker.spec_count() <= nextIntervalEnd,
                    cracker.spec_candidates() == accepted_upto(
                        cipher,
                        trie,
                        h,
                        cracker.spec_count() as nat,
                    ),
                    self.milestone_floor() <= cracker.spec_count(),
                    self.milestoneState.grilleIntervalsCompletion@.len() == workerIndex + 1,
                ensures
                    workerCount == self.workersCount,
                    self.wf(),
                    cracker.wf(),
                    cracker.same_config(old(cracker)),
                    cipher == cracker.spec_cipher(),
                    trie == cracker.spec_trie(),
                    h == cracker.half(),
                    grilleCount == cracker.spec_grille_count(),
                    cracker.spec_count() == nextIntervalEnd,
                    cracker.spec_candidates() == accepted_upto(
                        cipher,
                        trie,
                        h,
                        cracker.spec_count() as nat,
                    ),
                    self.milestone_floor() <= cracker.spec_count(),
                    self.milestoneState.grilleIntervalsCompletion@.len() == workerIndex + 1,
                decreases nextIntervalEnd - cracker.spec_count(),
            {
                let ghost ordinal = grilleInterval.next_ord();
                let grilleCountSoFar: u64 = match grilleInterval.getNext() {
                    None => {
                        break ;
                    },
                    Some(grille) => {
                        proof {
                            lemma_grille_digits(grille, ordinal, h);
                            lemma_accepted_upto_step(cipher, trie, h, ordinal);
                        }
                        cracker.applyGrille(grille)
                    },
                };
                // the milestone throttle, as `registerOneAppliedGrill` does it
                if grilleCountSoFar % milestoneStep == 0 {
                    let milestoneEnd = instantNow();
                    self.milestoneTick(cracker, milestoneEnd, grilleCountSoFar);
                }
                // this worker's own progress record
                let pair = self.milestoneState.grilleIntervalsCompletion[workerIndex];
                if pair.0 < pair.1 {
                    self.milestoneState.grilleIntervalsCompletion.set(
                        workerIndex,
                        (pair.0 + 1, pair.1),
                    );
                }
            }
            nextIntervalBegin = nextIntervalEnd;
            worker = worker + 1;
        }
    }

    fn tryMilestone(
        &mut self,
        cracker: &TurningGrilleCracker,
        milestoneEnd: Instant,
        grilleCountSoFar: u64,
    ) {
        self.milestoneTick(cracker, milestoneEnd, grilleCountSoFar);
    }
}

/// What the adaptive tuner decides to do with the consumer pool.
pub enum TunerAction {
    SpawnConsumer,
    RetireConsumer,
    KeepConsumers,
}

/// One adaptive-tuning decision over the observed throughput trend, with the
/// asymmetric +1/-2 thresholds: the trend counter moves by the sign of the
/// throughput change; reaching +1 acts in the current direction at once,
/// while only a fall to -2 flips it, biasing the tuner toward more
/// concurrency.
pub open spec fn tuner_decision(
    improving: int,
    addingThreads: bool,
    grillesPerSecond: u64,
    prevGrillesPerSecond: u64,
) -> (int, bool, TunerAction) {
    let moved = if grillesPerSecond < prevGrillesPerSecond {
        improving - 1
    } else if grillesPerSecond > prevGrillesPerSecond {
        improving + 1
    } else {
        improving
    };
    if moved >= 1 || moved <= -2 {
        let adding = if moved < 0 {
            !addingThreads
        } else {
            addingThreads
        };
        (0, adding, if adding {
            TunerAction::SpawnConsumer
        } else {
            TunerAction::RetireConsumer
        })
    } else {
        (moved, addingThreads, TunerAction::KeepConsumers)
    }
}

/// The adaptive tuner step as executable code.
pub fn tunerStep(improving: isize, addingThreads: bool, grillesPerSecond: u64, prevGrillesPerSecond: u64) -> (r: (
    isize,
    bool,
    TunerAction,
))
    requires
        -1 <= improving <= 0,
    ensures
        (r.0 as int, r.1, r.2) == tuner_decision(
            improving as int,
            addingThreads,
            grillesPerSecond,
            prevGrillesPerSecond,
        ),
        -1 <= r.0 <= 0,
{
    let mut moved: isize = improving;
    if grillesPerSecond < prevGrillesPerSecond {
        moved = moved - 1;
    } else if grillesPerSecond > prevGrillesPerSecond {
        moved = moved + 1;
    }
    if moved >= 1 || moved <= -2 {
        let adding = if moved < 0 {
            !addingThreads
        } else {
            addingThreads
        };
        (0, adding, if adding {
            TunerAction::SpawnConsumer
        } else {
            TunerAction::RetireConsumer
        })
    } else {
        (moved, addingThreads, TunerAction::KeepConsumers)
    }
}

/// The milestone state of the producer/consumer strategy: the tuner's trend
/// accounts beside the shared milestone accounts.
pub struct ProducerConsumerMilestoneState {
    improving: isize,
    addingThreads: bool,
    prevGrillesPerSecond: u64,
    bestConsumerCount: usize,
    bestGrillesPerSecond: u64,
    crackerMilestoneState: TurningGrilleCrackerMilestoneState,
}

impl ProducerConsumerMilestoneState {
    pub closed spec fn spec_cracker_milestone_state(&self) -> TurningGrilleCrackerMilestoneState {
        self.crackerMilestoneState
    }

    pub closed spec fn spec_improving(&self) -> int {
        self.improving as int
    }

    pub closed spec fn spec_adding_threads(&self) -> bool {
        self.addingThreads
    }

    pub fn new() -> (r: ProducerConsumerMilestoneState)
        ensures
            r.spec_cracker_milestone_state().spec_count_at_milestone_start() == 0,
            r.spec_improving() == 0,
            r.spec_adding_threads(),
    {
        ProducerConsumerMilestoneState {
            improving: 0,
            addingThreads: true,
            prevGrillesPerSecond: 0,
            bestConsumerCount: 0,
            bestGrillesPerSecond: 0,
            crackerMilestoneState: TurningGrilleCrackerMilestoneState::new(),
        }
    }
}

/// The ordinals `[a, b)`, oldest first: what a FIFO queue holds when the
/// producers have enumerated the grille space up to `b` and the consumers
/// have applied it up to `a`.
pub open spec fn range_seq(a: u64, b: u64) -> Seq<u64> {
    Seq::new((b - a) as nat, |i: int| (a + i) as u64)
}

/// The producer/consumer strategy: producers enumerate disjoint intervals
/// into a shared portion queue, consumers apply what they take, and an
/// adaptive tuner resizes the consumer pool at milestones.
pub struct TurningGrilleCrackerProducerConsumer<Q: MPMC_PortionQueue<u64>> {
    initialConsumerCount: usize,
    producerCount: usize,
    portionQueue: Q,
    consumerCount: usize,
    shutdownNConsumers: usize,
    milestoneState: ProducerConsumerMilestoneState,
}

impl<Q: MPMC_PortionQueue<u64>> TurningGrilleCrackerProducerConsumer<Q> {
    pub fn new(initialConsumerCount: usize, producerCount: usize, portionQueue: Q) -> (r:
        TurningGrilleCrackerProducerConsumer<Q>)
        requires
            initialConsumerCount >= 1,
            producerCount >= 1,
            initialConsumerCount <= portionQueue.max_size(),
            portionQueue.wf(),
            portionQueue.pending() == Seq::<u64>::empty(),
            !portionQueue.work_done(),
        ensures
            r.wf(),
            r.ready(),
            r.milestone_floor() == 0,
    {
        TurningGrilleCrackerProducerConsumer {
            initialConsumerCount,
            producerCount,
            portionQueue,
            consumerCount: 0,
            shutdownNConsumers: 0,
            milestoneState: ProducerConsumerMilestoneState::new(),
        }
    }

    pub closed spec fn spec_consumer_count(&self) -> nat {
        self.consumerCount as nat
    }

    /// One best-effort milestone: reports the consumer pool and queue load,
    /// updates the shared accounts, and lets the tuner act once on the pool.
    /// The queue itself is left as it is.
    fn milestoneTick(
        &mut self,
        cracker: &TurningGrilleCracker,
        milestoneEnd: Instant,
        grilleCountSoFar: u64,
    )
        requires
            old(self).wf(),
            cracker.wf(),
            old(self).milestone_floor() <= grilleCountSoFar,
        ensures
            final(self).wf(),
            final(self).milestone_floor() <= grilleCountSoFar,
            final(self).portionQueue == old(self).portionQueue,
            final(self).consumerCount >= old(self).consumerCount,
            final(self).initialConsumerCount == old(self).initialConsumerCount,
            final(self).producerCount == old(self).producerCount,
    {
        // in a concurrent deployment this body runs under a try-lock; losing
        // the race skips the milestone
        let queueSize: usize = self.portionQueue.getSize();

        let mut milestoneStatus = String::new();
        if cracker.verbose {
            milestoneStatus.append("consumers: ");
            milestoneStatus.append(u64ToString(self.consumerCount as u64).as_str());
            milestoneStatus.append("; queue size: ");
            milestoneStatus.append(u64ToString(queueSize as u64).as_str());
            milestoneStatus.append("/");
            milestoneStatus.append(u64ToString(self.portionQueue.getMaxSize() as u64).as_str());
        }

        let grillesPerSecond: Option<u64> = cracker.milestone(
            milestoneEnd,
            grilleCountSoFar,
            &mut self.milestoneState.crackerMilestoneState,
            milestoneStatus,
        );
        let grillesPerSecond: u64 = match grillesPerSecond {
            None => {
                return ;
            },
            Some(gps) => gps,
        };

        if grillesPerSecond > self.milestoneState.bestGrillesPerSecond {
            self.milestoneState.bestGrillesPerSecond = grillesPerSecond;
            self.milestoneState.bestConsumerCount = self.consumerCount;
        }

        if grilleCountSoFar < cracker.grilleCount {
            let decision = tunerStep(
                self.milestoneState.improving,
                self.milestoneState.addingThreads,
                grillesPerSecond,
                self.milestoneState.prevGrillesPerSecond,
            );
            self.milestoneState.improving = decision.0;
            self.milestoneState.addingThreads = decision.1;
            match decision.2 {
                TunerAction::SpawnConsumer => {
                    // one more consumer, as long as the queue has headroom
                    // for its shutdown signal
                    if self.consumerCount < self.portionQueue.getMaxSize() {
                        self.consumerCount = self.consumerCount + 1;
                    }
                },
                TunerAction::RetireConsumer => {
                    if self.shutdownNConsumers < usize::MAX {
                        self.shutdownNConsumers = self.shutdownNConsumers + 1;
                    }
                },
                TunerAction::KeepConsumers => {},
            }
            self.milestoneState.prevGrillesPerSecond = grillesPerSecond;
        }
    }

    /// One consumer step: takes the oldest queued ordinal, applies its
    /// grille, runs the milestone throttle, and honours one pending
    /// retirement unless this consumer is the last one.
    fn consumeOne(&mut self, cracker: &mut TurningGrilleCracker, emitted: u64)
        requires
            old(self).wf(),
            old(cracker).wf(),
            old(self).consumerCount >= 1,
            !old(self).portionQueue.work_done(),
            old(cracker).spec_count() < emitted,
            emitted <= old(cracker).spec_grille_count(),
            old(self).portionQueue.pending() == range_seq(old(cracker).spec_count(), emitted),
            old(cracker).spec_candidates() == accepted_upto(
                old(cracker).spec_cipher(),
                old(cracker).spec_trie(),
                old(cracker).half(),
                old(cracker).spec_count() as nat,
            ),
            old(self).milestone_floor() <= old(cracker).spec_count(),
        ensures
            final(self).wf(),
            final(cracker).wf(),
            final(cracker).same_config(old(cracker)),
            final(cracker).spec_count() == old(cracker).spec_count() + 1,
            final(self).consumerCount >= 1,
            final(self).portionQueue.max_size() == old(self).portionQueue.max_size(),
            !final(self).portionQueue.work_done(),
            final(self).portionQueue.pending() == range_seq(final(cracker).spec_count(), emitted),
            final(cracker).spec_candidates() == accepted_upto(
                old(cracker).spec_cipher(),
                old(cracker).spec_trie(),
                old(cracker).half(),
                final(cracker).spec_count() as nat,
            ),
            final(self).milestone_floor() <= final(cracker).spec_count(),
            final(self).initialConsumerCount == old(self).initialConsumerCount,
            final(self).producerCount == old(self).producerCount,
            final(self).portionQueue.spec_size() == old(self).portionQueue.spec_size() - 1,
    {
        let ghost cipher = cracker.spec_cipher();
        let ghost trie = cracker.spec_trie();
        let ghost h = cracker.half();
        let ghost count0 = cracker.spec_count();
        let portion: Option<u64> = self.portionQueue.retrievePortion();
        let ordinal: u64 = match portion {
            Some(ordinal) => ordinal,
            None => {
                // the queue holds at least one pending ordinal
                vstd::pervasive::unreached::<u64>()
            },
        };
        proof {
            assert(range_seq(count0, emitted)[0] == count0);
            assert(ordinal == count0);
            assert(self.portionQueue.pending() =~= range_seq((count0 + 1) as u64, emitted));
        }

        let halfSideLength: usize = cracker.sideLength / 2;
        proof {
            assert(halfSideLength * halfSideLength <= 32) by (nonlinear_arith)
                requires
                    halfSideLength == cracker.half() && cracker.half() * cracker.half() <= 32,
            ;
        }
        let grille = Grille::new(halfSideLength, ordinal);
        proof {
            lemma_pow4_pos(h * h);
            assert(grille.digits() =~= base4_digits(ordinal as nat, h * h)) by {
                vstd::arithmetic::div_mod::lemma_small_mod(ordinal as nat, pow4(h * h));
                lemma_digits_of_ord(grille.digits(), ordinal as nat);
            }
            lemma_accepted_upto_step(cipher, trie, h, ordinal as nat);
        }
        let grilleCountSoFar: u64 = cracker.applyGrille(&grille);

        // the milestone throttle, as `registerOneAppliedGrill` does it
        let milestoneStep: u64 = cracker.milestoneStep();
        if grilleCountSoFar % milestoneStep == 0 {
            let milestoneEnd = instantNow();
            self.milestoneTick(cracker, milestoneEnd, grilleCountSoFar);
        }

        // one pending retirement is honoured, but the last consumer stays
        if self.shutdownNConsumers > 0 {
            self.shutdownNConsumers = self.shutdownNConsumers - 1;
            if self.consumerCount > 1 {
                self.consumerCount = self.consumerCount - 1;
            }
        }
    }
}

impl<Q: MPMC_PortionQueue<u64>> TurningGrilleCrackerImplDetails for TurningGrilleCrackerProducerConsumer<Q> {
    closed spec fn wf(&self) -> bool {
        &&& self.initialConsumerCount >= 1
        &&& self.producerCount >= 1
        &&& self.initialConsumerCount <= self.portionQueue.max_size()
        &&& self.consumerCount <= self.portionQueue.max_size()
        &&& self.portionQueue.wf()
        &&& -1 <= self.milestoneState.improving <= 0
    }

    closed spec fn milestone_state(&self) -> TurningGrilleCrackerMilestoneState {
        self.milestoneState.crackerMilestoneState
    }

    closed spec fn ready(&self) -> bool {
        &&& self.portionQueue.pending() == Seq::<u64>::empty()
        &&& !self.portionQueue.work_done()
    }

    fn restartCrackerMilestoneState(&mut self, start: Instant) {
        self.milestoneState.crackerMilestoneState.start = start;
        self.milestoneState.crackerMilestoneState.milestoneStart = start;
    }

    fn cloneCrackerMilestoneState(&self) -> (r: TurningGrilleCrackerMilestoneState) {
        self.milestoneState.crackerMilestoneState
    }

    fn bruteForce(&mut self, cracker: &mut TurningGrilleCracker) {
        let ghost cipher = cracker.spec_cipher();
        let ghost trie = cracker.spec_trie();
        let ghost h = cracker.half();
        let halfSideLength: usize = cracker.sideLength / 2;
        proof {
            assert(halfSideLength * halfSideLength <= 32) by (nonlinear_arith)
                requires
                    halfSideLength == cracker.half() && cracker.half() * cracker.half() <= 32,
            ;
            assert(accepted_upto(cipher, trie, h, 0) =~= Set::<Seq<u8>>::empty());
            assert(range_seq(0, 0) =~= Seq::<u64>::empty());
        }
        let grilleCount: u64 = cracker.grilleCount;
        let producerCount: usize = self.producerCount;

        // the initial consumers come up; in a concurrent deployment they are
        // threads, here the consumer count and the interleaved consumption
        // below model them
        self.consumerCount = self.initialConsumerCount;

        let intervalLength: u64 = roundedIntervalLength(grilleCount, producerCount);
        let mut nextIntervalBegin: u64 = 0;
        let mut producer: usize = 0;
        while producer < producerCount
            invariant
                producer <= producerCount,
                producerCount == self.producerCount,
                self.wf(),
                self.consumerCount >= 1,
                !self.portionQueue.work_done(),
                cracker.wf(),
                cracker.same_config(old(cracker)),
                cipher == cracker.spec_cipher(),
                trie == cracker.spec_trie(),
                h == cracker.half(),
                halfSideLength == cracker.half(),
                grilleCount == cracker.spec_grille_count(),
                cracker.spec_grille_count() == pow4(h * h),
                cracker.spec_count() <= nextIntervalBegin <= grilleCount,
                producer == producerCount ==> nextIntervalBegin == grilleCount,
                self.portionQueue.pending() == range_seq(cracker.spec_count(), nextIntervalBegin),
                cracker.spec_candidates() == accepted_upto(
                    cipher,
                    trie,
                    h,
                    cracker.spec_count() as nat,
                ),
                self.milestone_floor() <= cracker.spec_count(),
            decreases producerCount - producer,
        {
            let nextIntervalEnd: u64 = if producer < producerCount - 1 {
                let room: u64 = grilleCount - nextIntervalBegin;
                if intervalLength <= room {
                    nextIntervalBegin + intervalLength
                } else {
                    grilleCount
                }
            } else {
                grilleCount
            };
            let mut grilleInterval = GrilleInterval::new(
                halfSideLength,
                nextIntervalBegin,
                nextIntervalEnd,
            );
            let mut emitted: u64 = nextIntervalBegin;

            loop
                invariant
                    producerCount == self.producerCount,
                    self.wf(),
                    self.consumerCount >= 1,
                    !self.portionQueue.work_done(),
                    cracker.wf(),
                    cracker.same_config(old(cracker)),
                    cipher == cracker.spec_cipher(),
                    trie == cracker.spec_trie(),
                    h == cracker.half(),
                    halfSideLength == cracker.half(),
                    grilleCount == cracker.spec_grille_count(),
                    cracker.spec_grille_count() == pow4(h * h),
                    grilleInterval.wf(),
                    grilleInterval.h() == h,
                    grilleInterval.end_ord() == nextIntervalEnd,
                    nextIntervalEnd <= grilleCount,
                    grilleInterval.next_ord() == emitted,
                    cracker.spec_count() <= emitted <= nextIntervalEnd,
                    self.portionQueue.pending() == range_seq(cracker.spec_count(), emitted),
                    cracker.spec_candidates() == accepted_upto(
                        cipher,
                        trie,
                        h,
                        cracker.spec_count() as nat,
                    ),
                    self.milestone_floor() <= cracker.spec_count(),
                ensures
                    producerCount == self.producerCount,
                    self.wf(),
                    self.consumerCount >= 1,
                    !self.portionQueue.work_done(),
                    cracker.wf(),
                    cracker.same_config(old(cracker)),
                    cipher == cracker.spec_cipher(),
                    trie == cracker.spec_trie(),
                    h == cracker.half(),
                    halfSideLength == cracker.half(),
                    grilleCount == cracker.spec_grille_count(),
                    cracker.spec_count() <= nextIntervalEnd,
                    self.portionQueue.pending() == range_seq(
                        cracker.spec_count(),
                        nextIntervalEnd,
                    ),
                    cracker.spec_candidates() == accepted_upto(
                        cipher,
                        trie,
                        h,
                        cracker.spec_count() as nat,
                    ),
                    self.milestone_floor() <= cracker.spec_count(),
                decreases nextIntervalEnd - emitted,
            {
                let ghost ordinal = grilleInterval.next_ord();
                let grille: Option<Grille> = grilleInterval.cloneNext();
                match grille {
                    None => {
                        break ;
                    },
                    Some(grille) => {
                        // the blocking `put`: while the queue is full, the
                        // consumers run until there is room
                        while self.portionQueue.getSize() == self.portionQueue.getMaxSize()
                            invariant
                                self.wf(),
                                self.consumerCount >= 1,
                                !self.portionQueue.work_done(),
                                cracker.wf(),
                                cracker.same_config(old(cracker)),
                                cipher == cracker.spec_cipher(),
                                trie == cracker.spec_trie(),
                                h == cracker.half(),
                                grilleCount == cracker.spec_grille_count(),
                                cracker.spec_grille_count() == pow4(h * h),
                                producerCount == self.producerCount,
                                cracker.spec_count() <= emitted <= nextIntervalEnd,
                                nextIntervalEnd <= grilleCount,
                                self.portionQueue.pending() == range_seq(
                                    cracker.spec_count(),
                                    emitted,
                                ),
                                cracker.spec_candidates() == accepted_upto(
                                    cipher,
                                    trie,
                                    h,
                                    cracker.spec_count() as nat,
                                ),
                                self.milestone_floor() <= cracker.spec_count(),
                            decreases self.portionQueue.spec_size(),
                        {
                            proof {
                                self.portionQueue.lemma_size_when_active();
                            }
                            self.consumeOne(cracker, emitted);
                        }
                        proof {
                            self.portionQueue.lemma_size_when_active();
                            self.portionQueue.lemma_size_bounded();
                        }
                        self.portionQueue.addPortion(emitted);
                        proof {
                            assert(grille.ord() == ordinal % pow4(h * h));
                            assert(self.portionQueue.pending() =~= range_seq(
                                cracker.spec_count(),
                                (emitted + 1) as u64,
                            ));
                        }
                        emitted = emitted + 1;
                    },
                }
            }
            nextIntervalBegin = nextIntervalEnd;
            producer = producer + 1;
        }

        // the producers are done: drain the queue, as the controller would
        // after joining the producer threads
        while !self.portionQueue.ensureAllPortionsAreRetrieved()
            invariant
                self.wf(),
                self.consumerCount >= 1,
                !self.portionQueue.work_done(),
                cracker.wf(),
                cracker.same_config(old(cracker)),
                cipher == cracker.spec_cipher(),
                trie == cracker.spec_trie(),
                h == cracker.half(),
                grilleCount == cracker.spec_grille_count(),
                cracker.spec_grille_count() == pow4(h * h),
                cracker.spec_count() <= grilleCount,
                self.portionQueue.pending() == range_seq(cracker.spec_count(), grilleCount),
                cracker.spec_candidates() == accepted_upto(
                    cipher,
                    trie,
                    h,
                    cracker.spec_count() as nat,
                ),
                self.milestone_floor() <= cracker.spec_count(),
            decreases self.portionQueue.pending().len(),
        {
            self.consumeOne(cracker, grilleCount);
        }
        proof {
            assert(range_seq(cracker.spec_count(), grilleCount).len() == 0);
            assert(cracker.spec_count() == grilleCount);
        }

        // all grilles are accounted for, so no tuner is in flight; announce
        // the end of the work to the surviving consumers
        let finalConsumerCount: usize = self.consumerCount;
        self.portionQueue.stopConsumers(finalConsumerCount);

        // the consumers observe the end of the work and exit
        while self.consumerCount > 0
            invariant
                self.wf(),
                self.portionQueue.pending().len() == 0,
                self.consumerCount == 0 || self.portionQueue.can_stop(
                    self.consumerCount as nat,
                ),
            decreases self.consumerCount,
        {
            proof {
                self.portionQueue.lemma_can_stop_monotone(1, self.consumerCount as nat);
            }
            let portion = self.portionQueue.retrievePortion();
            match portion {
                None => {
                    proof {
                        assert(self.portionQueue.can_stop((self.consumerCount - 1) as nat));
                    }
                    self.consumerCount = self.consumerCount - 1;
                },
                Some(_) => {
                    // the queue stays empty once drained
                    vstd::pervasive::unreached::<()>()
                },
            }
        }
    }

    fn tryMilestone(
        &mut self,
        cracker: &TurningGrilleCracker,
        milestoneEnd: Instant,
        grilleCountSoFar: u64,
    ) {
        self.milestoneTick(cracker, milestoneEnd, grilleCountSoFar);
    }

    fn milestonesSummary(&self, _cracker: &TurningGrilleCracker) -> (r: String) {
        let mut ret = String::new();
        ret.append("best consumer count: ");
        ret.append(u64ToString(self.milestoneState.bestConsumerCount as u64).as_str());
        ret
    }
}

} // verus!
