//! A turning grille for a square of side `2 * halfSideLength`, encoded as a
//! little-endian base-4 odometer: one digit per cell of the first quadrant,
//! naming the rotation in which that cell is a hole.
use vstd::prelude::*;

verus! {

/// `4^n`, the number of grilles with `n` odometer digits.
pub open spec fn pow4(n: nat) -> nat
    decreases n,
{
    if n == 0 {
        1
    } else {
        4 * pow4((n - 1) as nat)
    }
}

/// The ordinal named by a little-endian base-4 digit sequence.
pub open spec fn ord_of(digits: Seq<u8>) -> nat
    decreases digits.len(),
{
    if digits.len() == 0 {
        0
    } else {
        (digits[0] + 4 * ord_of(digits.drop_first())) as nat
    }
}

/// Digit `i` of the base-4 expansion of `ordinal`.
pub open spec fn base4_digit(ordinal: nat, i: nat) -> nat {
    (ordinal / pow4(i)) % 4
}

/// All digits are base-4 digits.
pub open spec fn digits_wf(digits: Seq<u8>) -> bool {
    forall|i: int| 0 <= i < digits.len() ==> digits[i] < 4
}

pub proof fn lemma_pow4_pos(n: nat)
    ensures
        pow4(n) >= 1,
    decreases n,
{
    if n > 0 {
        lemma_pow4_pos((n - 1) as nat);
    }
}

pub struct Grille {
    halfSideLength: usize,
    holes: Vec<u8>,
}

impl Grille {
    /// Half the side length of the square the grille covers.
    pub closed spec fn h(&self) -> nat {
        self.halfSideLength as nat
    }

    /// The odometer digits, one per cell of the first quadrant.
    pub closed spec fn digits(&self) -> Seq<u8> {
        self.holes@
    }

    pub open spec fn wf(&self) -> bool {
        &&& self.digits().len() == self.h() * self.h()
        &&& self.h() * self.h() <= usize::MAX
        &&& digits_wf(self.digits())
    }

    /// The ordinal of this grille among all grilles of the same half side.
    pub open spec fn ord(&self) -> nat {
        ord_of(self.digits())
    }

    /// Builds the grille whose digits are the base-4 expansion of `ordinal`
    /// (digits beyond the expansion are zero).
    pub fn new(halfSideLength: usize, ordinal: u64) -> (r: Grille)
        requires
            halfSideLength * halfSideLength <= usize::MAX,
        ensures
            r.wf(),
            r.h() == halfSideLength,
            forall|i: int|
                0 <= i < r.digits().len() ==> r.digits()[i] == base4_digit(ordinal as nat, i as nat),
            r.ord() == (ordinal as nat) % pow4((halfSideLength * halfSideLength) as nat),
    {
        let n: usize = halfSideLength * halfSideLength;
        let mut holes: Vec<u8> = Vec::new();
        let mut ord: u64 = ordinal;
        let mut i: usize = 0;
        proof {
            assert(pow4(0) == 1);
            assert((ordinal as nat) / 1 == ordinal as nat) by (nonlinear_arith);
        }
        while i < n
            invariant
                i <= n,
                holes@.len() == i,
                ord as nat == (ordinal as nat) / pow4(i as nat),
                forall|k: int| 0 <= k < i ==> holes@[k] == base4_digit(ordinal as nat, k as nat),
                forall|k: int| 0 <= k < i ==> holes@[k] < 4,
            decreases n - i,
        {
            proof {
                lemma_pow4_pos(i as nat);
                vstd::arithmetic::div_mod::lemma_div_denominator(ordinal as int, pow4(i as nat) as int, 4);
            }
            holes.push((ord % 4) as u8);
            ord = ord / 4;
            i = i + 1;
        }
        let r = Grille { halfSideLength, holes };
        proof {
            lemma_ord_of_expansion(ordinal as nat, r.digits());
        }
        r
    }

    /// Advances the odometer by one, wrapping around after the last grille.
    pub fn increment(&mut self)
        requires
            old(self).wf(),
        ensures
            final(self).wf(),
            final(self).h() == old(self).h(),
            final(self).ord() == (old(self).ord() + 1) % pow4(old(self).digits().len()),
    {
        let n: usize = self.holes.len();
        let mut i: usize = 0;
        loop
            invariant
                old(self).wf(),
                old(self).digits().len() == n,
                self.wf(),
                self.h() == old(self).h(),
                n == self.digits().len(),
                i <= n,
                forall|k: int| 0 <= k < i ==> old(self).digits()[k] == 3,
                forall|k: int| 0 <= k < i ==> self.digits()[k] == 0,
                forall|k: int| i <= k < n ==> self.digits()[k] == old(self).digits()[k],
            ensures
                i == n,
                self.wf(),
                self.h() == old(self).h(),
                n == self.digits().len(),
                forall|k: int| 0 <= k < n ==> old(self).digits()[k] == 3,
                forall|k: int| 0 <= k < n ==> self.digits()[k] == 0,
            decreases n - i,
        {
            if i >= n {
                break;
            }
            let d: u8 = self.holes[i];
            if d < 3 {
                self.holes.set(i, d + 1);
                proof {
                    lemma_increment_carries(old(self).digits(), self.digits(), i as int);
                }
                return;
            }
            self.holes.set(i, 0);
            i = i + 1;
        }
        proof {
            lemma_increment_wraps(old(self).digits(), self.digits());
        }
    }
}

/// The x coordinate of `(x, y)` rotated back by `r` quarter turns in an
/// `s`-sided square.
pub open spec fn orig_x(s: int, x: int, y: int, r: int) -> int {
    if r == 0 {
        x
    } else if r == 1 {
        y
    } else if r == 2 {
        s - 1 - x
    } else {
        s - 1 - y
    }
}

/// The y coordinate of `(x, y)` rotated back by `r` quarter turns.
pub open spec fn orig_y(s: int, x: int, y: int, r: int) -> int {
    if r == 0 {
        y
    } else if r == 1 {
        s - 1 - x
    } else if r == 2 {
        s - 1 - y
    } else {
        x
    }
}

/// The quadrant of a cell: 0 top-left, 1 top-right, 2 bottom-right,
/// 3 bottom-left.
pub open spec fn quadrant_of(h: int, ox: int, oy: int) -> int {
    if ox < h {
        if oy < h {
            0
        } else {
            3
        }
    } else {
        if oy < h {
            1
        } else {
            2
        }
    }
}

/// The x coordinate of the first-quadrant cell on the rotational orbit of
/// `(ox, oy)`.
pub open spec fn canon_x(h: int, ox: int, oy: int) -> int {
    let q = quadrant_of(h, ox, oy);
    if q == 0 {
        ox
    } else if q == 1 {
        oy
    } else if q == 2 {
        2 * h - 1 - ox
    } else {
        2 * h - 1 - oy
    }
}

/// The y coordinate of the first-quadrant cell on the rotational orbit of
/// `(ox, oy)`.
pub open spec fn canon_y(h: int, ox: int, oy: int) -> int {
    let q = quadrant_of(h, ox, oy);
    if q == 0 {
        oy
    } else if q == 1 {
        2 * h - 1 - ox
    } else if q == 2 {
        2 * h - 1 - oy
    } else {
        ox
    }
}

/// Whether `(x, y)` shows a hole when a grille with digits `digits` and half
/// side `h` lies in rotation `r`: rotate the cell back to its position under
/// rotation 0, find its first-quadrant representative, and compare the digit
/// there with the cell's quadrant.
pub open spec fn hole_at(h: int, digits: Seq<u8>, x: int, y: int, r: int) -> bool {
    let ox = orig_x(2 * h, x, y, r);
    let oy = orig_y(2 * h, x, y, r);
    digits[canon_x(h, ox, oy) * h + canon_y(h, ox, oy)] == quadrant_of(h, ox, oy)
}

impl Grille {
    pub open spec fn is_hole(&self, x: int, y: int, r: int) -> bool {
        hole_at(self.h() as int, self.digits(), x, y, r)
    }

    pub fn isHole(&self, x: usize, y: usize, rotation: usize) -> (r: bool)
        requires
            self.wf(),
            x < 2 * self.h(),
            y < 2 * self.h(),
            rotation < 4,
        ensures
            r == self.is_hole(x as int, y as int, rotation as int),
    {
        proof {
            lemma_double_at_most_square(self.halfSideLength as int);
        }
        let sideLength: usize = self.halfSideLength * 2;

        let origX: usize;
        let origY: usize;
        if rotation == 0 {
            origX = x;
            origY = y;
        } else if rotation == 1 {
            origX = y;
            origY = sideLength - 1 - x;
        } else if rotation == 2 {
            origX = sideLength - 1 - x;
            origY = sideLength - 1 - y;
        } else {
            origX = sideLength - 1 - y;
            origY = x;
        }

        let quadrant: u8;
        let holeX: usize;
        let holeY: usize;
        if origX < self.halfSideLength {
            if origY < self.halfSideLength {
                quadrant = 0;
                holeX = origX;
                holeY = origY;
            } else {
                quadrant = 3;
                holeX = sideLength - 1 - origY;
                holeY = origX;
            }
        } else {
            if origY < self.halfSideLength {
                quadrant = 1;
                holeX = origY;
                holeY = sideLength - 1 - origX;
            } else {
                quadrant = 2;
                holeX = sideLength - 1 - origX;
                holeY = sideLength - 1 - origY;
            }
        }
        proof {
            lemma_cell_index_in_range(self.halfSideLength as int, holeX as int, holeY as int);
        }
        self.holes[holeX * self.halfSideLength + holeY] == quadrant
    }
}

/// For a positive cell count, twice the half side fits whenever its square
/// does.
proof fn lemma_double_at_most_square(h: int)
    requires
        0 <= h,
        h * h <= usize::MAX,
    ensures
        2 * h <= usize::MAX,
{
    if h >= 2 {
        assert(2 * h <= h * h) by (nonlinear_arith)
            requires
                h >= 2,
        ;
    }
}

proof fn lemma_cell_index_in_range(h: int, cx: int, cy: int)
    requires
        0 <= cx < h,
        0 <= cy < h,
    ensures
        0 <= cx * h + cy < h * h,
{
    assert(cx * h + cy < h * h) by (nonlinear_arith)
        requires
            0 <= cx < h,
            0 <= cy < h,
    ;
    assert(cx * h >= 0) by (nonlinear_arith)
        requires
            cx >= 0,
            h > 0,
    ;
}

/// The four quarter turns of a cell visit the four quadrants once each,
/// always over the same first-quadrant representative.
proof fn lemma_orbit(h: int, x: int, y: int, r: int)
    requires
        h > 0,
        0 <= x < 2 * h,
        0 <= y < 2 * h,
        0 <= r < 4,
    ensures
        canon_x(h, orig_x(2 * h, x, y, r), orig_y(2 * h, x, y, r)) == canon_x(h, x, y),
        canon_y(h, orig_x(2 * h, x, y, r), orig_y(2 * h, x, y, r)) == canon_y(h, x, y),
        quadrant_of(h, orig_x(2 * h, x, y, r), orig_y(2 * h, x, y, r)) == (
        if quadrant_of(h, x, y) >= r {
            quadrant_of(h, x, y) - r
        } else {
            quadrant_of(h, x, y) - r + 4
        }),
{
}

/// The four rotations of a well-formed grille tile the square exactly once:
/// every cell is a hole in exactly one rotation.
pub proof fn lemma_rotations_tile(h: int, digits: Seq<u8>, x: int, y: int)
    requires
        h > 0,
        digits.len() == h * h,
        digits_wf(digits),
        0 <= x < 2 * h,
        0 <= y < 2 * h,
    ensures
        exists|r: int| 0 <= r < 4 && hole_at(h, digits, x, y, r),
        forall|r1: int, r2: int|
            0 <= r1 < 4 && 0 <= r2 < 4 && hole_at(h, digits, x, y, r1) && hole_at(
                h,
                digits,
                x,
                y,
                r2,
            ) ==> r1 == r2,
{
    let q0 = quadrant_of(h, x, y);
    lemma_cell_index_in_range(h, canon_x(h, x, y), canon_y(h, x, y));
    let c = digits[canon_x(h, x, y) * h + canon_y(h, x, y)] as int;
    assert(0 <= c < 4);
    assert forall|r: int| 0 <= r < 4 implies hole_at(h, digits, x, y, r) == (c == (
    if q0 >= r {
        q0 - r
    } else {
        q0 - r + 4
    })) by {
        lemma_orbit(h, x, y, r);
    }
    let rw = if q0 >= c {
        q0 - c
    } else {
        q0 - c + 4
    };
    assert(0 <= rw < 4 && hole_at(h, digits, x, y, rw));
}

impl Clone for Grille {
    /// A clone is digit-for-digit the same grille.
    fn clone(&self) -> (r: Self)
        ensures
            r.h() == self.h(),
            r.digits() == self.digits(),
    {
        Grille { halfSideLength: self.halfSideLength, holes: self.holes.clone() }
    }
}

/// Reading off the base-4 expansion of `ordinal` yields `ordinal` modulo the
/// digit range.
proof fn lemma_ord_of_expansion(ordinal: nat, digits: Seq<u8>)
    requires
        forall|i: int| 0 <= i < digits.len() ==> digits[i] == base4_digit(ordinal, i as nat),
    ensures
        ord_of(digits) == ordinal % pow4(digits.len()),
    decreases digits.len(),
{
    if digits.len() == 0 {
        assert(ordinal % 1 == 0) by (nonlinear_arith);
    } else {
        let rest = digits.drop_first();
        assert forall|i: int| 0 <= i < rest.len() implies rest[i] == base4_digit(ordinal / 4, i as nat) by {
            assert(rest[i] == digits[i + 1]);
            lemma_pow4_pos(i as nat);
            vstd::arithmetic::div_mod::lemma_div_denominator(ordinal as int, 4, pow4(i as nat) as int);
            assert(pow4((i + 1) as nat) == 4 * pow4(i as nat));
            assert(ordinal / pow4((i + 1) as nat) == (ordinal / 4) / pow4(i as nat));
        }
        lemma_ord_of_expansion(ordinal / 4, rest);
        let m = pow4((digits.len() - 1) as nat);
        lemma_pow4_pos((digits.len() - 1) as nat);
        vstd::arithmetic::div_mod::lemma_mod_breakdown(ordinal as int, 4, m as int);
        assert(pow4(0) == 1);
        assert(ordinal / 1 == ordinal) by (nonlinear_arith);
        assert(digits[0] == base4_digit(ordinal, 0));
        assert(digits[0] == ordinal % 4);
        assert(ord_of(digits) == digits[0] + 4 * ord_of(rest));
        assert(pow4(digits.len()) == 4 * m);
    }
}

/// Splitting a digit sequence at `i` splits its ordinal at weight `4^i`.
proof fn lemma_ord_split(digits: Seq<u8>, i: int)
    requires
        0 <= i <= digits.len(),
    ensures
        ord_of(digits) == ord_of(digits.take(i)) + pow4(i as nat) * ord_of(digits.skip(i)),
    decreases i,
{
    if i == 0 {
        assert(digits.take(0).len() == 0);
        assert(ord_of(digits.take(0)) == 0);
        assert(digits.skip(0) =~= digits);
        assert(pow4(0) == 1);
        assert(1 * ord_of(digits) == ord_of(digits)) by (nonlinear_arith);
    } else {
        assert(digits.len() > 0);
        let rest = digits.drop_first();
        lemma_ord_split(rest, i - 1);
        assert(digits.take(i).drop_first() =~= rest.take(i - 1));
        assert(digits.skip(i) =~= rest.skip(i - 1));
        assert(digits.take(i)[0] == digits[0]);
        assert(ord_of(digits.take(i)) == digits[0] + 4 * ord_of(rest.take(i - 1)));
        assert(ord_of(digits) == digits[0] + 4 * ord_of(rest));
        assert(pow4(i as nat) == 4 * pow4((i - 1) as nat));
        let p = pow4((i - 1) as nat) as int;
        let a = ord_of(rest.take(i - 1)) as int;
        let b = ord_of(rest.skip(i - 1)) as int;
        let d0 = digits[0] as int;
        assert(d0 + 4 * (a + p * b) == (d0 + 4 * a) + (4 * p) * b) by (nonlinear_arith);
        assert(ord_of(digits) == ord_of(digits.take(i)) + pow4(i as nat) * ord_of(digits.skip(i)));
    }
}

/// A run of `3` digits names the largest ordinal of its length.
proof fn lemma_ord_all_threes(digits: Seq<u8>)
    requires
        forall|k: int| 0 <= k < digits.len() ==> digits[k] == 3,
    ensures
        ord_of(digits) == pow4(digits.len()) - 1,
    decreases digits.len(),
{
    if digits.len() > 0 {
        lemma_ord_all_threes(digits.drop_first());
    }
}

/// A run of `0` digits names ordinal zero.
proof fn lemma_ord_all_zeros(digits: Seq<u8>)
    requires
        forall|k: int| 0 <= k < digits.len() ==> digits[k] == 0,
    ensures
        ord_of(digits) == 0,
    decreases digits.len(),
{
    if digits.len() > 0 {
        lemma_ord_all_zeros(digits.drop_first());
    }
}

/// Every well-formed digit sequence names an ordinal below `4^len`.
pub proof fn lemma_ord_bound(digits: Seq<u8>)
    requires
        digits_wf(digits),
    ensures
        ord_of(digits) < pow4(digits.len()),
    decreases digits.len(),
{
    if digits.len() > 0 {
        lemma_ord_bound(digits.drop_first());
    }
}

/// Odometer step that stops at position `i`: digits below `i` roll over from
/// `3` to `0` and digit `i` goes up by one, adding exactly one to the ordinal.
proof fn lemma_increment_carries(before: Seq<u8>, after: Seq<u8>, i: int)
    requires
        digits_wf(before),
        digits_wf(after),
        before.len() == after.len(),
        0 <= i < before.len(),
        forall|k: int| 0 <= k < i ==> before[k] == 3,
        forall|k: int| 0 <= k < i ==> after[k] == 0,
        before[i] < 3,
        after[i] == before[i] + 1,
        forall|k: int| i < k < before.len() ==> after[k] == before[k],
    ensures
        ord_of(after) == (ord_of(before) + 1) % pow4(before.len()),
{
    let n = before.len() as int;
    lemma_ord_split(before, i);
    lemma_ord_split(after, i);
    lemma_ord_all_threes(before.take(i));
    lemma_ord_all_zeros(after.take(i));
    assert(before.skip(i).drop_first() =~= after.skip(i).drop_first());
    assert(ord_of(before.skip(i)) + 1 == ord_of(after.skip(i)));
    lemma_pow4_pos(i as nat);
    assert(pow4(i as nat) * ord_of(after.skip(i)) == pow4(i as nat) * ord_of(before.skip(i))
        + pow4(i as nat)) by (nonlinear_arith)
        requires
            ord_of(before.skip(i)) + 1 == ord_of(after.skip(i)),
    ;
    assert(ord_of(after) == ord_of(before) + 1);
    lemma_ord_bound(after);
    vstd::arithmetic::div_mod::lemma_small_mod(ord_of(after), pow4(before.len()));
}

/// Odometer step past the last grille: a grille of all `3`s rolls over to all
/// `0`s, which is the successor ordinal modulo `4^len`.
proof fn lemma_increment_wraps(before: Seq<u8>, after: Seq<u8>)
    requires
        before.len() == after.len(),
        forall|k: int| 0 <= k < before.len() ==> before[k] == 3,
        forall|k: int| 0 <= k < after.len() ==> after[k] == 0,
    ensures
        ord_of(after) == (ord_of(before) + 1) % pow4(before.len()),
{
    lemma_ord_all_threes(before);
    lemma_ord_all_zeros(after);
    lemma_pow4_pos(before.len());
    assert((ord_of(before) + 1) % pow4(before.len()) == 0) by {
        vstd::arithmetic::div_mod::lemma_mod_self_0(pow4(before.len()) as int);
    }
}

/// Adding one inside or outside a modulus is the same.
proof fn lemma_mod_succ(a: nat, p: nat)
    requires
        p >= 1,
    ensures
        (a % p + 1) % p == (a + 1) % p,
{
    if p == 1 {
        assert(a % 1 == 0) by (nonlinear_arith);
        assert((a + 1) % 1 == 0) by (nonlinear_arith);
        assert(1nat % 1 == 0) by (nonlinear_arith);
    } else {
        vstd::arithmetic::div_mod::lemma_small_mod(1, p);
        vstd::arithmetic::div_mod::lemma_add_mod_noop(a as int, 1, p as int);
    }
}

/// A half-open range `[begin, end)` of grille ordinals with a cursor. The
/// stored grille is the one the next call hands out; `preincremented` records
/// whether the odometer already points at it.
pub struct GrilleInterval {
    next: Grille,
    preincremented: bool,
    nextOrdinal: u64,
    end: u64,
}

impl GrilleInterval {
    pub closed spec fn h(&self) -> nat {
        self.next.h()
    }

    /// Number of odometer digits of the grilles handed out.
    pub open spec fn digit_count(&self) -> nat {
        self.h() * self.h()
    }

    /// The ordinal of the next grille to hand out.
    pub closed spec fn next_ord(&self) -> nat {
        self.nextOrdinal as nat
    }

    /// One past the last ordinal of the range.
    pub closed spec fn end_ord(&self) -> nat {
        self.end as nat
    }

    pub closed spec fn wf(&self) -> bool {
        &&& self.next.wf()
        &&& if self.preincremented {
            self.next.ord() == (self.nextOrdinal as nat) % pow4(self.digit_count())
        } else {
            &&& self.nextOrdinal >= 1
            &&& self.next.ord() == ((self.nextOrdinal - 1) as nat) % pow4(self.digit_count())
        }
    }

    /// A fresh interval over `[begin, end)`; the first grille handed out is
    /// the one at ordinal `begin`.
    pub fn new(halfSideLength: usize, begin: u64, end: u64) -> (r: GrilleInterval)
        requires
            halfSideLength * halfSideLength <= usize::MAX,
        ensures
            r.wf(),
            r.h() == halfSideLength,
            r.next_ord() == begin,
            r.end_ord() == end,
    {
        GrilleInterval {
            next: Grille::new(halfSideLength, begin),
            preincremented: true,
            nextOrdinal: begin,
            end: end,
        }
    }

    /// Hands out an owned copy of the next grille of the range, or `None`
    /// once `end - begin` grilles have been handed out.
    pub fn cloneNext(&mut self) -> (r: Option<Grille>)
        requires
            old(self).wf(),
        ensures
            final(self).wf(),
            final(self).h() == old(self).h(),
            final(self).end_ord() == old(self).end_ord(),
            old(self).next_ord() >= old(self).end_ord() ==> r is None && final(self).next_ord()
                == old(self).next_ord(),
            old(self).next_ord() < old(self).end_ord() ==> {
                &&& final(self).next_ord() == old(self).next_ord() + 1
                &&& r matches Some(g) && g.wf() && g.h() == old(self).h() && g.ord() == old(
                    self,
                ).next_ord() % pow4(old(self).digit_count())
            },
    {
        if self.nextOrdinal >= self.end {
            return None;
        }

        if !self.preincremented {
            self.next.increment();
            proof {
                lemma_pow4_pos(self.digit_count());
                lemma_mod_succ((self.nextOrdinal - 1) as nat, pow4(self.digit_count()));
            }
        }

        let current: Grille = self.next.clone();

        self.next.increment();
        proof {
            lemma_pow4_pos(self.digit_count());
            lemma_mod_succ(self.nextOrdinal as nat, pow4(self.digit_count()));
        }
        self.preincremented = true;

        self.nextOrdinal = self.nextOrdinal + 1;
        Some(current)
    }

    /// Loans out the next grille of the range; the loan is valid until the
    /// next call on the interval.
    pub fn getNext(&mut self) -> (r: Option<&Grille>)
        requires
            old(self).wf(),
        ensures
            final(self).wf(),
            final(self).h() == old(self).h(),
            final(self).end_ord() == old(self).end_ord(),
            old(self).next_ord() >= old(self).end_ord() ==> r is None && final(self).next_ord()
                == old(self).next_ord(),
            old(self).next_ord() < old(self).end_ord() ==> {
                &&& final(self).next_ord() == old(self).next_ord() + 1
                &&& r matches Some(g) && g.wf() && g.h() == old(self).h() && g.ord() == old(
                    self,
                ).next_ord() % pow4(old(self).digit_count())
            },
    {
        if self.nextOrdinal >= self.end {
            return None;
        }

        if !self.preincremented {
            self.next.increment();
            proof {
                lemma_pow4_pos(self.digit_count());
                lemma_mod_succ((self.nextOrdinal - 1) as nat, pow4(self.digit_count()));
            }
        }
        self.preincremented = false;

        self.nextOrdinal = self.nextOrdinal + 1;
        Some(&self.next)
    }
}

/// The base-4 expansion of `ordinal`, `n` digits long.
pub open spec fn base4_digits(ordinal: nat, n: nat) -> Seq<u8> {
    Seq::new(n, |i: int| base4_digit(ordinal, i as nat) as u8)
}

/// A well-formed digit sequence is the expansion of its own ordinal: the
/// other half of the grille ordinal round-trip.
pub proof fn lemma_digits_of_ord(digits: Seq<u8>, k: nat)
    requires
        digits_wf(digits),
        ord_of(digits) == k,
        k < pow4(digits.len()),
    ensures
        digits == base4_digits(k, digits.len()),
{
    let n = digits.len();
    let e = base4_digits(k, n);
    assert forall|i: int| 0 <= i < n implies e[i] < 4 by {
        lemma_pow4_pos(i as nat);
    }
    assert(digits_wf(e));
    lemma_ord_of_expansion(k, e);
    vstd::arithmetic::div_mod::lemma_small_mod(k, pow4(n));
    lemma_ord_injective(digits, e);
}

/// Grille ordinal round-trip: two well-formed grilles of the same size with
/// the same ordinal have the same digits, so building a grille at ordinal `k`
/// and reaching ordinal `k` by repeated increments from zero land on the same
/// grille.
pub proof fn lemma_ord_injective(a: Seq<u8>, b: Seq<u8>)
    requires
        digits_wf(a),
        digits_wf(b),
        a.len() == b.len(),
        ord_of(a) == ord_of(b),
    ensures
        a == b,
    decreases a.len(),
{
    if a.len() == 0 {
        assert(a =~= b);
    } else {
        let ra = a.drop_first();
        let rb = b.drop_first();
        assert(a[0] + 4 * ord_of(ra) == b[0] + 4 * ord_of(rb));
        assert(a[0] == b[0] && ord_of(ra) == ord_of(rb)) by (nonlinear_arith)
            requires
                a[0] < 4,
                b[0] < 4,
                a[0] + 4 * ord_of(ra) == b[0] + 4 * ord_of(rb),
        ;
        lemma_ord_injective(ra, rb);
        assert forall|i: int| 0 <= i < a.len() implies a[i] == b[i] by {
            if i > 0 {
                assert(a[i] == ra[i - 1]);
                assert(b[i] == rb[i - 1]);
            }
        }
        assert(a =~= b);
    }
}

} // verus!
