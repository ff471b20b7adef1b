//! The distance of a position from the centre.
use vstd::arithmetic::power2::{lemma_pow2_adds, lemma_pow2_pos, lemma_pow2_unfold, pow2};
use vstd::prelude::*;

use crate::arithmetic::{parts, power_of_two, NAN_BITS};
#[allow(unused_imports)]
use crate::arithmetic::{nan, with_sign};
use crate::rounding::INFINITY_BITS;
#[allow(unused_imports)]
use crate::rounding::{ahead, lemma_place};
use crate::single::Single;
#[allow(unused_imports)]
use crate::single::{lemma_scaled_magnitude_increases, scaled_magnitude};

verus! {

/// The product of a number with itself.
pub open spec fn square(n: int) -> int {
    n * n
}

/// The magnitude bits `m` stand for the number next to the square root of `n`, in units of 2^-149:
/// the root lies between the middle of `m` and its predecessor and the middle of `m` and its
/// successor. In the middle of two, the even one is next.
pub open spec fn is_next_root(m: int, n: int) -> bool {
    &&& 0 <= m <= INFINITY_BITS
    &&& m > 0 ==> ahead(square(scaled_magnitude(m - 1) + scaled_magnitude(m)), 4 * n, m)
    &&& m < INFINITY_BITS ==> ahead(
        4 * n,
        square(scaled_magnitude(m) + scaled_magnitude(m + 1)),
        m,
    )
}

/// The magnitude bits of the number next to the square root of `n`, in units of 2^-149.
pub open spec fn next_root(n: int) -> int {
    choose|m: int| is_next_root(m, n)
}

/// Larger numbers have larger squares.
pub proof fn lemma_squares_increase(a: int, b: int)
    requires
        0 <= a <= b,
    ensures
        0 <= square(a) <= square(b),
        a < b ==> square(a) < square(b),
{
    assert(0 <= a * a <= b * b && (a < b ==> a * a < b * b)) by (nonlinear_arith)
        requires
            0 <= a <= b,
    ;
}

/// Magnitudes are not negative and grow with their bits.
proof fn lemma_ordered(m: int, n: int)
    requires
        0 <= m <= n,
    ensures
        0 <= scaled_magnitude(m) <= scaled_magnitude(n),
        m < n ==> scaled_magnitude(m) < scaled_magnitude(n),
{
    if 0 < m {
        lemma_scaled_magnitude_increases(0, m);
    }
    if m < n {
        lemma_scaled_magnitude_increases(m, n);
    }
}

/// No two numbers are next to the same root.
pub proof fn root_is_unique(a: int, b: int, n: int)
    requires
        is_next_root(a, n),
        is_next_root(b, n),
    ensures
        a == b,
        next_root(n) == a,
{
    lemma_one_root(a, b, n);
    lemma_one_root(b, a, n);
    lemma_one_root(a, next_root(n), n);
    lemma_one_root(next_root(n), a, n);
}

proof fn lemma_one_root(a: int, b: int, n: int)
    requires
        is_next_root(a, n),
        is_next_root(b, n),
    ensures
        b <= a,
{
    if a + 1 < b {
        lemma_ordered(a, b - 1);
        lemma_ordered(a + 1, b);
        lemma_ordered(0, a);
        lemma_ordered(0, a + 1);
        lemma_squares_increase(
            scaled_magnitude(a) + scaled_magnitude(a + 1),
            scaled_magnitude(b - 1) + scaled_magnitude(b),
        );
    }
}

/// The number next to a root is the number just below it or the one just above it.
proof fn lemma_root_of_neighbours(b: int, n: int)
    requires
        0 <= b,
        square(scaled_magnitude(b)) <= n < square(scaled_magnitude(b + 1)),
    ensures
        ({
            let edge = square(scaled_magnitude(b) + scaled_magnitude(b + 1));
            &&& b < INFINITY_BITS && ahead(4 * n, edge, b) ==> is_next_root(b, n)
            &&& b < INFINITY_BITS && ahead(edge, 4 * n, b + 1) ==> is_next_root(b + 1, n)
            &&& b >= INFINITY_BITS ==> is_next_root(INFINITY_BITS as int, n)
        }),
{
    let here = scaled_magnitude(b);
    let next = scaled_magnitude(b + 1);
    let after = scaled_magnitude(b + 2);
    lemma_ordered(0, b);
    lemma_ordered(b, b + 1);
    lemma_ordered(b + 1, b + 2);
    lemma_doubled(here);
    lemma_doubled(next);
    lemma_squares_increase(2 * next, next + after);
    if b > 0 {
        let before = scaled_magnitude(b - 1);
        lemma_ordered(b - 1, b);
        lemma_squares_increase(before + here, 2 * here);
    }
    if b >= INFINITY_BITS {
        let top = scaled_magnitude(INFINITY_BITS as int);
        let under = scaled_magnitude(INFINITY_BITS - 1);
        lemma_ordered(INFINITY_BITS - 1, INFINITY_BITS as int);
        lemma_ordered(INFINITY_BITS as int, b);
        lemma_squares_increase(under + top, 2 * here);
    }
}

/// The square of a doubled number.
proof fn lemma_doubled(n: int)
    ensures
        square(2 * n) == 4 * square(n),
{
    assert((2 * n) * (2 * n) == 4 * (n * n)) by (nonlinear_arith);
}

/// There is a number next to every root.
pub proof fn root_exists(n: int)
    requires
        n >= 0,
    ensures
        is_next_root(next_root(n), n),
{
    assert(scaled_magnitude(0) == 0);
    assert(square(0) == 0);
    lemma_root_from(n, 0);
}

proof fn lemma_root_from(n: int, b: int)
    requires
        0 <= b <= INFINITY_BITS,
        square(scaled_magnitude(b)) <= n,
    ensures
        is_next_root(next_root(n), n),
    decreases INFINITY_BITS - b,
{
    if n < square(scaled_magnitude(b + 1)) {
        lemma_root_of_neighbours(b, n);
        assert(is_next_root(b, n) || is_next_root(b + 1, n) || is_next_root(
            INFINITY_BITS as int,
            n,
        ));
    } else if b == INFINITY_BITS {
        let (top, under) = (scaled_magnitude(b), scaled_magnitude(b - 1));
        lemma_ordered(b - 1, b);
        lemma_ordered(0, b - 1);
        lemma_doubled(top);
        lemma_squares_increase(under + top, 2 * top);
        assert(is_next_root(b, n));
    } else {
        lemma_root_from(n, b + 1);
    }
}

impl Single {
    /// The distance of the position with these coordinates from the centre: the number next to the
    /// exact distance.
    #[verifier::opaque]
    pub open spec fn distance(self, other: Single) -> Single {
        if self.is_infinite() || other.is_infinite() {
            with_sign(INFINITY_BITS as int, false)
        } else if self.is_nan() || other.is_nan() {
            nan()
        } else {
            with_sign(next_root(square(self.size()) + square(other.size())), false)
        }
    }

    /// The distance of the position with these coordinates from the centre.
    pub fn hypot(self, other: Single) -> (r: Single)
        ensures
            r == self.distance(other),
    {
        proof {
            reveal(Single::distance);
        }
        let (a, b) = (self.magnitude_bits(), other.magnitude_bits());
        if a == INFINITY_BITS || b == INFINITY_BITS {
            return Single::from_bits(INFINITY_BITS);
        }
        if self.not_a_number() || other.not_a_number() {
            return Single::from_bits(NAN_BITS);
        }
        if a >= b {
            Single::from_bits(root_of_squares(a, b))
        } else {
            Single::from_bits(root_of_squares(b, a))
        }
    }
}

/// The magnitude bits of the number next to the root of the sum of the squares of two magnitudes,
/// the first of which is not below the second.
fn root_of_squares(high: u32, low: u32) -> (m: u32)
    requires
        low <= high < INFINITY_BITS,
    ensures
        m == next_root(
            square(scaled_magnitude(high as int)) + square(scaled_magnitude(low as int)),
        ),
        m <= INFINITY_BITS,
{
    let ghost sum = square(scaled_magnitude(high as int)) + square(scaled_magnitude(low as int));
    let (fh, eh) = parts(high);
    let (fl, el) = parts(low);
    let gap: u32 = eh - el;
    if gap > 12 {
        proof {
            lemma_far_root(high as int, low as int, fh as int, eh as nat, fl as int, el as nat);
            root_is_unique(high as int, high as int, sum);
        }
        return high;
    }
    let scale: u128 = power_of_two(gap);
    proof {
        lemma_scale(gap as nat);
        lemma_sum_fits(fh * scale, fl as int, fh as int, scale as int);
    }
    let wide: u128 = (fh as u128) * scale;
    let narrow: u128 = fl as u128;
    proof {
        if el > 0 {
            lemma_squares_increase(0x80_0000, wide as int);
            assert(square(0x80_0000) == 0x4000_0000_0000);
        }
    }
    let n: u128 = wide * wide + narrow * narrow;
    let (q, t): (u64, u32) = integer_root(n, el > 0);
    let e: u32 = el + t;
    let step: u128 = power_of_two(t);
    proof {
        lemma_scale(t as nat);
        lemma_middle_fits(q as int, step as int);
    }
    let middle: u128 = (2 * (q as u128) + 1) * step;
    let up: bool = 4 * n > middle * middle || (4 * n == middle * middle && q % 2 == 1);
    let b: u64 = (e as u64) * 0x80_0000 + q;
    proof {
        lemma_near_root(
            high as int,
            low as int,
            fh as int,
            eh as nat,
            fl as int,
            el as nat,
            n as int,
            q as int,
            t as nat,
        );
        assert(b % 2 == q % 2);
    }
    let rounded: u64 = if up { b + 1 } else { b };
    let m: u32 = if rounded >= INFINITY_BITS as u64 { INFINITY_BITS } else { rounded as u32 };
    proof {
        assert(is_next_root(m as int, sum));
        root_is_unique(m as int, m as int, sum);
    }
    m
}

/// Small powers of two.
proof fn lemma_scale(t: nat)
    requires
        t <= 13,
    ensures
        1 <= pow2(t) <= 0x2000,
        t <= 12 ==> pow2(t) <= 0x1000,
{
    vstd::arithmetic::power2::lemma2_to64();
    lemma_pow2_pos(t);
    if t < 13 {
        vstd::arithmetic::power2::lemma_pow2_strictly_increases(t, 13);
    }
    if t < 12 {
        vstd::arithmetic::power2::lemma_pow2_strictly_increases(t, 12);
    }
}

/// The sum of the squares of two aligned significands is small enough.
proof fn lemma_sum_fits(wide: int, narrow: int, f: int, scale: int)
    requires
        wide == f * scale,
        0 <= f < 0x100_0000,
        1 <= scale <= 0x1000,
        0 <= narrow < 0x100_0000,
    ensures
        0 <= wide < 0x10_0000_0000,
        wide >= f,
        0 <= wide * wide,
        0 <= narrow * narrow,
        wide * wide + narrow * narrow < 0x200_0000_0000_0000_0000,
{
    assert(0 <= wide < 0x10_0000_0000 && wide >= f) by (nonlinear_arith)
        requires
            wide == f * scale,
            0 <= f < 0x100_0000,
            1 <= scale <= 0x1000,
    ;
    assert(0 <= wide * wide < 0x100_0000_0000_0000_0000) by (nonlinear_arith)
        requires
            0 <= wide < 0x10_0000_0000,
    ;
    assert(0 <= narrow * narrow < 0x1_0000_0000_0000) by (nonlinear_arith)
        requires
            0 <= narrow < 0x100_0000,
    ;
}

/// The middle behind a root is small enough to be squared.
proof fn lemma_middle_fits(q: int, step: int)
    requires
        0 <= q < 0x100_0000,
        1 <= step <= 0x2000,
    ensures
        0 <= (2 * q + 1) * step < 0x40_0000_0000,
        0 <= ((2 * q + 1) * step) * ((2 * q + 1) * step) < 0x1000_0000_0000_0000_0000,
{
    let middle = (2 * q + 1) * step;
    assert(0 <= middle < 0x40_0000_0000) by (nonlinear_arith)
        requires
            middle == (2 * q + 1) * step,
            0 <= q < 0x100_0000,
            1 <= step <= 0x2000,
    ;
    assert(0 <= middle * middle < 0x1000_0000_0000_0000_0000) by (nonlinear_arith)
        requires
            0 <= middle < 0x40_0000_0000,
    ;
}

/// The root of `n` as a significand `q` and an exponent `t`, rounded down. It has all its bits where
/// the exponent is not zero, or where that is known.
fn integer_root(n: u128, full: bool) -> (r: (u64, u32))
    requires
        n < 0x200_0000_0000_0000_0000,
        full ==> n >= 0x4000_0000_0000,
    ensures
        r.0 < 0x100_0000,
        r.1 <= 13,
        square(r.0 * pow2(r.1 as nat)) <= n < square((r.0 + 1) * pow2(r.1 as nat)),
        r.1 > 0 || full ==> r.0 >= 0x80_0000,
{
    let mut t: u32 = 0;
    let mut step: u128 = 1;
    let mut bound: u128 = 0x1_0000_0000_0000;
    proof {
        vstd::arithmetic::power2::lemma2_to64();
        assert(square(0x100_0000) == 0x1_0000_0000_0000);
    }
    while n >= bound
        invariant
            n < 0x200_0000_0000_0000_0000,
            t <= 13,
            step == pow2(t as nat),
            1 <= step <= 0x2000,
            pow2(13) == 0x2000,
            bound == square(0x100_0000 * step),
            t > 0 ==> n >= square(0x80_0000 * step),
        decreases 13 - t,
    {
        proof {
            lemma_pow2_unfold((t + 1) as nat);
            if t == 13 {
                assert(square(0x20_0000_0000) == 0x400_0000_0000_0000_0000);
            }
            lemma_scale((t + 1) as nat);
            lemma_doubled(0x100_0000 * step);
        }
        t = t + 1;
        step = step * 2;
        bound = bound * 4;
    }
    let mut low: u64 = if t > 0 || full { 0x80_0000 } else { 0 };
    let mut high: u64 = 0x100_0000;
    proof {
        assert(square(0 * step) == 0);
        assert(square(0x80_0000) == 0x4000_0000_0000);
    }
    while high - low > 1
        invariant
            0 <= low < high <= 0x100_0000,
            1 <= step <= 0x2000,
            step == pow2(t as nat),
            square(low * step) <= n < square(high * step),
            t > 0 || full ==> low >= 0x80_0000,
        decreases high - low,
    {
        let middle: u64 = low + (high - low) / 2;
        proof {
            let (a, s) = (middle as int, step as int);
            assert(0 <= a * s <= 0x20_0000_0000) by (nonlinear_arith)
                requires
                    0 <= a <= 0x100_0000,
                    1 <= s <= 0x2000,
            ;
            let p = a * s;
            assert(0 <= p * p <= 0x400_0000_0000_0000_0000) by (nonlinear_arith)
                requires
                    0 <= p <= 0x20_0000_0000,
            ;
        }
        let at: u128 = (middle as u128) * step;
        if at * at <= n {
            low = middle;
        } else {
            high = middle;
        }
    }
    (low, t)
}

/// What is known of the root of the sum of the squares of two magnitudes, in units of the last place
/// of the smaller one.
proof fn lemma_near_root(
    high: int,
    low: int,
    fh: int,
    eh: nat,
    fl: int,
    el: nat,
    n: int,
    q: int,
    t: nat,
)
    requires
        scaled_magnitude(high) == fh * pow2(eh),
        scaled_magnitude(low) == fl * pow2(el),
        el <= eh,
        n == square(fh * pow2((eh - el) as nat)) + square(fl),
        0 <= q < 0x100_0000,
        t > 0 || el > 0 ==> q >= 0x80_0000,
        square(q * pow2(t)) <= n < square((q + 1) * pow2(t)),
    ensures
        ({
            let sum = square(scaled_magnitude(high)) + square(scaled_magnitude(low));
            let b = (el + t) * 0x80_0000 + q;
            let middle = square((2 * q + 1) * pow2(t));
            &&& b < INFINITY_BITS && ahead(4 * n, middle, b) ==> is_next_root(b, sum)
            &&& b < INFINITY_BITS && ahead(middle, 4 * n, b + 1) ==> is_next_root(b + 1, sum)
            &&& b >= INFINITY_BITS ==> is_next_root(INFINITY_BITS as int, sum)
        }),
{
    let (w, s, g) = (pow2(el) as int, pow2(t) as int, pow2((eh - el) as nat) as int);
    let (x, y) = (scaled_magnitude(high), scaled_magnitude(low));
    let sum = square(x) + square(y);
    let b = (el + t) * 0x80_0000 + q;
    lemma_pow2_pos(el);
    lemma_pow2_pos(t);
    lemma_pow2_adds(el, (eh - el) as nat);
    lemma_pow2_adds(el, t);
    lemma_place(q, (el + t) as int);
    let (here, next) = (scaled_magnitude(b), scaled_magnitude(b + 1));
    let ww = square(w);
    assert(ww > 0) by (nonlinear_arith)
        requires
            ww == w * w,
            w > 0,
    ;
    let wide = fh * g;
    assert(fh * (w * g) == wide * w && q * (w * s) == (q * s) * w && (q + 1) * (w * s) == ((q + 1)
        * s) * w) by (nonlinear_arith)
        requires
            wide == fh * g,
    ;
    let mid = (2 * q + 1) * s;
    assert((q * s) * w + ((q + 1) * s) * w == mid * w) by (nonlinear_arith)
        requires
            mid == (2 * q + 1) * s,
    ;
    lemma_square_of_product(wide, w);
    lemma_square_of_product(fl, w);
    lemma_square_of_product(q * s, w);
    lemma_square_of_product((q + 1) * s, w);
    lemma_square_of_product(mid, w);
    let (wide2, fl2) = (square(wide), square(fl));
    assert(sum == n * ww) by (nonlinear_arith)
        requires
            sum == wide2 * ww + fl2 * ww,
            n == wide2 + fl2,
    ;
    lemma_scaled_order(square(q * s), n, ww);
    lemma_scaled_order(n, square((q + 1) * s), ww);
    assert((4 * n) * ww == 4 * (n * ww)) by (nonlinear_arith);
    lemma_scaled_order(4 * n, square(mid), ww);
    lemma_scaled_order(square(mid), 4 * n, ww);
    lemma_root_of_neighbours(b, sum);
}

proof fn lemma_square_of_product(a: int, w: int)
    ensures
        square(a * w) == square(a) * square(w),
{
    assert((a * w) * (a * w) == (a * a) * (w * w)) by (nonlinear_arith);
}

proof fn lemma_scaled_order(a: int, b: int, w: int)
    requires
        w > 0,
    ensures
        a < b <==> a * w < b * w,
        a == b <==> a * w == b * w,
{
    assert((a < b <==> a * w < b * w) && (a == b <==> a * w == b * w)) by (nonlinear_arith)
        requires
            w > 0,
    ;
}

/// A magnitude that is far larger than another is next to the root of the sum of their squares.
proof fn lemma_far_root(high: int, low: int, fh: int, eh: nat, fl: int, el: nat)
    requires
        0 <= high < INFINITY_BITS,
        scaled_magnitude(high) == fh * pow2(eh),
        scaled_magnitude(low) == fl * pow2(el),
        0x80_0000 <= fh < 0x100_0000,
        0 <= fl < 0x100_0000,
        el + 12 < eh,
        high == eh * 0x80_0000 + fh,
    ensures
        is_next_root(high, square(scaled_magnitude(high)) + square(scaled_magnitude(low))),
{
    let (x, y) = (scaled_magnitude(high), scaled_magnitude(low));
    let (w, v) = (pow2(eh) as int, pow2(el) as int);
    lemma_pow2_pos(eh);
    lemma_pow2_pos(el);
    lemma_pow2_adds(13, el);
    vstd::arithmetic::power2::lemma2_to64();
    if 13 + el < eh {
        vstd::arithmetic::power2::lemma_pow2_strictly_increases(13 + el, eh);
    }
    lemma_place(fh, eh as int);
    let next = scaled_magnitude(high + 1);
    assert(next == x + w) by (nonlinear_arith)
        requires
            next == (fh + 1) * w,
            x == fh * w,
    ;
    assert(0 <= y && x >= 0x80_0000 * w && y < 0x800 * w) by (nonlinear_arith)
        requires
            x == fh * w,
            y == fl * v,
            fh >= 0x80_0000,
            0 <= fl < 0x100_0000,
            0x2000 * v <= w,
            v > 0,
    ;
    let yy = square(y);
    assert(0 <= yy && yy < x * w) by (nonlinear_arith)
        requires
            yy == y * y,
            0 <= y < 0x800 * w,
            x >= 0x80_0000 * w,
            w > 0,
    ;
    let sum = square(x) + yy;
    assert(square(x + next) == 4 * square(x) + 4 * (x * w) + w * w && square(next) == square(x) + 2
        * (x * w) + w * w && w * w > 0) by (nonlinear_arith)
        requires
            next == x + w,
            square(x + next) == (x + next) * (x + next),
            square(next) == next * next,
            square(x) == x * x,
            w > 0,
    ;
    lemma_root_of_neighbours(high, sum);
}

/// A root that is not below a number is not rounded below it, and one that is not above a number is
/// not rounded above it.
pub proof fn roots_keep_the_order(m: int, n: int)
    requires
        0 <= m < INFINITY_BITS,
        n >= 0,
    ensures
        is_next_root(next_root(n), n),
        square(scaled_magnitude(m)) <= n ==> m <= next_root(n),
        n <= square(scaled_magnitude(m)) ==> next_root(n) <= m,
{
    root_exists(n);
    let r = next_root(n);
    let here = scaled_magnitude(m);
    lemma_ordered(0, m);
    lemma_doubled(here);
    if r < m {
        lemma_ordered(r, m);
        lemma_ordered(r + 1, m);
        lemma_ordered(0, r);
        lemma_squares_increase(scaled_magnitude(r) + scaled_magnitude(r + 1), 2 * here);
    }
    if m < r {
        lemma_ordered(m, r);
        lemma_ordered(m, r - 1);
        lemma_squares_increase(2 * here, scaled_magnitude(r - 1) + scaled_magnitude(r));
    }
}

/// Exchanging the coordinates of a position makes no difference to its distance from the centre.
pub proof fn distances_are_symmetric(x: Single, y: Single)
    ensures
        x.distance(y) == y.distance(x),
{
    reveal(Single::distance);
}

/// No distance is negative.
pub proof fn distances_are_not_negative(x: Single, y: Single)
    ensures
        !x.distance(y).is_negative(),
{
    reveal(Single::distance);
    lemma_ordered(0, x.magnitude());
    lemma_ordered(0, y.magnitude());
    lemma_squares_increase(0, x.size());
    lemma_squares_increase(0, y.size());
    root_exists(square(x.size()) + square(y.size()));
}

/// A position on an axis is as far from the centre as its coordinate says.
pub proof fn distances_along_an_axis_are_exact(x: Single, y: Single)
    requires
        x.magnitude() < INFINITY_BITS,
        y.is_zero(),
    ensures
        x.distance(y) == x.unsigned(),
        y.distance(x) == x.unsigned(),
{
    reveal(Single::distance);
    lemma_ordered(0, x.magnitude());
    assert(scaled_magnitude(0) == 0);
    assert(square(0) == 0);
    lemma_squares_increase(0, x.size());
    roots_keep_the_order(x.magnitude(), square(x.size()));
}

/// A position is not nearer to the centre than its coordinates say.
pub proof fn distances_are_not_below_the_coordinates(x: Single, y: Single)
    requires
        x.magnitude() < INFINITY_BITS,
        y.magnitude() < INFINITY_BITS,
    ensures
        x.unsigned().not_above(x.distance(y)),
        y.unsigned().not_above(x.distance(y)),
        !x.distance(y).is_nan(),
        !x.distance(y).is_negative(),
{
    reveal(Single::distance);
    lemma_ordered(0, x.magnitude());
    lemma_ordered(0, y.magnitude());
    lemma_squares_increase(0, x.size());
    lemma_squares_increase(0, y.size());
    let n = square(x.size()) + square(y.size());
    roots_keep_the_order(x.magnitude(), n);
    roots_keep_the_order(y.magnitude(), n);
}

/// `radius` is next to the distance of a position from the centre: its square differs from the sum
/// of the squares by a 2^20th of that at most.
pub open spec fn is_distance(x: Single, y: Single, radius: Single) -> bool {
    let sum = square(x.size()) + square(y.size());
    let round = square(radius.size());
    &&& !radius.is_nan() && !radius.is_infinite() && !radius.is_negative()
    &&& -sum <= (round - sum) * 0x10_0000 <= sum
}

/// Distances are accurate, unless they lie next to zero or beyond every number.
pub proof fn distances_are_accurate(x: Single, y: Single)
    requires
        x.magnitude() < INFINITY_BITS,
        y.magnitude() < INFINITY_BITS,
        0x80_0000 < x.distance(y).magnitude() < INFINITY_BITS,
    ensures
        is_distance(x, y, x.distance(y)),
{
    reveal(Single::distance);
    let sum = square(x.size()) + square(y.size());
    lemma_ordered(0, x.magnitude());
    lemma_ordered(0, y.magnitude());
    lemma_squares_increase(0, x.size());
    lemma_squares_increase(0, y.size());
    root_exists(sum);
    let m = next_root(sum);
    let (before, here, next) = (
        scaled_magnitude(m - 1),
        scaled_magnitude(m),
        scaled_magnitude(m + 1),
    );
    lemma_ordered(0, m - 1);
    lemma_ordered(m - 1, m);
    lemma_ordered(m, m + 1);
    lemma_normal_gap(m - 1);
    lemma_normal_gap(m);
    let hh = square(here);
    assert(square(here + next) * 0x80_0000 <= hh * 0x200_0008) by (nonlinear_arith)
        requires
            square(here + next) == (here + next) * (here + next),
            hh == here * here,
            0 <= here < next,
            (next - here) * 0x80_0000 <= here,
    ;
    assert(square(before + here) * 0x80_0000 >= hh * 0x1ff_fff8) by (nonlinear_arith)
        requires
            square(before + here) == (before + here) * (before + here),
            hh == here * here,
            0 <= before < here,
            (here - before) * 0x80_0000 <= before,
    ;
}

/// The distance from a number to the next one is a 2^23rd of the number at most.
pub proof fn lemma_normal_gap(m: int)
    requires
        m >= 0x80_0000,
    ensures
        (scaled_magnitude(m + 1) - scaled_magnitude(m)) * 0x80_0000 <= scaled_magnitude(m),
{
    let e = m / 0x80_0000 - 1;
    let q = 0x80_0000 + m % 0x80_0000;
    assert(m == e * 0x80_0000 + q);
    lemma_place(q, e);
    let w = pow2(e as nat) as int;
    lemma_pow2_pos(e as nat);
    assert(((q + 1) * w - q * w) * 0x80_0000 <= q * w) by (nonlinear_arith)
        requires
            q >= 0x80_0000,
            w > 0,
    ;
}

} // verus!
