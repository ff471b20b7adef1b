//! Rounding to single precision: the number next to an exact value.
use vstd::arithmetic::power2::{lemma_pow2_adds, lemma_pow2_pos, lemma_pow2_strictly_increases, lemma_pow2_unfold, pow2};
use vstd::prelude::*;

#[allow(unused_imports)]
use crate::single::{lemma_scaled_magnitude_increases, scaled_magnitude};

verus! {

/// The bits of infinity. They stand for the value at which the numbers would go on.
pub const INFINITY_BITS: u32 = 0x7f80_0000;

/// `low` is less than `high`; or it is the same, and `m` is even.
pub open spec fn ahead(low: int, high: int, m: int) -> bool {
    low < high || (low == high && m % 2 == 0)
}

/// The magnitude bits `m` stand for the number next to `num / den`, in units of 2^-149: that value
/// lies between the middle of `m` and its predecessor and the middle of `m` and its successor. In
/// the middle of two, the even one is next.
pub open spec fn is_nearest(m: int, num: int, den: int) -> bool {
    &&& 0 <= m <= INFINITY_BITS
    &&& m > 0 ==> ahead((scaled_magnitude(m - 1) + scaled_magnitude(m)) * den, 2 * num, m)
    &&& m < INFINITY_BITS ==> ahead(
        2 * num,
        (scaled_magnitude(m) + scaled_magnitude(m + 1)) * den,
        m,
    )
}

/// The magnitude bits of the number next to `num / den`, in units of 2^-149.
pub open spec fn nearest(num: int, den: int) -> int {
    choose|m: int| is_nearest(m, num, den)
}

/// No two numbers are next to the same value.
pub proof fn nearest_is_unique(a: int, b: int, num: int, den: int)
    requires
        den > 0,
        is_nearest(a, num, den),
        is_nearest(b, num, den),
    ensures
        a == b,
        nearest(num, den) == a,
{
    lemma_one_nearest(a, b, num, den);
    lemma_one_nearest(b, a, num, den);
    lemma_one_nearest(a, nearest(num, den), num, den);
    lemma_one_nearest(nearest(num, den), a, num, den);
}

proof fn lemma_one_nearest(a: int, b: int, num: int, den: int)
    requires
        den > 0,
        is_nearest(a, num, den),
        is_nearest(b, num, den),
    ensures
        b <= a,
{
    let above = scaled_magnitude(a) + scaled_magnitude(a + 1);
    let below = scaled_magnitude(b - 1) + scaled_magnitude(b);
    if a + 1 < b {
        lemma_scaled_magnitude_increases(a, b - 1);
        lemma_scaled_magnitude_increases(a + 1, b);
        assert(above * den < below * den) by (nonlinear_arith)
            requires
                above < below,
                den > 0,
        ;
    }
}

/// The unit of the last place of `q * 2^e`, beside the denominator `den`.
pub open spec fn unit(e: int, den: int) -> int {
    den * pow2((e + 400) as nat)
}

/// What a value `num / den` has beyond `q * 2^e`.
pub open spec fn beyond(q: int, e: int, num: int, den: int) -> int {
    num * pow2(400) - q * unit(e, den)
}

/// `num / den` is `p * 2^k`; or, where `inexact`, lies between that and `(p + 1) * 2^k`.
pub open spec fn brackets(p: int, k: int, inexact: bool, num: int, den: int) -> bool {
    if inexact {
        0 < beyond(p, k, num, den) < unit(k, den)
    } else {
        beyond(p, k, num, den) == 0
    }
}

proof fn lemma_unit(e: int, den: int)
    requires
        den > 0,
        e >= -400,
    ensures
        unit(e, den) > 0,
        unit(e + 1, den) == 2 * unit(e, den),
{
    let w = pow2((e + 400) as nat) as int;
    lemma_pow2_pos((e + 400) as nat);
    lemma_pow2_unfold((e + 401) as nat);
    assert(den * w > 0) by (nonlinear_arith)
        requires
            den > 0,
            w > 0,
    ;
    assert(den * (2 * w) == 2 * (den * w)) by (nonlinear_arith);
}

/// Halving `q` moves its last bit to what lies beyond.
proof fn lemma_halve(q: int, e: int, num: int, den: int)
    requires
        den > 0,
        e >= -400,
        q >= 0,
    ensures
        q % 2 == 0 ==> beyond(q / 2, e + 1, num, den) == beyond(q, e, num, den),
        q % 2 == 1 ==> beyond(q / 2, e + 1, num, den) == beyond(q, e, num, den) + unit(e, den),
        unit(e + 1, den) == 2 * unit(e, den),
        unit(e, den) > 0,
{
    lemma_unit(e, den);
    let u = unit(e, den);
    let h = q / 2;
    if q % 2 == 0 {
        assert(q * u == h * (2 * u)) by (nonlinear_arith)
            requires
                q == 2 * h,
        ;
    } else {
        assert(q * u == h * (2 * u) + u) by (nonlinear_arith)
            requires
                q == 2 * h + 1,
        ;
    }
}

/// What lies beyond a number does not change if it is written with one more bit.
proof fn lemma_double(q: int, e: int, num: int, den: int)
    requires
        den > 0,
        e >= -399,
        q >= 0,
    ensures
        beyond(2 * q, e - 1, num, den) == beyond(q, e, num, den),
        unit(e, den) == 2 * unit(e - 1, den),
        unit(e - 1, den) > 0,
{
    lemma_unit(e - 1, den);
    let u = unit(e - 1, den);
    assert(q * (2 * u) == (2 * q) * u) by (nonlinear_arith);
}

/// The bits of a number with the significand `q` and the exponent `e`, and those of its
/// successor.
pub proof fn lemma_place(q: int, e: int)
    requires
        0 <= q < 0x100_0000,
        0 <= e,
        q >= 0x80_0000 || e == 0,
    ensures
        scaled_magnitude(e * 0x80_0000 + q) == q * pow2(e as nat),
        scaled_magnitude(e * 0x80_0000 + q + 1) == (q + 1) * pow2(e as nat),
{
    lemma_pow2_unfold((e + 1) as nat);
    vstd::arithmetic::power2::lemma2_to64();
    let m = e * 0x80_0000 + q;
    let w = pow2(e as nat) as int;
    if q < 0x80_0000 {
        assert(m / 0x80_0000 == 0);
        assert(scaled_magnitude(m) == q);
        if q + 1 == 0x80_0000 {
            assert((m + 1) / 0x80_0000 == 1);
            assert((m + 1) % 0x80_0000 == 0);
        } else {
            assert((m + 1) / 0x80_0000 == 0);
        }
    } else {
        assert(m / 0x80_0000 == e + 1);
        assert(m % 0x80_0000 == q - 0x80_0000);
        if q + 1 == 0x100_0000 {
            assert((m + 1) / 0x80_0000 == e + 2);
            assert((m + 1) % 0x80_0000 == 0);
            assert(0x80_0000 * (2 * w) == 0x100_0000 * w);
        } else {
            assert((m + 1) / 0x80_0000 == e + 1);
            assert((m + 1) % 0x80_0000 == q + 1 - 0x80_0000);
        }
    }
}

/// Where a value lies, as against the number just below it.
proof fn lemma_between(q: int, e: int, num: int, den: int)
    requires
        den > 0,
        e >= 0,
        q >= 0,
        0 <= beyond(q, e, num, den) < unit(e, den),
    ensures
        (q * pow2(e as nat)) * den <= num < ((q + 1) * pow2(e as nat)) * den,
        2 * beyond(q, e, num, den) < unit(e, den) <==> 2 * num < (q * pow2(e as nat) + (q + 1)
            * pow2(e as nat)) * den,
        2 * beyond(q, e, num, den) == unit(e, den) <==> 2 * num == (q * pow2(e as nat) + (q + 1)
            * pow2(e as nat)) * den,
{
    let w = pow2(e as nat) as int;
    let c = pow2(400) as int;
    let d = w * den;
    lemma_pow2_adds(e as nat, 400);
    lemma_pow2_pos(400);
    lemma_pow2_pos(e as nat);
    assert(unit(e, den) == d * c) by (nonlinear_arith)
        requires
            unit(e, den) == den * (w * c),
            d == w * den,
    ;
    let r = num - q * d;
    assert(beyond(q, e, num, den) == r * c) by (nonlinear_arith)
        requires
            beyond(q, e, num, den) == num * c - q * (d * c),
            r == num - q * d,
    ;
    assert(0 <= r < d) by (nonlinear_arith)
        requires
            0 <= r * c < d * c,
            c > 0,
    ;
    assert(2 * (r * c) < d * c <==> 2 * r < d) by (nonlinear_arith)
        requires
            c > 0,
    ;
    assert(2 * (r * c) == d * c <==> 2 * r == d) by (nonlinear_arith)
        requires
            c > 0,
    ;
    assert((q * w) * den == q * d) by (nonlinear_arith)
        requires
            d == w * den,
    ;
    assert(((q + 1) * w) * den == q * d + d) by (nonlinear_arith)
        requires
            d == w * den,
    ;
    assert((q * w + (q + 1) * w) * den == 2 * (q * d) + d) by (nonlinear_arith)
        requires
            d == w * den,
    ;
}

/// The number next to a value is the number just below it or the one just above it.
proof fn lemma_nearest_of_neighbours(b: int, num: int, den: int)
    requires
        den > 0,
        0 <= b,
        scaled_magnitude(b) * den <= num < scaled_magnitude(b + 1) * den,
    ensures
        ({
            let edge = (scaled_magnitude(b) + scaled_magnitude(b + 1)) * den;
            &&& b < INFINITY_BITS && ahead(2 * num, edge, b) ==> is_nearest(b, num, den)
            &&& b < INFINITY_BITS && ahead(edge, 2 * num, b + 1) ==> is_nearest(b + 1, num, den)
            &&& b >= INFINITY_BITS ==> is_nearest(INFINITY_BITS as int, num, den)
        }),
{
    let here = scaled_magnitude(b);
    let next = scaled_magnitude(b + 1);
    lemma_scaled_magnitude_increases(b, b + 1);
    lemma_scaled_magnitude_increases(b + 1, b + 2);
    let after = scaled_magnitude(b + 2);
    assert((next + after) * den > 2 * num) by (nonlinear_arith)
        requires
            num < next * den,
            next < after,
            den > 0,
    ;
    if b > 0 {
        lemma_scaled_magnitude_increases(b - 1, b);
        let before = scaled_magnitude(b - 1);
        assert((before + here) * den < 2 * num) by (nonlinear_arith)
            requires
                here * den <= num,
                before < here,
                den > 0,
        ;
    }
    if b >= INFINITY_BITS {
        let top = scaled_magnitude(INFINITY_BITS as int);
        let under = scaled_magnitude(INFINITY_BITS - 1);
        lemma_scaled_magnitude_increases(INFINITY_BITS - 1, INFINITY_BITS as int);
        if b > INFINITY_BITS {
            lemma_scaled_magnitude_increases(INFINITY_BITS as int, b);
        }
        assert((under + top) * den < 2 * num) by (nonlinear_arith)
            requires
                here * den <= num,
                under < top,
                top <= here,
                den > 0,
        ;
    }
}

/// The magnitude bits of the number next to `num / den`, of which is known that it is `p * 2^k`,
/// or that it lies between that and `(p + 1) * 2^k`.
pub(crate) fn round(
    p: u128,
    k: i32,
    inexact: bool,
    Ghost(num): Ghost<int>,
    Ghost(den): Ghost<int>,
) -> (m: u32)
    requires
        den > 0,
        p < 0x10_0000_0000_0000_0000_0000_0000,
        -390 <= k <= 600,
        inexact ==> p >= 0x100_0000,
        brackets(p as int, k as int, inexact, num, den),
    ensures
        is_nearest(m as int, num, den),
        m == nearest(num, den),
        m <= INFINITY_BITS,
{
    let mut q: u128 = p;
    let mut e: i32 = k;
    let mut half: bool = false;
    let mut more: bool = inexact;
    let ghost mut settled: bool = !inexact;
    proof {
        lemma_unit(k as int, den);
        vstd::arithmetic::power2::lemma2_to64();
        assert(pow2((e - k) as nat) == 1);
        assert(q * 1 <= p) by (nonlinear_arith)
            requires
                q == p,
        ;
    }
    while q >= 0x100_0000 || e < 0
        invariant
            den > 0,
            p < 0x10_0000_0000_0000_0000_0000_0000,
            -390 <= k <= e <= 900,
            k <= 600,
            q <= p,
            q * pow2((e - k) as nat) <= p,
            0 <= beyond(q as int, e as int, num, den) < unit(e as int, den),
            (half || more) <==> beyond(q as int, e as int, num, den) > 0,
            (half || more) ==> q >= 0x80_0000 || e <= 0,
            !settled ==> q >= 0x100_0000,
            settled ==> (half <==> 2 * beyond(q as int, e as int, num, den) >= unit(
                e as int,
                den,
            )),
            settled ==> ((half && !more) <==> 2 * beyond(q as int, e as int, num, den) == unit(
                e as int,
                den,
            )),
        decreases (if e < 0 { -e } else { 0 }) + q,
    {
        proof {
            lemma_halve(q as int, e as int, num, den);
            lemma_few_bits(q as int, (e - k) as nat, p as int);
        }
        more = more || half;
        half = q % 2 == 1;
        q = q / 2;
        e = e + 1;
        proof {
            settled = true;
        }
    }
    if !half && !more {
        while q < 0x80_0000 && e > 0
            invariant
                den > 0,
                0 <= e <= 900,
                q < 0x100_0000,
                beyond(q as int, e as int, num, den) == 0,
            decreases e,
        {
            proof {
                lemma_double(q as int, e as int, num, den);
            }
            q = q * 2;
            e = e - 1;
        }
        proof {
            lemma_unit(e as int, den);
        }
    }
    let b: u64 = (e as u64) * 0x80_0000 + (q as u64);
    let up: bool = half && (more || q % 2 == 1);
    proof {
        lemma_place(q as int, e as int);
        lemma_between(q as int, e as int, num, den);
        lemma_nearest_of_neighbours(b as int, num, den);
        assert(b % 2 == q % 2);
    }
    let rounded: u64 = if up { b + 1 } else { b };
    let m: u32 = if rounded >= INFINITY_BITS as u64 { INFINITY_BITS } else { rounded as u32 };
    proof {
        assert(is_nearest(m as int, num, den));
        nearest_is_unique(m as int, m as int, num, den);
    }
    m
}

/// A number that is left over from `p` has been halved only so often.
proof fn lemma_few_bits(q: int, times: nat, p: int)
    requires
        0 <= q,
        q * pow2(times) <= p < 0x10_0000_0000_0000_0000_0000_0000,
    ensures
        q > 0 ==> times <= 100,
        (q / 2) * pow2(times + 1) <= p,
{
    let w = pow2(times) as int;
    lemma_pow2_pos(times);
    lemma_pow2_unfold(times + 1);
    assert((q / 2) * (2 * w) <= q * w) by (nonlinear_arith)
        requires
            2 * (q / 2) <= q,
            w > 0,
    ;
    if q > 0 && times > 100 {
        vstd::arithmetic::power2::lemma2_to64();
        lemma_pow2_adds(25, 25);
        lemma_pow2_adds(50, 50);
        let (x, y) = (pow2(25) as int, pow2(50) as int);
        assert(y * y == 0x10_0000_0000_0000_0000_0000_0000) by (nonlinear_arith)
            requires
                x == 0x200_0000,
                y == x * x,
        ;
        lemma_pow2_strictly_increases(100, times);
        assert(q * w >= w) by (nonlinear_arith)
            requires
                q >= 1,
                w > 0,
        ;
    }
}

/// There is a number next to every value.
pub proof fn nearest_exists(num: int, den: int)
    requires
        den > 0,
        num >= 0,
    ensures
        is_nearest(nearest(num, den), num, den),
{
    assert(scaled_magnitude(0) * den == 0) by (nonlinear_arith)
        requires
            scaled_magnitude(0) == 0,
    ;
    lemma_nearest_from(num, den, 0);
}

proof fn lemma_nearest_from(num: int, den: int, b: int)
    requires
        den > 0,
        0 <= b <= INFINITY_BITS,
        scaled_magnitude(b) * den <= num,
    ensures
        is_nearest(nearest(num, den), num, den),
    decreases INFINITY_BITS - b,
{
    if b == INFINITY_BITS {
        let (top, under) = (scaled_magnitude(b), scaled_magnitude(b - 1));
        lemma_scaled_magnitude_increases(b - 1, b);
        assert((under + top) * den < 2 * num) by (nonlinear_arith)
            requires
                top * den <= num,
                under < top,
                den > 0,
        ;
        assert(is_nearest(b, num, den));
    } else if num < scaled_magnitude(b + 1) * den {
        lemma_nearest_of_neighbours(b, num, den);
        assert(is_nearest(b, num, den) || is_nearest(b + 1, num, den));
    } else {
        lemma_nearest_from(num, den, b + 1);
    }
}

/// A value that is not above a number is not rounded above it.
pub proof fn lemma_nearest_not_above(num: int, den: int, b: int, m: int)
    requires
        den > 0,
        0 <= b,
        num <= scaled_magnitude(b) * den,
        is_nearest(m, num, den),
    ensures
        m <= b,
{
    if m > b {
        let here = scaled_magnitude(b);
        let edge = scaled_magnitude(m - 1) + scaled_magnitude(m);
        lemma_scaled_magnitude_increases(b, m);
        if m - 1 > b {
            lemma_scaled_magnitude_increases(b, m - 1);
        }
        assert(edge * den > 2 * num) by (nonlinear_arith)
            requires
                edge > 2 * here,
                num <= here * den,
                den > 0,
        ;
    }
}

/// A value that is not below a number is not rounded below it.
pub proof fn lemma_nearest_not_below(num: int, den: int, b: int, m: int)
    requires
        den > 0,
        0 <= b <= INFINITY_BITS,
        scaled_magnitude(b) * den <= num,
        is_nearest(m, num, den),
    ensures
        b <= m,
{
    if m < b {
        let here = scaled_magnitude(b);
        let edge = scaled_magnitude(m) + scaled_magnitude(m + 1);
        lemma_scaled_magnitude_increases(m, b);
        if m + 1 < b {
            lemma_scaled_magnitude_increases(m + 1, b);
        }
        assert(edge * den < 2 * num) by (nonlinear_arith)
            requires
                edge < 2 * here,
                here * den <= num,
                den > 0,
        ;
    }
}

/// Rounding keeps the order of values.
pub proof fn rounding_keeps_the_order(a: int, b: int, den: int)
    requires
        den > 0,
        0 <= a <= b,
    ensures
        nearest(a, den) <= nearest(b, den),
{
    nearest_exists(a, den);
    nearest_exists(b, den);
    let (m, n) = (nearest(a, den), nearest(b, den));
    if n < m {
        let above = scaled_magnitude(n) + scaled_magnitude(n + 1);
        let below = scaled_magnitude(m - 1) + scaled_magnitude(m);
        if n + 1 < m {
            lemma_scaled_magnitude_increases(n, m - 1);
            lemma_scaled_magnitude_increases(n + 1, m);
            assert(above * den < below * den) by (nonlinear_arith)
                requires
                    above < below,
                    den > 0,
            ;
        }
    }
}

} // verus!
