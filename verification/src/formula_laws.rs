//! How near the shaping of sticks comes to the formulas that it stands for.
//!
//! The formulas are stated over real numbers; the shaping computes with single precision.
use vstd::arithmetic::power2::{lemma_pow2_adds, pow2};
use vstd::prelude::*;
#[allow(unused_imports)]
use vstd::std_specs::cmp::PartialEqSpec;

#[allow(unused_imports)]
use crate::arithmetic::{
    absolute, epsilon, integer, lemma_small_integer, one, whole, with_sign, zero, MINUS_ONE_BITS,
};
#[allow(unused_imports)]
use crate::distance::{distances_are_accurate, distances_are_not_below_the_coordinates, square};
#[allow(unused_imports)]
use crate::profile::{DeadzoneShape, StickProfile};
#[allow(unused_imports)]
use crate::rounding::{
    lemma_nearest_not_above, lemma_place, nearest, nearest_exists, INFINITY_BITS,
};
#[allow(unused_imports)]
use crate::shape::{
    axis_shaped, lemma_constants, radial_axis_shaped, radially_shaped, shaped, shown_at,
    shown_within_the_range, squared, unit_of, LOWER_HALF_BITS, LOWER_RANGE_BITS, UPPER_HALF_BITS,
    UPPER_RANGE_BITS,
};
#[allow(unused_imports)]
use crate::shape_laws::lemma_zero_shown;
#[allow(unused_imports)]
use crate::single::{order_is_order_of_values, scaled_magnitude, Single, ONE_BITS};
#[allow(unused_imports)]
use crate::square_laws::{lemma_bounds, lemma_error};
#[allow(unused_imports)]
use crate::stick::Stick2;
#[allow(unused_imports)]
use crate::zone_laws::{
    are_zones, lemma_distance_at_most_two, lemma_ends_shown, lemma_size, lemma_sizes_ordered,
    lemma_times_nothing, lemma_unit_size, products_commute, TWO_BITS,
};

verus! {

/// The value of a number.
pub open spec fn value(x: Single) -> real {
    x.scaled() as real / pow2(149) as real
}

/// `x` without its sign.
pub open spec fn part(x: real) -> real {
    if x < 0real {
        -x
    } else {
        x
    }
}

/// How far `r` lies on the side on which `x` lies.
pub open spec fn on_the_side_of(x: Single, r: Single) -> real {
    if x.is_negative() {
        -value(r)
    } else {
        value(r)
    }
}

/// `x` lies next to `y`: they differ by no more than `by`.
pub open spec fn next_to(x: real, y: real, by: real) -> bool {
    y - by <= x <= y + by
}

/// How far a rounded number may lie from the exact value: a 2^24th of it, or the smallest number.
pub open spec fn rounding(exact: real) -> real {
    part(exact) / 16777216real + 1real / pow2(149) as real
}

/// Both sides of an inequality in one fraction.
proof fn lemma_rounded_value(s: int, num: int, den: int, n: int)
    requires
        n > 0,
        den > 0,
        num >= 0,
        s * den * 0x100_0000 <= num * 0x100_0001 + den * 0x100_0000,
        s * den * 0x100_0000 >= num * 0xff_ffff - den * 0x100_0000,
    ensures
        ({
            let exact = (num as real / den as real) / n as real;
            let by = exact / 16777216real + 1real / n as real;
            &&& next_to(s as real / n as real, exact, by)
            &&& exact >= 0real
        }),
{
    let sd = s * den;
    let (rs, rd, rm, rn) = (s as real, den as real, num as real, n as real);
    assert(sd as real == rs * rd) by (nonlinear_arith)
        requires
            sd == s * den,
            rs == s as real,
            rd == den as real,
    ;
    let q = rm / rd;
    assert(q * rd == rm && q >= 0real) by (nonlinear_arith)
        requires
            q == rm / rd,
            rd > 0real,
            rm >= 0real,
    ;
    assert(rs <= q + q / 16777216real + 1real) by (nonlinear_arith)
        requires
            rs * rd * 16777216real <= rm * 16777217real + rd * 16777216real,
            q * rd == rm,
            rd > 0real,
    ;
    assert(rs >= q - q / 16777216real - 1real) by (nonlinear_arith)
        requires
            rs * rd * 16777216real >= rm * 16777215real - rd * 16777216real,
            q * rd == rm,
            rd > 0real,
    ;
    let exact = q / rn;
    let (sn, on) = (rs / rn, 1real / rn);
    assert(exact * rn == q && sn * rn == rs && on * rn == 1real) by (nonlinear_arith)
        requires
            exact == q / rn,
            sn == rs / rn,
            on == 1real / rn,
            rn > 0real,
    ;
    assert(sn <= exact + (exact / 16777216real + on) && sn >= exact - (exact / 16777216real + on)
        && exact >= 0real) by (nonlinear_arith)
        requires
            rs <= q + q / 16777216real + 1real,
            rs >= q - q / 16777216real - 1real,
            q >= 0real,
            exact * rn == q,
            sn * rn == rs,
            on * rn == 1real,
            rn > 0real,
    ;
}

/// The number next to `num / den`, which is not above 32768, and its value.
proof fn lemma_nearest_value(num: int, den: int)
    requires
        den > 0,
        0 <= num <= 32768 * pow2(149) * den,
    ensures
        ({
            let exact = (num as real / den as real) / pow2(149) as real;
            let m = nearest(num, den);
            &&& 0 <= m <= LOWER_RANGE_BITS
            &&& next_to(scaled_magnitude(m) as real / pow2(149) as real, exact, rounding(exact))
            &&& exact >= 0real
        }),
{
    lemma_bounds();
    lemma_constants();
    nearest_exists(num, den);
    lemma_nearest_not_above(num, den, LOWER_RANGE_BITS as int, nearest(num, den));
    lemma_error(num, den);
    let s = scaled_magnitude(nearest(num, den));
    lemma_rounded_value(s, num, den, pow2(149) as int);
}

/// The value of a number with a sign.
proof fn lemma_signed_value(m: int, negative: bool)
    requires
        0 <= m < 0x8000_0000,
    ensures
        ({
            let size = scaled_magnitude(m) as real / pow2(149) as real;
            value(with_sign(m, negative)) == if negative {
                -size
            } else {
                size
            }
        }),
        with_sign(m, negative).magnitude() == m,
        with_sign(m, negative).is_negative() == negative,
{
    lemma_constants();
    let (s, n) = (scaled_magnitude(m) as real, pow2(149) as real);
    assert(-s / n == -(s / n)) by (nonlinear_arith)
        requires
            n > 0real,
    ;
}

/// The value of a number, by its size.
proof fn lemma_value(x: Single)
    ensures
        part(value(x)) == x.size() as real / pow2(149) as real,
        x.is_negative() ==> value(x) == -part(value(x)),
        !x.is_negative() ==> value(x) == part(value(x)),
        part(value(x)) >= 0real,
        x.scaled() as real == value(x) * pow2(149) as real,
        x.size() as real == part(value(x)) * pow2(149) as real,
        pow2(149) as real > 0real,
{
    lemma_constants();
    lemma_size(x);
    let (s, n) = (x.size() as real, pow2(149) as real);
    assert(-s / n == -(s / n) && s / n >= 0real && (s / n) * n == s) by (nonlinear_arith)
        requires
            n > 0real,
            s >= 0real,
    ;
    assert((-(s / n)) * n == -s) by (nonlinear_arith)
        requires
            (s / n) * n == s,
    ;
}

/// Sums are next to the sums of the values.
pub proof fn sums_are_next_to_their_values(x: Single, y: Single)
    requires
        x.magnitude() < INFINITY_BITS,
        y.magnitude() < INFINITY_BITS,
        part(value(x) + value(y)) <= 32768real,
    ensures
        x.sum(y).magnitude() <= LOWER_RANGE_BITS,
        next_to(value(x.sum(y)), value(x) + value(y), rounding(value(x) + value(y))),
        value(x) + value(y) >= 0real && !(x.is_negative() && y.is_negative())
            ==> !x.sum(y).is_negative(),
{
    lemma_constants();
    lemma_value(x);
    lemma_value(y);
    let n = pow2(149) as int;
    let total = x.scaled() + y.scaled();
    let num = absolute(total);
    let exact = value(x) + value(y);
    let rn = n as real;
    assert(total as real == exact * rn) by (nonlinear_arith)
        requires
            total as real == value(x) * rn + value(y) * rn,
            exact == value(x) + value(y),
    ;
    let size = part(exact);
    assert(num as real == size * rn) by (nonlinear_arith)
        requires
            total as real == exact * rn,
            num as real == if (total as real) < 0real {
                -(total as real)
            } else {
                total as real
            },
            size == if exact < 0real {
                -exact
            } else {
                exact
            },
            rn > 0real,
    ;
    assert(size * rn <= 32768real * rn) by (nonlinear_arith)
        requires
            size <= 32768real,
            rn > 0real,
    ;
    assert(num <= 32768 * n);
    lemma_nearest_value(num, 1);
    assert((num as real / 1real) / rn == size) by (nonlinear_arith)
        requires
            num as real == size * rn,
            rn > 0real,
    ;
    lemma_signed_value(nearest(num, 1), total < 0);
    lemma_signed_value(0, x.is_negative() && y.is_negative());
    assert((total < 0) == (exact < 0real)) by (nonlinear_arith)
        requires
            total as real == exact * rn,
            rn > 0real,
            (total < 0) == ((total as real) < 0real),
    ;
    if total == 0 {
        assert(exact == 0real) by (nonlinear_arith)
            requires
                total as real == exact * rn,
                total as real == 0real,
                rn > 0real,
        ;
        assert(0real / rn == 0real && 1real / rn >= 0real) by (nonlinear_arith)
            requires
                rn > 0real,
        ;
    }
    reveal(Single::sum);
}

/// Differences are next to the differences of the values.
pub proof fn differences_are_next_to_their_values(x: Single, y: Single)
    requires
        x.magnitude() < INFINITY_BITS,
        y.magnitude() < INFINITY_BITS,
        part(value(x) - value(y)) <= 32768real,
    ensures
        x.difference(y).magnitude() <= LOWER_RANGE_BITS,
        next_to(value(x.difference(y)), value(x) - value(y), rounding(value(x) - value(y))),
        value(x) - value(y) >= 0real && !(x.is_negative() && !y.is_negative())
            ==> !x.difference(y).is_negative(),
{
    lemma_value(y);
    lemma_signed_value(y.magnitude(), !y.is_negative());
    sums_are_next_to_their_values(x, y.negated());
}

/// Products are next to the products of the values.
pub proof fn products_are_next_to_their_values(x: Single, y: Single)
    requires
        x.magnitude() < INFINITY_BITS,
        y.magnitude() < INFINITY_BITS,
        part(value(x) * value(y)) <= 32768real,
    ensures
        x.product(y).magnitude() <= LOWER_RANGE_BITS,
        x.product(y).is_negative() == (x.is_negative() != y.is_negative()),
        next_to(value(x.product(y)), value(x) * value(y), rounding(value(x) * value(y))),
{
    lemma_constants();
    lemma_value(x);
    lemma_value(y);
    lemma_size(x);
    lemma_size(y);
    let n = pow2(149) as int;
    let rn = n as real;
    let num = x.size() * y.size();
    let (a, b) = (part(value(x)), part(value(y)));
    let (sx, sy) = (x.size(), y.size());
    assert(num >= 0 && num as real == (sx as real) * (sy as real)) by (nonlinear_arith)
        requires
            num == sx * sy,
            sx >= 0,
            sy >= 0,
    ;
    let size = a * b;
    assert(num as real == size * rn * rn) by (nonlinear_arith)
        requires
            num as real == (a * rn) * (b * rn),
            size == a * b,
    ;
    let exact = value(x) * value(y);
    assert(part(exact) == size && (exact < 0real ==> x.is_negative() != y.is_negative()) && (exact
        > 0real ==> x.is_negative() == y.is_negative())) by (nonlinear_arith)
        requires
            exact == value(x) * value(y),
            part(exact) == if exact < 0real {
                -exact
            } else {
                exact
            },
            size == a * b,
            a >= 0real,
            b >= 0real,
            value(x) == if x.is_negative() {
                -a
            } else {
                a
            },
            value(y) == if y.is_negative() {
                -b
            } else {
                b
            },
    ;
    let most = 32768 * n * n;
    assert(most as real == 32768real * rn * rn) by (nonlinear_arith)
        requires
            most == 32768 * n * n,
            rn == n as real,
    ;
    assert(num <= most) by (nonlinear_arith)
        requires
            num as real == size * rn * rn,
            size <= 32768real,
            most as real == 32768real * rn * rn,
            rn > 0real,
    ;
    lemma_nearest_value(num, n);
    assert((num as real / rn) / rn == size) by (nonlinear_arith)
        requires
            num as real == size * rn * rn,
            rn > 0real,
    ;
    lemma_signed_value(nearest(num, n), x.is_negative() != y.is_negative());
    reveal(Single::product);
}

/// Quotients are next to the quotients of the values.
pub proof fn quotients_are_next_to_their_values(x: Single, y: Single)
    requires
        x.magnitude() < INFINITY_BITS,
        0 < y.magnitude() < INFINITY_BITS,
        part(value(x)) <= 32768real * part(value(y)),
    ensures
        x.quotient(y).magnitude() <= LOWER_RANGE_BITS,
        x.quotient(y).is_negative() == (x.is_negative() != y.is_negative()),
        next_to(
            part(value(x.quotient(y))),
            part(value(x)) / part(value(y)),
            rounding(part(value(x)) / part(value(y))),
        ),
{
    lemma_constants();
    lemma_value(x);
    lemma_value(y);
    lemma_size(x);
    lemma_size(y);
    let n = pow2(149) as int;
    let rn = n as real;
    let (sx, den) = (x.size(), y.size());
    let num = sx * n;
    let (a, b) = (part(value(x)), part(value(y)));
    assert(num >= 0 && num as real == (sx as real) * rn) by (nonlinear_arith)
        requires
            num == sx * n,
            rn == n as real,
            sx >= 0,
            n > 0,
    ;
    assert(b > 0real) by (nonlinear_arith)
        requires
            den as real == b * rn,
            den as real > 0real,
            rn > 0real,
    ;
    let most = 32768 * n * den;
    assert(most as real == 32768real * rn * (den as real)) by (nonlinear_arith)
        requires
            most == 32768 * n * den,
            rn == n as real,
    ;
    let rd = den as real;
    assert(num <= most) by (nonlinear_arith)
        requires
            num as real == (a * rn) * rn,
            most as real == 32768real * rn * rd,
            rd == b * rn,
            a <= 32768real * b,
            rn > 0real,
    ;
    lemma_nearest_value(num, den);
    let exact = a / b;
    assert((num as real / rd) / rn == exact) by (nonlinear_arith)
        requires
            num as real == (a * rn) * rn,
            rd == b * rn,
            b > 0real,
            rn > 0real,
            exact == a / b,
    ;
    lemma_signed_value(nearest(num, den), x.is_negative() != y.is_negative());
    lemma_value(x.quotient(y));
    reveal(Single::quotient);
    lemma_size(with_sign(nearest(num, den), false));
}

/// Taking the sign away and changing it do so to the value; numbers are ordered, and equal, by their
/// values; the smaller and the larger of two are one of them. What is no number is neither smaller
/// nor larger nor equal, and gives way to a number.
pub proof fn numbers_go_by_their_values(x: Single, y: Single)
    requires
        !x.is_nan(),
        !y.is_nan(),
    ensures
        value(x.unsigned()) == part(value(x)),
        value(x.negated()) == -value(x),
        x.not_above(y) <==> value(x) <= value(y),
        x.below(y) <==> value(x) < value(y),
        x.eq_spec(&y) <==> value(x) == value(y),
        value(x.smaller(y)) == if value(x) <= value(y) {
            value(x)
        } else {
            value(y)
        },
        value(x.larger(y)) == if value(x) >= value(y) {
            value(x)
        } else {
            value(y)
        },
        value(x.direction()) == if x.is_negative() {
            -1real
        } else {
            1real
        },
{
    lemma_value(x);
    lemma_signed_value(x.magnitude(), false);
    lemma_signed_value(x.magnitude(), !x.is_negative());
    lemma_order(x, y);
    lemma_order(y, x);
    lemma_signed_value(ONE_BITS as int, x.is_negative());
    lemma_bounded_value(one());
    lemma_value(one());
}

/// What is no number stays none in sums, products and quotients; it is not ordered and not equal, and
/// counts as zero.
pub proof fn what_is_no_number_stays_none(x: Single, y: Single)
    requires
        x.is_nan(),
    ensures
        x.sum(y).is_nan() && y.sum(x).is_nan(),
        x.difference(y).is_nan() && y.difference(x).is_nan(),
        x.product(y).is_nan() && y.product(x).is_nan(),
        x.quotient(y).is_nan() && y.quotient(x).is_nan(),
        !x.not_above(y) && !y.not_above(x),
        !x.below(y) && !y.below(x),
        !x.eq_spec(&y) && !y.eq_spec(&x),
        x.smaller(y) == y && x.larger(y) == y,
        whole(x) == 0,
{
    reveal(Single::sum);
    reveal(Single::product);
    reveal(Single::quotient);
}

/// A number over zero lies beyond every number, on its side or on the other where the zero is
/// negative; zero over zero is no number; and a number over what lies beyond every number is zero.
pub proof fn quotients_by_zero_lie_beyond_every_number(x: Single, y: Single)
    requires
        x.magnitude() < INFINITY_BITS,
    ensures
        y.is_zero() && !x.is_zero() ==> x.quotient(y).is_infinite() && x.quotient(y).is_negative()
            == (x.is_negative() != y.is_negative()),
        y.is_zero() && x.is_zero() ==> x.quotient(y).is_nan(),
        y.is_infinite() ==> x.quotient(y).is_zero(),
{
    reveal(Single::quotient);
}

/// Rounding a value of no more than two moves it by no more than a 2^22nd.
proof fn lemma_rounding(exact: real)
    requires
        part(exact) <= 2real,
    ensures
        0real <= rounding(exact) <= 1real / 4194304real,
{
    lemma_bounds();
    let n = pow2(149) as real;
    assert(1real / n <= 1real / 16777216real && 1real / n >= 0real) by (nonlinear_arith)
        requires
            n >= 16777216real,
    ;
}

/// A number bounded by zero and one has its value bounded by zero and one.
proof fn lemma_bounded_value(x: Single)
    requires
        !x.is_nan(),
    ensures
        ({
            let kept = x.clamped(zero(), one());
            &&& !kept.is_nan()
            &&& kept.magnitude() <= ONE_BITS
            &&& value(x) < 0real ==> value(kept) == 0real
            &&& value(x) > 1real ==> value(kept) == 1real
            &&& 0real <= value(x) <= 1real ==> value(kept) == value(x)
        }),
        value(zero()) == 0real,
        value(one()) == 1real,
{
    lemma_constants();
    lemma_value(x);
    order_is_order_of_values(x, zero());
    order_is_order_of_values(one(), x);
    let (s, n) = (x.scaled() as real, pow2(149) as real);
    assert(0real / n == 0real && n / n == 1real) by (nonlinear_arith)
        requires
            n > 0real,
    ;
    let v = value(x);
    assert((s < 0real <==> v < 0real) && (s > n <==> v > 1real)) by (nonlinear_arith)
        requires
            s == v * n,
            n > 0real,
    ;
}

/// The order of numbers is the order of their values.
proof fn lemma_order(x: Single, y: Single)
    requires
        !x.is_nan(),
        !y.is_nan(),
    ensures
        x.not_above(y) <==> value(x) <= value(y),
        x.below(y) <==> value(x) < value(y),
{
    lemma_value(x);
    lemma_value(y);
    order_is_order_of_values(x, y);
    let (a, b, n) = (value(x), value(y), pow2(149) as real);
    assert((a * n < b * n <==> a < b) && (a * n == b * n <==> a == b)) by (nonlinear_arith)
        requires
            n > 0real,
    ;
}

/// The value of a dead zone is at most next to 0.99, and that of an anti-dead zone at most one.
proof fn lemma_zone_values(deadzone: Single, anti_deadzone: Single)
    requires
        are_zones(deadzone, anti_deadzone),
    ensures
        0real <= value(deadzone) <= 991real / 1000real,
        0real <= value(anti_deadzone) <= 1real,
{
    lemma_constants();
    let most = Single { bits: 0x3f7d_70a4 };
    vstd::arithmetic::power2::lemma2_to64();
    lemma_pow2_adds(24, 125);
    lemma_place(0xfd_70a4, 125);
    assert(0x3f7d_70a4 == 125 * 0x80_0000 + 0xfd_70a4);
    let p = pow2(125) as real;
    assert(most.scaled() == 0xfd_70a4 * pow2(125));
    lemma_value(most);
    let v = value(most);
    assert(v <= 991real / 1000real) by (nonlinear_arith)
        requires
            16609444real * p == v * (16777216real * p),
            p > 0real,
    ;
    order_is_order_of_values(deadzone, most);
    order_is_order_of_values(deadzone, zero());
    order_is_order_of_values(anti_deadzone, zero());
    order_is_order_of_values(anti_deadzone, one());
    lemma_order(deadzone, most);
    lemma_order(zero(), deadzone);
    lemma_order(zero(), anti_deadzone);
    lemma_order(anti_deadzone, one());
    lemma_bounded_value(one());
}

/// What is left of `m` behind the part `p` of the range, as a part `q` of what is left of the range,
/// is next to what it is exactly; `e` is how far each of its three steps may lie from its value.
proof fn lemma_part_errors(m: real, p: real, x: real, w: real, q: real, e: real)
    requires
        0real <= m <= 1real,
        -e <= p <= 992real / 1000real,
        p <= m + 6real * e,
        e == 1real / 4194304real,
        next_to(x, m - p, e),
        next_to(w, 1real - p, e),
        next_to(q * w, x, e * w),
    ensures
        -1real / 1000real <= q <= 1002real / 1000real,
        next_to(q * (1real - p), m - p, 4real * e),
{
    assert(q <= 1002real / 1000real) by (nonlinear_arith)
        requires
            q * w <= x + e * w,
            x <= 1real - p + e,
            w >= 1real - p - e,
            p <= 992real / 1000real,
            e == 1real / 4194304real,
    ;
    assert(q >= -1real / 1000real) by (nonlinear_arith)
        requires
            q * w >= x - e * w,
            x >= -(7real * e),
            w >= 1real - p - e,
            p <= 992real / 1000real,
            e == 1real / 4194304real,
    ;
    assert(next_to(q * (1real - p), m - p, 4real * e)) by (nonlinear_arith)
        requires
            q * w <= x + e * w,
            q * w >= x - e * w,
            m - p - e <= x <= m - p + e,
            1real - p - e <= w <= 1real - p + e,
            -e <= p,
            -1real / 1000real <= q <= 1002real / 1000real,
            e == 1real / 4194304real,
            next_to(q * (1real - p), m - p, 4real * e) == (m - p - 4real * e <= q * (1real - p)
                <= m - p + 4real * e),
    ;
}

/// A value that is next to one between zero and `most` is no farther from it once it is bounded by
/// them; it may lie below zero by no more than it may lie away.
proof fn lemma_bounding_brings_nearer(x: real, kept: real, most: real, exact: real, by: real)
    requires
        0real < most,
        next_to(x * most, exact, by),
        -by <= exact <= most,
        by >= 0real,
        x < 0real ==> kept == 0real,
        x > 1real ==> kept == 1real,
        0real <= x <= 1real ==> kept == x,
    ensures
        next_to(kept * most, exact, by),
        0real <= kept <= 1real,
{
    if x < 0real {
        assert(x * most <= 0real) by (nonlinear_arith)
            requires
                x < 0real,
                most > 0real,
        ;
        assert(kept * most == 0real) by (nonlinear_arith)
            requires
                kept == 0real,
        ;
    } else if x > 1real {
        assert(x * most >= most) by (nonlinear_arith)
            requires
                x > 1real,
                most > 0real,
        ;
        assert(kept * most == most) by (nonlinear_arith)
            requires
                kept == 1real,
        ;
    }
}

/// What rises from `a`: the part `q` of what is left from there to one.
proof fn lemma_rise_errors(
    t: real,
    u: real,
    a: real,
    q: real,
    rest: real,
    more: real,
    total: real,
    by: real,
    e: real,
)
    requires
        e == 1real / 4194304real,
        0real <= a <= 1real,
        0real < u <= 1real,
        -1real / 1000real <= q <= 1002real / 1000real,
        next_to(q * u, t, by),
        0real <= by <= 8real * e,
        next_to(rest, 1real - a, e),
        next_to(more, q * rest, e),
        next_to(total, a + more, e),
    ensures
        next_to(total * u, a * u + (1real - a) * t, by + 4real * e),
{
    let b = 1real - a;
    assert(next_to(more * u, (q * u) * b, (21real / 10real) * e)) by (nonlinear_arith)
        requires
            q * rest - e <= more <= q * rest + e,
            b - e <= rest <= b + e,
            -1real / 1000real <= q <= 1002real / 1000real,
            0real < u <= 1real,
            e == 1real / 4194304real,
            next_to(more * u, (q * u) * b, (21real / 10real) * e) == ((q * u) * b - (21real / 10real)
                * e <= more * u <= (q * u) * b + (21real / 10real) * e),
    ;
    assert(next_to((q * u) * b, t * b, by)) by (nonlinear_arith)
        requires
            t - by <= q * u <= t + by,
            0real <= b <= 1real,
            by >= 0real,
            next_to((q * u) * b, t * b, by) == (t * b - by <= (q * u) * b <= t * b + by),
    ;
    assert(next_to(total * u, a * u + more * u, e)) by (nonlinear_arith)
        requires
            a + more - e <= total <= a + more + e,
            0real < u <= 1real,
            e > 0real,
            next_to(total * u, a * u + more * u, e) == (a * u + more * u - e <= total * u <= a * u
                + more * u + e),
    ;
    assert(t * b == (1real - a) * t) by (nonlinear_arith)
        requires
            b == 1real - a,
    ;
}

/// A quotient of a number by a positive one that is not much smaller, by its values.
proof fn lemma_quotient_value(x: Single, w: Single)
    requires
        x.magnitude() < INFINITY_BITS,
        w.magnitude() < INFINITY_BITS,
        value(w) > 0real,
        part(value(x)) <= 2real * value(w),
    ensures
        !x.quotient(w).is_nan(),
        x.quotient(w).magnitude() < INFINITY_BITS,
        x.quotient(w).is_negative() == x.is_negative(),
        next_to(value(x.quotient(w)) * value(w), value(x), value(w) / 4194304real),
{
    lemma_value(x);
    lemma_value(w);
    lemma_size(w);
    let (a, b, n) = (part(value(x)), value(w), pow2(149) as real);
    assert(w.size() > 0) by {
        assert(b * n > 0real) by (nonlinear_arith)
            requires
                b > 0real,
                n > 0real,
        ;
    }
    quotients_are_next_to_their_values(x, w);
    let ratio = a / b;
    assert(ratio * b == a && 0real <= ratio <= 2real) by (nonlinear_arith)
        requires
            ratio == a / b,
            b > 0real,
            0real <= a <= 2real * b,
    ;
    lemma_rounding(ratio);
    let q = x.quotient(w);
    lemma_value(q);
    let size = part(value(q));
    let e = 1real / 4194304real;
    assert(next_to(size * b, a, e * b)) by (nonlinear_arith)
        requires
            ratio - e <= size <= ratio + e,
            ratio * b == a,
            b > 0real,
            next_to(size * b, a, e * b) == (a - e * b <= size * b <= a + e * b),
    ;
    assert(e * b == b / 4194304real) by (nonlinear_arith)
        requires
            e == 1real / 4194304real,
    ;
    if q.is_negative() {
        assert(-size * b == -(size * b)) by (nonlinear_arith);
    }
}

/// One, with the sign of a number, and how it is multiplied with.
proof fn lemma_directed(x: Single, kept: Single)
    requires
        x.magnitude() <= ONE_BITS,
        kept.magnitude() <= ONE_BITS,
        0real <= value(kept) <= 1real,
    ensures
        next_to(
            on_the_side_of(x, x.direction().product(kept)),
            value(kept),
            1real / 4194304real,
        ),
        next_to(
            on_the_side_of(x, kept.product(x.direction())),
            value(kept),
            1real / 4194304real,
        ),
{
    lemma_signed_value(ONE_BITS as int, x.is_negative());
    lemma_bounded_value(one());
    let way = x.direction();
    let v = value(kept);
    let w = value(way);
    assert(w * v == (if x.is_negative() {
        -v
    } else {
        v
    }) && v * w == w * v) by (nonlinear_arith)
        requires
            w == if x.is_negative() {
                -1real
            } else {
                1real
            },
    ;
    products_are_next_to_their_values(way, kept);
    products_are_next_to_their_values(kept, way);
    lemma_rounding(w * v);
}

/// Behind its dead zone `d`, an axis that is moved by `m` rises in proportion from `a` to one: it is
/// next to `a + (1 - a) * (m - d) / (1 - d)`, on the side to which it is moved. Up to the dead zone it
/// stays at zero.
#[verifier::rlimit(30)]
pub proof fn axes_rise_in_proportion(x: Single, deadzone: Single, anti_deadzone: Single)
    requires
        x.magnitude() <= ONE_BITS,
        are_zones(deadzone, anti_deadzone),
    ensures
        ({
            let (m, d, a) = (part(value(x)), value(deadzone), value(anti_deadzone));
            let r = axis_shaped(x, deadzone, anti_deadzone);
            &&& m <= d ==> r == zero()
            &&& m > d ==> next_to(
                on_the_side_of(x, r) * (1real - d),
                a * (1real - d) + (1real - a) * (m - d),
                1real / 262144real,
            )
        }),
{
    let (m, d, a) = (part(value(x)), value(deadzone), value(anti_deadzone));
    let e = 1real / 4194304real;
    lemma_zone_values(deadzone, anti_deadzone);
    lemma_value(x);
    let size = x.unsigned();
    lemma_signed_value(x.magnitude(), false);
    lemma_value(size);
    lemma_order(size, deadzone);
    lemma_bounded_value(one());
    lemma_order(size, one());
    if m > d {
        let moved = size.difference(deadzone);
        let range = one().difference(deadzone);
        differences_are_next_to_their_values(size, deadzone);
        differences_are_next_to_their_values(one(), deadzone);
        lemma_rounding(m - d);
        lemma_rounding(1real - d);
        lemma_value(moved);
        lemma_quotient_value(moved, range);
        let scaled = moved.quotient(range);
        assert(!scaled.is_negative());
        let q = value(scaled);
        assert(value(range) / 4194304real == e * value(range)) by (nonlinear_arith)
            requires
                e == 1real / 4194304real,
        ;
        lemma_part_errors(m, d, value(moved), value(range), q, e);
        let rest = one().difference(anti_deadzone);
        differences_are_next_to_their_values(one(), anti_deadzone);
        lemma_rounding(1real - a);
        let k = value(rest);
        assert(part(q * k) <= 11real / 10real) by (nonlinear_arith)
            requires
                -1real / 1000real <= q <= 1002real / 1000real,
                -e <= k <= 1real + e,
                e == 1real / 4194304real,
                part(q * k) == if q * k < 0real {
                    -(q * k)
                } else {
                    q * k
                },
        ;
        products_are_next_to_their_values(scaled, rest);
        lemma_rounding(q * k);
        let more = scaled.product(rest);
        assert(a + value(more) <= 2real) by (nonlinear_arith)
            requires
                value(more) <= q * k + e,
                k <= 1real - a + e,
                -e <= k,
                -1real / 1000real <= q <= 1002real / 1000real,
                0real <= a <= 1real,
                e == 1real / 4194304real,
        ;
        sums_are_next_to_their_values(anti_deadzone, more);
        lemma_rounding(a + value(more));
        let total = anti_deadzone.sum(more);
        let u = 1real - d;
        lemma_rise_errors(m - d, u, a, q, k, value(more), value(total), 4real * e, e);
        let exact = a * u + (1real - a) * (m - d);
        assert(0real <= exact <= u) by (nonlinear_arith)
            requires
                exact == a * u + (1real - a) * (m - d),
                0real <= a <= 1real,
                u == 1real - d,
                d < m <= 1real,
        ;
        lemma_bounded_value(total);
        let kept = total.clamped(zero(), one());
        lemma_bounding_brings_nearer(value(total), value(kept), u, exact, 8real * e);
        lemma_value(more);
        lemma_directed(x, kept);
        let r = axis_shaped(x, deadzone, anti_deadzone);
        let v = on_the_side_of(x, r);
        assert(next_to(v * u, exact, 16real * e)) by (nonlinear_arith)
            requires
                value(kept) - e <= v <= value(kept) + e,
                exact - 8real * e <= value(kept) * u <= exact + 8real * e,
                0real < u <= 1real,
                e > 0real,
                next_to(v * u, exact, 16real * e) == (exact - 16real * e <= v * u <= exact + 16real
                    * e),
        ;
    }
}

/// A rounded number is the one next to the exact value, and in the middle of two the even one.
pub proof fn rounding_goes_to_the_nearest_even_number(num: int, den: int)
    requires
        den > 0,
        num >= 0,
    ensures
        ({
            let m = nearest(num, den);
            let below = (scaled_magnitude(m - 1) + scaled_magnitude(m)) * den;
            let above = (scaled_magnitude(m) + scaled_magnitude(m + 1)) * den;
            &&& 0 <= m <= INFINITY_BITS
            &&& m > 0 ==> below <= 2 * num && (below == 2 * num ==> m % 2 == 0)
            &&& m < INFINITY_BITS ==> 2 * num <= above && (2 * num == above ==> m % 2 == 0)
        }),
{
    nearest_exists(num, den);
}

/// The distance of a position from the centre is that of Pythagoras, but for a 2^20th part of its
/// square, unless it lies next to zero.
pub proof fn distances_are_those_of_pythagoras(x: Single, y: Single)
    requires
        x.magnitude() <= ONE_BITS,
        y.magnitude() <= ONE_BITS,
        !x.distance(y).not_above(epsilon()),
    ensures
        ({
            let sum = value(x) * value(x) + value(y) * value(y);
            let r = value(x.distance(y));
            &&& next_to(r * r, sum, sum / 1048576real)
            &&& r > 0real
        }),
{
    let radius = x.distance(y);
    distances_are_not_below_the_coordinates(x, y);
    lemma_distance_at_most_two(x, y);
    lemma_order(radius, epsilon());
    lemma_epsilon_value();
    distances_are_accurate(x, y);
    lemma_value(x);
    lemma_value(y);
    lemma_value(radius);
    let n = pow2(149) as real;
    let (sx, sy, sr) = (x.size(), y.size(), radius.size());
    let (a, b, r) = (part(value(x)), part(value(y)), value(radius));
    lemma_square_value(sx, a, n);
    lemma_square_value(sy, b, n);
    lemma_square_value(sr, r, n);
    let sum = a * a + b * b;
    assert(value(x) * value(x) == a * a && value(y) * value(y) == b * b) by (nonlinear_arith)
        requires
            value(x) == a || value(x) == -a,
            value(y) == b || value(y) == -b,
    ;
    let (nn, rr, by) = (n * n, r * r, sum / 1048576real);
    assert(sum * nn == (a * a) * nn + (b * b) * nn) by (nonlinear_arith)
        requires
            sum == a * a + b * b,
    ;
    let total = square(sx) + square(sy);
    assert(-total <= (square(sr) - total) * 0x10_0000 <= total);
    assert(total as real == sum * nn);
    assert(next_to(rr, sum, by)) by (nonlinear_arith)
        requires
            -(sum * nn) <= (rr * nn - sum * nn) * 1048576real <= sum * nn,
            nn > 0real,
            by == sum / 1048576real,
            next_to(rr, sum, by) == (sum - by <= rr <= sum + by),
    ;
}

/// The square of a size, by its value.
proof fn lemma_square_value(size: int, v: real, n: real)
    requires
        size as real == v * n,
        n > 0real,
    ensures
        square(size) as real == (v * v) * (n * n),
        n * n > 0real,
{
    let s = size as real;
    let product = size * size;
    assert(product as real == s * s) by (nonlinear_arith)
        requires
            product == size * size,
            s == size as real,
    ;
    assert(s * s == (v * v) * (n * n) && n * n > 0real) by (nonlinear_arith)
        requires
            s == v * n,
            n > 0real,
    ;
}

/// The value of epsilon.
proof fn lemma_epsilon_value()
    ensures
        value(epsilon()) == 1real / 8388608real,
{
    lemma_bounds();
    let (p, n) = (pow2(126) as real, pow2(149) as real);
    assert(p / n == 1real / 8388608real) by (nonlinear_arith)
        requires
            n == 8388608real * p,
            p > 0real,
    ;
}

/// One axis of a position behind a circular dead zone: `m` is where it stands and `c` its part of the
/// distance; it has the part `c` of both zones.
#[verifier::rlimit(60)]
proof fn lemma_radial_axis_value(
    magnitude: Single,
    ratio: Single,
    deadzone: Single,
    anti_deadzone: Single,
)
    requires
        magnitude.magnitude() <= ONE_BITS,
        !magnitude.is_negative(),
        ratio.magnitude() <= ONE_BITS,
        !ratio.is_negative(),
        value(magnitude) > 1real / 8388608real,
        value(ratio) > 1real / 8388608real,
        are_zones(deadzone, anti_deadzone),
        value(ratio) * value(deadzone) <= value(magnitude) + 4real / 4194304real,
    ensures
        ({
            let (m, c) = (value(magnitude), value(ratio));
            let (d, a) = (value(deadzone), value(anti_deadzone));
            let r = radial_axis_shaped(magnitude, ratio, deadzone, anti_deadzone);
            &&& next_to(
                value(r) * (1real - c * d),
                m - c * d + c * a * (1real - m),
                12real / 4194304real,
            )
            &&& r.magnitude() <= ONE_BITS
            &&& 0real <= value(r) <= 1real
        }),
{
    let e = 1real / 4194304real;
    let (m, c) = (value(magnitude), value(ratio));
    let (d, a) = (value(deadzone), value(anti_deadzone));
    lemma_zone_values(deadzone, anti_deadzone);
    lemma_epsilon_value();
    lemma_order(magnitude, epsilon());
    lemma_order(ratio, epsilon());
    lemma_bounded_value(one());
    lemma_order(magnitude, one());
    lemma_order(ratio, one());
    let (cd, ca) = (c * d, c * a);
    assert(0real <= cd <= 991real / 1000real && 0real <= ca <= 1real) by (nonlinear_arith)
        requires
            cd == c * d,
            ca == c * a,
            0real <= c <= 1real,
            0real <= d <= 991real / 1000real,
            0real <= a <= 1real,
    ;
    let axis_deadzone = ratio.product(deadzone);
    products_are_next_to_their_values(ratio, deadzone);
    lemma_rounding(cd);
    lemma_value(axis_deadzone);
    lemma_value(deadzone);
    let p = value(axis_deadzone);
    let range = one().difference(axis_deadzone);
    differences_are_next_to_their_values(one(), axis_deadzone);
    lemma_rounding(1real - p);
    lemma_order(range, epsilon());
    assert(range.larger(epsilon()) == range);
    let moved = magnitude.difference(axis_deadzone);
    differences_are_next_to_their_values(magnitude, axis_deadzone);
    lemma_rounding(m - p);
    let (x, w) = (value(moved), value(range));
    lemma_quotient_value(moved, range);
    let quotient = moved.quotient(range);
    let q = value(quotient);
    assert(w / 4194304real == e * w) by (nonlinear_arith)
        requires
            e == 1real / 4194304real,
    ;
    lemma_part_errors(m, p, x, w, q, e);
    let (u, t) = (1real - cd, m - cd);
    assert(next_to(q * u, t, 7real * e)) by (nonlinear_arith)
        requires
            m - p - 4real * e <= q * (1real - p) <= m - p + 4real * e,
            cd - e <= p <= cd + e,
            -1real / 1000real <= q <= 1002real / 1000real,
            u == 1real - cd,
            t == m - cd,
            e == 1real / 4194304real,
            next_to(q * u, t, 7real * e) == (t - 7real * e <= q * u <= t + 7real * e),
    ;
    let scaled = quotient.clamped(zero(), one());
    lemma_bounded_value(quotient);
    lemma_bounding_brings_nearer(q, value(scaled), u, t, 7real * e);
    let s = value(scaled);
    let raised = ratio.product(anti_deadzone);
    products_are_next_to_their_values(ratio, anti_deadzone);
    lemma_rounding(ca);
    lemma_bounded_value(raised);
    let start = raised.clamped(zero(), one());
    assert(value(raised) * 1real == value(raised));
    lemma_bounding_brings_nearer(value(raised), value(start), 1real, ca, e);
    let b = value(start);
    let rest = one().difference(start);
    differences_are_next_to_their_values(one(), start);
    lemma_rounding(1real - b);
    let k = value(rest);
    assert(part(k * s) <= 2real && k * s == s * k && 0real - e <= k * s) by (nonlinear_arith)
        requires
            -e <= k <= 1real + e,
            0real <= s <= 1real,
            e == 1real / 4194304real,
            part(k * s) == if k * s < 0real {
                -(k * s)
            } else {
                k * s
            },
    ;
    let more = rest.product(scaled);
    products_are_next_to_their_values(rest, scaled);
    lemma_rounding(k * s);
    assert(part(value(more) + b) <= 2real) by (nonlinear_arith)
        requires
            s * k - e <= value(more) <= s * k + e,
            1real - b - e <= k <= 1real - b + e,
            0real <= b <= 1real,
            0real <= s <= 1real,
            e == 1real / 4194304real,
            part(value(more) + b) == if value(more) + b < 0real {
                -(value(more) + b)
            } else {
                value(more) + b
            },
    ;
    let total = more.sum(start);
    sums_are_next_to_their_values(more, start);
    lemma_rounding(value(more) + b);
    lemma_rise_errors(t, u, b, s, k, value(more), value(total), 7real * e, e);
    let exact = t + ca * (1real - m);
    assert(c * a * (1real - m) == ca * (1real - m));
    assert(next_to(b * u + (1real - b) * t, exact, e)) by (nonlinear_arith)
        requires
            ca - e <= b <= ca + e,
            u == 1real - cd,
            t == m - cd,
            exact == t + ca * (1real - m),
            0real <= m <= 1real,
            next_to(b * u + (1real - b) * t, exact, e) == (exact - e <= b * u + (1real - b) * t
                <= exact + e),
    ;
    assert(-(4real * e) <= exact <= u) by (nonlinear_arith)
        requires
            exact == t + ca * (1real - m),
            t == m - cd,
            u == 1real - cd,
            t >= -(4real * e),
            0real <= ca <= 1real,
            0real <= m <= 1real,
    ;
    lemma_bounded_value(total);
    let kept = total.clamped(zero(), one());
    lemma_bounding_brings_nearer(value(total), value(kept), u, exact, 12real * e);
}

/// A part of a distance is not above one.
proof fn lemma_part_of_distance(x: Single, radius: Single)
    requires
        !x.is_negative() && !radius.is_negative(),
        x.magnitude() <= radius.magnitude() < INFINITY_BITS,
        0 < radius.magnitude(),
    ensures
        !x.quotient(radius).is_negative(),
        x.quotient(radius).magnitude() <= ONE_BITS,
{
    lemma_constants();
    lemma_sizes_ordered(0, x.magnitude());
    lemma_sizes_ordered(x.magnitude(), radius.magnitude());
    lemma_size(radius);
    let (n, size, den) = (pow2(149) as int, x.size(), radius.size());
    let num = size * n;
    assert(0 <= num <= n * den) by (nonlinear_arith)
        requires
            num == size * n,
            0 <= size <= den,
            n > 0,
    ;
    nearest_exists(num, den);
    lemma_nearest_not_above(num, den, ONE_BITS as int, nearest(num, den));
    reveal(Single::quotient);
}

/// One axis of a position with a circular dead zone taken out: see [`circles_rise_in_proportion`].
#[verifier::rlimit(30)]
proof fn lemma_circle_axis(
    x: Single,
    radius: Single,
    deadzone: Single,
    anti_deadzone: Single,
)
    requires
        x.magnitude() <= ONE_BITS,
        part(value(x)) >= 1real / 128real,
        !radius.is_negative(),
        x.magnitude() <= radius.magnitude(),
        value(radius) <= 2real,
        radius.magnitude() < INFINITY_BITS,
        value(radius) > value(deadzone),
        are_zones(deadzone, anti_deadzone),
    ensures
        ({
            let size = x.unsigned().smaller(one());
            let out = radial_axis_shaped(size, size.quotient(radius), deadzone, anti_deadzone).product(
                x.direction(),
            );
            let c = part(value(x)) / value(radius);
            is_risen(x, out, c, value(deadzone), value(anti_deadzone))
        }),
{
    let e = 1real / 4194304real;
    let size = x.unsigned();
    lemma_signed_value(x.magnitude(), false);
    lemma_value(x);
    lemma_value(size);
    lemma_value(radius);
    lemma_order(size, one());
    lemma_bounded_value(one());
    lemma_order(one(), size);
    assert(x.unsigned().smaller(one()) == size);
    lemma_order(size, radius);
    lemma_zone_values(deadzone, anti_deadzone);
    let (m, r) = (value(size), value(radius));
    let (d, a) = (value(deadzone), value(anti_deadzone));
    lemma_size(radius);
    lemma_size(size);
    let n = pow2(149) as real;
    assert(radius.magnitude() > 0) by {
        assert(r * n > 0real) by (nonlinear_arith)
            requires
                r > 0real,
                n > 0real,
        ;
    }
    lemma_part_of_distance(size, radius);
    let ratio = size.quotient(radius);
    quotients_are_next_to_their_values(size, radius);
    lemma_value(ratio);
    let (c, f) = (value(ratio), m / r);
    assert(f * r == m && 1real / 256real <= f <= 1real) by (nonlinear_arith)
        requires
            f == m / r,
            1real / 128real <= m <= r,
            0real < r <= 2real,
    ;
    lemma_rounding(f);
    assert(c * d <= m + 4real * e && f * d <= m) by (nonlinear_arith)
        requires
            c <= f + e,
            f * r == m,
            0real <= d < r,
            d <= 1real,
            f >= 0real,
            e > 0real,
    ;
    lemma_radial_axis_value(size, ratio, deadzone, anti_deadzone);
    let kept = radial_axis_shaped(size, ratio, deadzone, anti_deadzone);
    lemma_directed(x, kept);
    let out = kept.product(x.direction());
    let (k, v) = (value(kept), on_the_side_of(x, out));
    let at = f * a * (1real - f * d) + (1real - f * a) * (m - f * d);
    let near = m - c * d + c * a * (1real - m);
    assert(at == m - f * d + f * (a * (1real - m))) by (nonlinear_arith)
        requires
            at == f * a * (1real - f * d) + (1real - f * a) * (m - f * d),
    ;
    let w = a * (1real - m) - d;
    assert(-1real <= w <= 1real) by (nonlinear_arith)
        requires
            w == a * (1real - m) - d,
            0real <= a <= 1real,
            0real <= m <= 1real,
            0real <= d <= 1real,
    ;
    assert(near == m + c * w && at == m + f * w) by (nonlinear_arith)
        requires
            near == m - c * d + c * a * (1real - m),
            at == m - f * d + f * (a * (1real - m)),
            w == a * (1real - m) - d,
    ;
    assert(next_to(c * w, f * w, e)) by (nonlinear_arith)
        requires
            f - e <= c <= f + e,
            -1real <= w <= 1real,
            e > 0real,
            next_to(c * w, f * w, e) == (f * w - e <= c * w <= f * w + e),
    ;
    assert(next_to(k * (1real - f * d), k * (1real - c * d), e)) by (nonlinear_arith)
        requires
            f - e <= c <= f + e,
            0real <= d <= 1real,
            0real <= k <= 1real,
            e > 0real,
            next_to(k * (1real - f * d), k * (1real - c * d), e) == (k * (1real - c * d) - e <= k * (
            1real - f * d) <= k * (1real - c * d) + e),
    ;
    let u = 1real - f * d;
    assert(0real <= u <= 1real) by (nonlinear_arith)
        requires
            u == 1real - f * d,
            0real <= f <= 1real,
            0real <= d <= 1real,
    ;
    assert(next_to(v * u, k * u, e)) by (nonlinear_arith)
        requires
            k - e <= v <= k + e,
            0real <= u <= 1real,
            e > 0real,
            next_to(v * u, k * u, e) == (k * u - e <= v * u <= k * u + e),
    ;
}

/// The axis `x` of a position, whose part of the distance is `c`, is risen to `out`: behind the part
/// `c` of the dead zone `d` it rises in proportion from the part `c` of `a` to one. So it is next to
/// `c * a + (1 - c * a) * (m - c * d) / (1 - c * d)`, where `m` is how far it stands.
pub open spec fn is_risen(x: Single, out: Single, c: real, d: real, a: real) -> bool {
    next_to(
        on_the_side_of(x, out) * (1real - c * d),
        c * a * (1real - c * d) + (1real - c * a) * (part(value(x)) - c * d),
        1real / 262144real,
    )
}

/// Up to a circular dead zone a position stays at the centre. Behind it, each axis that is moved by
/// more than next to nothing rises in proportion, with the part of both zones that is its part of the
/// distance from the centre.
pub proof fn circles_rise_in_proportion(
    x: Single,
    y: Single,
    deadzone: Single,
    anti_deadzone: Single,
)
    requires
        x.magnitude() <= ONE_BITS,
        y.magnitude() <= ONE_BITS,
        are_zones(deadzone, anti_deadzone),
    ensures
        ({
            let radius = value(x.distance(y));
            let (d, a) = (value(deadzone), value(anti_deadzone));
            let (out_x, out_y) = radially_shaped(x, y, deadzone, anti_deadzone);
            &&& radius <= d ==> out_x == zero() && out_y == zero()
            &&& x.is_zero() ==> out_x.is_zero()
            &&& y.is_zero() ==> out_y.is_zero()
            &&& radius > d && part(value(x)) >= 1real / 128real ==> is_risen(
                x,
                out_x,
                part(value(x)) / radius,
                d,
                a,
            )
            &&& radius > d && part(value(y)) >= 1real / 128real ==> is_risen(
                y,
                out_y,
                part(value(y)) / radius,
                d,
                a,
            )
        }),
{
    let radius = x.distance(y);
    distances_are_not_below_the_coordinates(x, y);
    lemma_distance_at_most_two(x, y);
    lemma_zone_values(deadzone, anti_deadzone);
    lemma_order(radius, deadzone);
    lemma_epsilon_value();
    lemma_order(radius, epsilon());
    lemma_order(radius, Single { bits: TWO_BITS });
    lemma_two_value();
    lemma_value(x);
    lemma_value(y);
    lemma_value(radius);
    lemma_signed_value(x.magnitude(), false);
    lemma_signed_value(y.magnitude(), false);
    lemma_order(x.unsigned(), radius);
    lemma_order(y.unsigned(), radius);
    lemma_value(x.unsigned());
    lemma_value(y.unsigned());
    lemma_signed_value(ONE_BITS as int, x.is_negative());
    lemma_signed_value(ONE_BITS as int, y.is_negative());
    lemma_bounded_value(one());
    lemma_order(x.unsigned(), epsilon());
    lemma_order(y.unsigned(), epsilon());
    lemma_order(one(), x.unsigned());
    lemma_order(one(), y.unsigned());
    products_commute(zero(), x.direction());
    products_commute(zero(), y.direction());
    lemma_times_nothing(x.direction(), zero());
    lemma_times_nothing(y.direction(), zero());
    lemma_size(x);
    lemma_size(y);
    if value(radius) > value(deadzone) {
        if part(value(x)) >= 1real / 128real {
            lemma_circle_axis(x, radius, deadzone, anti_deadzone);
        }
        if part(value(y)) >= 1real / 128real {
            lemma_circle_axis(y, radius, deadzone, anti_deadzone);
        }
    }
}

/// The value of two.
proof fn lemma_two_value()
    ensures
        value(Single { bits: TWO_BITS }) == 2real,
{
    lemma_bounds();
    lemma_constants();
    let n = pow2(149) as real;
    assert((2real * n) / n == 2real) by (nonlinear_arith)
        requires
            n > 0real,
    ;
}

/// An integer, by its value.
proof fn lemma_integer_value(n: int)
    requires
        -0x100_0000 < n < 0x100_0000,
    ensures
        value(integer(n)) == n as real,
        integer(n).magnitude() < INFINITY_BITS,
        integer(n).is_negative() == (n < 0),
{
    lemma_small_integer(absolute(n));
    lemma_value(integer(n));
    let (size, unit) = (absolute(n), pow2(149) as int);
    let (s, u) = (size as real, unit as real);
    let v = part(value(integer(n)));
    let scaled = size * unit;
    assert(scaled as real == s * u) by (nonlinear_arith)
        requires
            scaled == size * unit,
            s == size as real,
            u == unit as real,
    ;
    assert(v == s) by (nonlinear_arith)
        requires
            v * u == s * u,
            u > 0real,
    ;
}

/// A raw axis stands at its part of the way: from its centre at 128 it is 127 steps to the one end,
/// and 128 to the other. Values outside the range stand at its ends.
pub proof fn axes_stand_where_their_values_do(raw: int)
    ensures
        128 <= raw <= 255 ==> next_to(
            value(unit_of(raw)),
            (raw - 128) as real / 127real,
            1real / 4194304real,
        ),
        0 <= raw <= 128 ==> next_to(
            value(unit_of(raw)),
            (raw - 128) as real / 128real,
            1real / 4194304real,
        ),
        raw < 0 ==> unit_of(raw) == unit_of(0),
        raw > 255 ==> unit_of(raw) == unit_of(255),
        unit_of(raw).magnitude() <= ONE_BITS,
{
    lemma_constants();
    lemma_unit_size(raw);
    if 0 <= raw <= 255 {
        let offset = raw - 128;
        let half = if offset >= 0 {
            Single { bits: UPPER_HALF_BITS }
        } else {
            Single { bits: LOWER_HALF_BITS }
        };
        let steps = if offset >= 0 {
            127real
        } else {
            128real
        };
        let n = pow2(149) as real;
        assert((steps * n) / n == steps) by (nonlinear_arith)
            requires
                n > 0real,
        ;
        assert(value(half) == steps);
        lemma_integer_value(offset);
        let start = integer(offset);
        let x = offset as real;
        lemma_value(start);
        lemma_value(half);
        quotients_are_next_to_their_values(start, half);
        let ratio = part(x) / steps;
        assert(0real <= ratio <= 1real && x / steps == (if x < 0real {
            -ratio
        } else {
            ratio
        })) by (nonlinear_arith)
            requires
                ratio == part(x) / steps,
                part(x) == if x < 0real {
                    -x
                } else {
                    x
                },
                -steps <= x <= steps,
                steps > 0real,
        ;
        lemma_rounding(ratio);
        let moved = start.quotient(half);
        lemma_value(moved);
        if offset >= 0 {
            lemma_bounded_value(moved);
        } else {
            lemma_bounded_below(moved);
        }
        if offset == 0 {
            assert(x / 128real == 0real && x / 127real == 0real);
        }
    }
}

/// A number bounded by minus one and zero.
proof fn lemma_bounded_below(x: Single)
    requires
        !x.is_nan(),
        value(x) <= 0real,
    ensures
        ({
            let kept = x.clamped(Single { bits: MINUS_ONE_BITS }, zero());
            &&& value(x) < -1real ==> value(kept) == -1real
            &&& value(x) >= -1real ==> value(kept) == value(x)
        }),
{
    lemma_minus_one();
    lemma_bounded_value(one());
    lemma_order(x, Single { bits: MINUS_ONE_BITS });
    lemma_order(zero(), x);
}

/// The value of minus one.
proof fn lemma_minus_one()
    ensures
        value(Single { bits: MINUS_ONE_BITS }) == -1real,
{
    lemma_bounded_value(one());
    lemma_signed_value(ONE_BITS as int, true);
    lemma_value(one());
    assert(with_sign(ONE_BITS as int, true).bits == MINUS_ONE_BITS);
}

/// Whole numbers are next to the numbers that they stand for: no more than a half away.
pub proof fn wholes_are_next_to_their_values(x: Single)
    requires
        x.magnitude() < INFINITY_BITS,
    ensures
        next_to(whole(x) as real, value(x), 1real / 2real),
{
    lemma_constants();
    lemma_value(x);
    lemma_size(x);
    vstd::arithmetic::power2::lemma_pow2_unfold(150);
    let (s, n) = (x.size(), pow2(149) as int);
    let w = (2 * s + n) / (2 * n);
    vstd::arithmetic::div_mod::lemma_fundamental_div_mod(2 * s + n, 2 * n);
    let rest = (2 * s + n) % (2 * n);
    let product = (2 * n) * w;
    assert(0 <= rest < 2 * n);
    let (rw, rn, v) = (w as real, n as real, part(value(x)));
    assert(product as real == 2real * rn * rw) by (nonlinear_arith)
        requires
            product == (2 * n) * w,
            rn == n as real,
            rw == w as real,
    ;
    assert(next_to(rw, v, 1real / 2real)) by (nonlinear_arith)
        requires
            2real * (v * rn) + rn - 2real * rn <= 2real * rn * rw <= 2real * (v * rn) + rn,
            rn > 0real,
            next_to(rw, v, 1real / 2real) == (v - 1real / 2real <= rw <= v + 1real / 2real),
    ;
}

/// The virtual controller shows an axis at its part of the way: 32767 steps to the one end, 32768 to
/// the other. Beyond the ends it is shown at them, and at rest where it stands nowhere.
#[verifier::rlimit(30)]
pub proof fn axes_are_shown_at_their_part_of_the_way(x: Single)
    ensures
        ({
            let at = shown_at(x) as real;
            let v = value(x);
            &&& x.is_nan() ==> at == 0real
            &&& !x.is_nan() && 0real <= v <= 1real ==> next_to(at, 32767real * v, 51real / 100real)
            &&& !x.is_nan() && -1real <= v < 0real ==> next_to(at, 32768real * v, 51real / 100real)
            &&& !x.is_nan() && v > 1real ==> at == 32767real
            &&& !x.is_nan() && v < -1real ==> at == -32768real
        }),
{
    reveal(shown_at);
    lemma_constants();
    lemma_minus_one();
    lemma_bounded_value(one());
    if x.is_nan() {
        reveal(Single::product);
    } else {
        let minus = Single { bits: MINUS_ONE_BITS };
        lemma_order(x, minus);
        lemma_order(one(), x);
        let inside = x.clamped(minus, one());
        lemma_order(zero(), inside);
        let (upper, lower) = (Single { bits: UPPER_RANGE_BITS }, Single { bits: LOWER_RANGE_BITS });
        let n = pow2(149) as real;
        assert((32767real * n) / n == 32767real && (32768real * n) / n == 32768real)
            by (nonlinear_arith)
            requires
                n > 0real,
        ;
        assert(value(upper) == 32767real && value(lower) == 32768real);
        let v = value(inside);
        let (scale, steps) = if v >= 0real {
            (upper, 32767real)
        } else {
            (lower, 32768real)
        };
        let exact = v * steps;
        assert(part(exact) <= 32768real && exact == steps * v) by (nonlinear_arith)
            requires
                exact == v * steps,
                -1real <= v <= 1real,
                32767real <= steps <= 32768real,
                part(exact) == if exact < 0real {
                    -exact
                } else {
                    exact
                },
        ;
        products_are_next_to_their_values(inside, scale);
        lemma_wide_rounding(exact);
        wholes_are_next_to_their_values(inside.product(scale));
        lemma_ends_shown(one());
        lemma_ends_shown(minus);
        if value(x) > 1real {
            assert(one().clamped(minus, one()) == one());
        }
        if value(x) < -1real {
            lemma_order(minus, one());
            assert(minus.clamped(minus, one()) == minus);
        }
    }
}

/// Rounding a value in the range of the virtual controller moves it by less than a 100th.
proof fn lemma_wide_rounding(exact: real)
    requires
        part(exact) <= 32768real,
    ensures
        rounding(exact) <= 1real / 100real,
{
    lemma_bounds();
    let n = pow2(149) as real;
    assert(1real / n <= 1real / 16777216real) by (nonlinear_arith)
        requires
            n >= 16777216real,
    ;
}

/// A stick is shown where its axes are: where they stand while shaping is switched off; else with the
/// dead zone of its kind taken out, each by the zones of the stick, and stretched where that is set.
pub proof fn sticks_are_shaped_by_zones_and_square(raw: Stick2<i32>, stick: StickProfile)
    ensures
        ({
            let (x, y) = (unit_of(raw.x as int), unit_of(raw.y as int));
            let (d, a) = (stick.deadzone, stick.anti_deadzone);
            let off = shaped(raw, stick, false);
            let on = shaped(raw, stick, true);
            let (u, v) = if stick.deadzone_shape == DeadzoneShape::Axial {
                (axis_shaped(x, d, a), axis_shaped(y, d, a))
            } else {
                radially_shaped(x, y, d, a)
            };
            &&& off.x == shown_at(x) && off.y == shown_at(y)
            &&& !stick.square ==> on.x == shown_at(u) && on.y == shown_at(v)
            &&& stick.square ==> on.x == shown_at(squared(u, v).0) && on.y == shown_at(
                squared(u, v).1,
            )
        }),
{
    let (x, y) = (unit_of(raw.x as int), unit_of(raw.y as int));
    let (d, a) = (stick.deadzone, stick.anti_deadzone);
    let (u, v) = if stick.deadzone_shape == DeadzoneShape::Axial {
        (axis_shaped(x, d, a), axis_shaped(y, d, a))
    } else {
        radially_shaped(x, y, d, a)
    };
    shown_within_the_range(x);
    shown_within_the_range(y);
    shown_within_the_range(u);
    shown_within_the_range(v);
    shown_within_the_range(squared(u, v).0);
    shown_within_the_range(squared(u, v).1);
}

/// A zone that is no number holds an axis at rest.
proof fn lemma_no_zone_axis(x: Single, deadzone: Single, anti_deadzone: Single)
    requires
        deadzone.is_nan() || anti_deadzone.is_nan(),
    ensures
        ({
            let r = axis_shaped(x, deadzone, anti_deadzone);
            r.is_nan() || r == zero()
        }),
{
    reveal(Single::sum);
    reveal(Single::product);
    reveal(Single::quotient);
}

/// A zone that is no number holds one axis of a position at rest.
proof fn lemma_no_zone_circle(
    magnitude: Single,
    ratio: Single,
    deadzone: Single,
    anti_deadzone: Single,
    way: Single,
)
    requires
        deadzone.is_nan() || anti_deadzone.is_nan(),
        way.is_nan() || way.magnitude() == ONE_BITS,
    ensures
        ({
            let r = radial_axis_shaped(magnitude, ratio, deadzone, anti_deadzone).product(way);
            r.is_nan() || r.is_zero()
        }),
{
    if !way.is_nan() {
        products_commute(zero(), way);
        lemma_times_nothing(way, zero());
    }
    reveal(Single::sum);
    reveal(Single::product);
    reveal(Single::quotient);
}

/// Where a zone is no number, the stick is shown at rest, unless shaping is switched off.
pub proof fn zones_that_are_no_numbers_hold_the_stick(raw: Stick2<i32>, stick: StickProfile)
    requires
        stick.deadzone.is_nan() || stick.anti_deadzone.is_nan(),
        !stick.square,
    ensures
        shaped(raw, stick, true) == (Stick2 { x: 0i32, y: 0i32 }),
{
    let (x, y) = (unit_of(raw.x as int), unit_of(raw.y as int));
    let (d, a) = (stick.deadzone, stick.anti_deadzone);
    lemma_unit_size(raw.x as int);
    lemma_unit_size(raw.y as int);
    lemma_no_zone_axis(x, d, a);
    lemma_no_zone_axis(y, d, a);
    let radius = x.distance(y);
    let (abs_x, abs_y) = (x.unsigned().smaller(one()), y.unsigned().smaller(one()));
    lemma_signed_value(ONE_BITS as int, x.is_negative());
    lemma_signed_value(ONE_BITS as int, y.is_negative());
    lemma_no_zone_circle(abs_x, abs_x.quotient(radius), d, a, x.direction());
    lemma_no_zone_circle(abs_y, abs_y.quotient(radius), d, a, y.direction());
    let (u, v) = if stick.deadzone_shape == DeadzoneShape::Axial {
        (axis_shaped(x, d, a), axis_shaped(y, d, a))
    } else {
        radially_shaped(x, y, d, a)
    };
    lemma_held(u);
    lemma_held(v);
    sticks_are_shaped_by_zones_and_square(raw, stick);
}

/// What is zero, or no number, is shown at rest.
proof fn lemma_held(x: Single)
    requires
        x.is_nan() || x.is_zero(),
    ensures
        shown_at(x) == 0,
{
    if x.is_nan() {
        axes_are_shown_at_their_part_of_the_way(x);
    } else {
        lemma_zero_shown(x);
    }
}

/// A position next to the centre has the centre for its square.
pub proof fn squares_of_the_centre_are_the_centre(x: Single, y: Single)
    requires
        x.magnitude() <= ONE_BITS,
        y.magnitude() <= ONE_BITS,
        value(x.distance(y)) <= 1real / 8388608real,
    ensures
        squared(x, y) == (zero(), zero()),
{
    distances_are_not_below_the_coordinates(x, y);
    lemma_epsilon_value();
    lemma_order(x.distance(y), epsilon());
}

} // verus!
