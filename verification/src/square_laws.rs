//! What holds of the square that a circle is stretched to.
use vstd::arithmetic::power2::{lemma_pow2_adds, lemma_pow2_pos, pow2};
use vstd::prelude::*;

#[allow(unused_imports)]
use crate::arithmetic::{absolute, epsilon, lemma_gap, one, with_sign, zero, EPSILON_BITS};
#[allow(unused_imports)]
use crate::distance::{
    distances_are_accurate, distances_are_not_below_the_coordinates, is_distance, lemma_normal_gap,
    lemma_squares_increase, square,
};
#[allow(unused_imports)]
use crate::profile::StickProfile;
#[allow(unused_imports)]
use crate::rounding::{
    lemma_nearest_not_above, lemma_nearest_not_below, lemma_place, nearest, nearest_exists,
    rounding_keeps_the_order, INFINITY_BITS,
};
#[allow(unused_imports)]
use crate::shape::{
    axis_shaped, behind_deadzone, finished, lemma_constants, shaped, shown_at,
    shown_within_the_range, squared, squared_at, unit_of, LOWER_RANGE_BITS, UPPER_RANGE_BITS,
};
#[allow(unused_imports)]
use crate::shape_laws::{
    lemma_shown_side, lemma_zero_shown, motion_starts_behind_the_anti_deadzone,
    squares_keep_the_side,
};
#[allow(unused_imports)]
use crate::single::{lemma_scaled_magnitude_increases, scaled_magnitude, Single, ONE_BITS};
#[allow(unused_imports)]
use crate::stick::Stick2;
#[allow(unused_imports)]
use crate::zone_laws::{
    are_zones, lemma_distance_at_most_two, lemma_ends_shown, lemma_epsilon, lemma_exchanged_at,
    lemma_radially_shaped, lemma_shown_of, lemma_size, lemma_sizes_ordered, lemma_unit_size,
    shown_distance, TWO_BITS,
};

verus! {

/// The bits of one half.
pub const HALF_BITS: u32 = 0x3f00_0000;

/// The bits of 16.
pub const SIXTEEN_BITS: u32 = 0x4180_0000;

/// Rounding changes a value by a 2^24th at most, unless it lies next to zero or beyond every
/// number.
proof fn lemma_relative_error(num: int, den: int)
    requires
        den > 0,
        num >= 0x80_0000 * den,
        nearest(num, den) < INFINITY_BITS,
    ensures
        nearest(num, den) >= 0x80_0000,
        scaled_magnitude(nearest(num, den)) * den * 0x100_0000 <= num * 0x100_0001,
        scaled_magnitude(nearest(num, den)) * den * 0x100_0000 >= num * 0xff_ffff,
{
    nearest_exists(num, den);
    let m = nearest(num, den);
    lemma_place(0x80_0000, 0);
    vstd::arithmetic::power2::lemma2_to64();
    assert(scaled_magnitude(0x80_0000) == 0x80_0000);
    lemma_nearest_not_below(num, den, 0x80_0000, m);
    let here = scaled_magnitude(m);
    let next = scaled_magnitude(m + 1);
    lemma_normal_gap(m);
    if num >= here * den {
        assert(here * den * 0x100_0000 >= num * 0xff_ffff) by (nonlinear_arith)
            requires
                2 * num <= (here + next) * den,
                (next - here) * 0x80_0000 <= here,
                num >= here * den,
                den > 0,
        ;
    } else {
        assert(m > 0x80_0000);
        let before = scaled_magnitude(m - 1);
        lemma_normal_gap(m - 1);
        lemma_scaled_magnitude_increases(m - 1, m);
        assert(here * den * 0x100_0000 <= num * 0x100_0001) by (nonlinear_arith)
            requires
                2 * num >= (before + here) * den,
                (here - before) * 0x80_0000 <= before,
                before < here,
                num < here * den,
                den > 0,
        ;
    }
}

/// The bounds in units of 2^-149.
pub proof fn lemma_bounds()
    ensures
        pow2(149) == 0x80_0000 * pow2(126),
        pow2(126) >= 0x1000_0000,
        scaled_magnitude(ONE_BITS as int) == pow2(149),
        2 * scaled_magnitude(HALF_BITS as int) == pow2(149),
        scaled_magnitude(TWO_BITS as int) == 2 * pow2(149),
        scaled_magnitude(SIXTEEN_BITS as int) == 16 * pow2(149),
        scaled_magnitude(EPSILON_BITS as int) == pow2(126),
{
    lemma_constants();
    lemma_epsilon();
    vstd::arithmetic::power2::lemma2_to64();
    lemma_pow2_pos(126);
    lemma_pow2_pos(98);
    lemma_pow2_adds(28, 98);
    lemma_pow2_adds(23, 126);
    lemma_pow2_adds(23, 125);
    lemma_pow2_adds(1, 125);
    lemma_pow2_adds(1, 126);
    lemma_pow2_adds(4, 126);
    lemma_place(0x80_0000, 125);
    lemma_place(0x80_0000, 127);
    lemma_place(0x80_0000, 130);
}

/// The part of the distance `r` that lies along an axis, as magnitude bits.
spec fn along(m: int, r: int) -> int {
    nearest(scaled_magnitude(m) * pow2(149), scaled_magnitude(r))
}

/// How far the square is beyond the circle in a direction with the larger part `u`, as magnitude
/// bits.
spec fn stretch_of(u: int) -> int {
    nearest((pow2(149) * pow2(149)) as int, scaled_magnitude(u))
}

/// The product of two magnitudes, as magnitude bits.
spec fn times(a: int, b: int) -> int {
    nearest(scaled_magnitude(a) * scaled_magnitude(b), pow2(149) as int)
}

/// The larger part of a direction lies next to one, and so does the stretch.
proof fn lemma_larger_part(m: int, r: int)
    requires
        EPSILON_BITS < r < INFINITY_BITS,
        0 < m <= ONE_BITS,
        scaled_magnitude(r) <= 2 * scaled_magnitude(m),
        scaled_magnitude(m) <= 2 * scaled_magnitude(r),
    ensures
        HALF_BITS <= along(m, r) <= TWO_BITS,
        HALF_BITS <= stretch_of(along(m, r)) <= TWO_BITS,
        pow2(149) <= 2 * scaled_magnitude(along(m, r)),
        scaled_magnitude(along(m, r)) <= 2 * pow2(149),
        pow2(149) <= 2 * scaled_magnitude(stretch_of(along(m, r))),
        scaled_magnitude(stretch_of(along(m, r))) <= 2 * pow2(149),
{
    lemma_bounds();
    let unit = pow2(149) as int;
    lemma_scaled_magnitude_increases(0, r);
    lemma_scaled_magnitude_increases(0, m);
    let (x, den) = (scaled_magnitude(m), scaled_magnitude(r));
    let num = x * unit;
    let half = scaled_magnitude(HALF_BITS as int);
    assert(half * den <= num <= (2 * unit) * den) by (nonlinear_arith)
        requires
            num == x * unit,
            0 < den <= 2 * x,
            0 < x <= 2 * den,
            2 * half == unit,
            half > 0,
    ;
    let u = along(m, r);
    nearest_exists(num, den);
    lemma_nearest_not_below(num, den, HALF_BITS as int, u);
    lemma_nearest_not_above(num, den, TWO_BITS as int, u);
    lemma_sizes_ordered(HALF_BITS as int, u);
    lemma_sizes_ordered(u, TWO_BITS as int);
    let size = scaled_magnitude(u);
    let square = unit * unit;
    assert(half * size <= square <= (2 * unit) * size) by (nonlinear_arith)
        requires
            square == unit * unit,
            half <= size <= 2 * unit,
            2 * half == unit,
            half > 0,
    ;
    nearest_exists(square, size);
    lemma_nearest_not_below(square, size, HALF_BITS as int, stretch_of(u));
    lemma_nearest_not_above(square, size, TWO_BITS as int, stretch_of(u));
    lemma_sizes_ordered(HALF_BITS as int, stretch_of(u));
    lemma_sizes_ordered(stretch_of(u), TWO_BITS as int);
}

/// The errors of three roundings on the way from `r` by way of `u` to `w`.
proof fn lemma_three_errors(unit: int, u: int, r: int, v: int, b: int, w: int)
    requires
        unit > 0,
        u > 0,
        r > 0,
        v >= 0,
        b >= 0,
        w >= 0,
        u * r * 0xff_ffff <= v * unit * 0x100_0000 <= u * r * 0x100_0001,
        unit * unit * 0xff_ffff <= b * u * 0x100_0000 <= unit * unit * 0x100_0001,
        v * b * 0xff_ffff <= w * unit * 0x100_0000 <= v * b * 0x100_0001,
    ensures
        -r <= (w - r) * 0x40_0000 <= r,
{
    let t: int = 0x100_0000;
    let (hi, lo): (int, int) = (0x100_0001, 0xff_ffff);
    let (p, q) = (v * unit, b * u);
    let (a, c) = (u * r, unit * unit);
    let d = v * b;
    let e = w * unit;
    assert(p * q == d * (unit * u)) by (nonlinear_arith)
        requires
            p == v * unit,
            q == b * u,
            d == v * b,
    ;
    assert(p >= 0 && q >= 0 && a > 0 && c > 0 && d >= 0) by (nonlinear_arith)
        requires
            p == v * unit,
            q == b * u,
            a == u * r,
            c == unit * unit,
            d == v * b,
            unit > 0,
            u > 0,
            r > 0,
            v >= 0,
            b >= 0,
    ;
    assert((a * lo) * (c * lo) <= (p * t) * (q * t) <= (a * hi) * (c * hi)) by (nonlinear_arith)
        requires
            0 <= a * lo <= p * t <= a * hi,
            0 <= c * lo <= q * t <= c * hi,
    ;
    let z = unit * u;
    assert((d * lo) * z <= (e * t) * z <= (d * hi) * z) by (nonlinear_arith)
        requires
            d * lo <= e * t <= d * hi,
            z == unit * u,
            unit > 0,
            u > 0,
    ;
    let k = u * c;
    assert(k > 0) by (nonlinear_arith)
        requires
            k == u * c,
            u > 0,
            c > 0,
    ;
    assert(a * c == k * r) by (nonlinear_arith)
        requires
            a == u * r,
            k == u * c,
    ;
    assert(e * z == k * w) by (nonlinear_arith)
        requires
            e == w * unit,
            z == unit * u,
            k == u * c,
            c == unit * unit,
    ;
    assert((e * t) * z == (k * w) * t) by (nonlinear_arith)
        requires
            e * z == k * w,
    ;
    let pq = p * q;
    assert((d * hi) * z == pq * hi && (d * lo) * z == pq * lo) by (nonlinear_arith)
        requires
            pq == d * z,
    ;
    assert((p * t) * (q * t) == pq * t * t) by (nonlinear_arith)
        requires
            pq == p * q,
    ;
    assert((a * hi) * (c * hi) == (k * r) * hi * hi) by (nonlinear_arith)
        requires
            a * c == k * r,
    ;
    assert((a * lo) * (c * lo) == (k * r) * lo * lo) by (nonlinear_arith)
        requires
            a * c == k * r,
    ;
    let (kw, kr) = (k * w, k * r);
    // kw * t <= pq * hi and pq * t * t <= kr * hi * hi.
    assert(kw * t * t * t <= kr * hi * hi * hi);
    assert(kw * t * t * t >= kr * lo * lo * lo);
    assert(kr > 0) by (nonlinear_arith)
        requires
            kr == k * r,
            k > 0,
            r > 0,
    ;
    assert(-kr <= (kw - kr) * 0x40_0000 <= kr);
    assert(-r <= (w - r) * 0x40_0000 <= r) by (nonlinear_arith)
        requires
            -kr <= (kw - kr) * 0x40_0000 <= kr,
            kw == k * w,
            kr == k * r,
            k > 0,
    ;
}

/// Where the larger coordinate `m` of a position at the distance `r` ends up, as magnitude bits: next
/// to `r`.
proof fn lemma_larger_reaches(m: int, r: int)
    requires
        EPSILON_BITS < r < INFINITY_BITS,
        0 < m <= ONE_BITS,
        scaled_magnitude(r) <= 2 * scaled_magnitude(m),
        scaled_magnitude(m) <= 2 * scaled_magnitude(r),
    ensures
        ({
            let u = along(m, r);
            let w = times(times(u, r), stretch_of(u));
            &&& 0 <= times(u, r) <= SIXTEEN_BITS
            &&& 0 <= w <= SIXTEEN_BITS
            &&& -scaled_magnitude(r) <= (scaled_magnitude(w) - scaled_magnitude(r)) * 0x40_0000
                <= scaled_magnitude(r)
        }),
{
    lemma_bounds();
    lemma_larger_part(m, r);
    let unit = pow2(149) as int;
    let small = pow2(126) as int;
    lemma_sizes_ordered(EPSILON_BITS as int, r);
    lemma_sizes_ordered(m, ONE_BITS as int);
    let (ub, bb) = (along(m, r), stretch_of(along(m, r)));
    let (u, b, d) = (scaled_magnitude(ub), scaled_magnitude(bb), scaled_magnitude(r));
    let vb = times(ub, r);
    let num = u * d;
    assert(0x80_0000 * unit <= num <= (16 * unit) * unit) by (nonlinear_arith)
        requires
            num == u * d,
            unit <= 2 * u,
            u <= 2 * unit,
            small <= d <= 2 * unit,
            small >= 0x100_0000,
            unit > 0,
    ;
    nearest_exists(num, unit);
    lemma_nearest_not_above(num, unit, SIXTEEN_BITS as int, vb);
    lemma_relative_error(num, unit);
    let v = scaled_magnitude(vb);
    assert(4 * v >= small && v <= 5 * unit) by (nonlinear_arith)
        requires
            num * 0xff_ffff <= v * unit * 0x100_0000 <= num * 0x100_0001,
            num == u * d,
            unit <= 2 * u,
            u <= 2 * unit,
            small <= d <= 2 * unit,
            unit > 0,
            small > 0,
    ;
    let square = unit * unit;
    assert(0x80_0000 * u <= square) by (nonlinear_arith)
        requires
            square == unit * unit,
            u <= 2 * unit,
            unit >= 0x100_0000,
    ;
    lemma_relative_error(square, u);
    let wb = times(vb, bb);
    let last = v * b;
    assert(0x80_0000 * unit <= last <= (16 * unit) * unit) by (nonlinear_arith)
        requires
            last == v * b,
            4 * v >= small,
            v <= 5 * unit,
            unit <= 2 * b,
            b <= 2 * unit,
            small >= 0x1000_0000,
            unit > 0,
    ;
    nearest_exists(last, unit);
    lemma_nearest_not_above(last, unit, SIXTEEN_BITS as int, wb);
    lemma_relative_error(last, unit);
    lemma_size(with_sign(wb, false));
    assert(with_sign(wb, false).magnitude() == wb);
    lemma_three_errors(unit, u, d, v, b, scaled_magnitude(wb));
}

/// Rounding changes a value by a 2^24th, or by the smallest number, at most.
pub proof fn lemma_error(num: int, den: int)
    requires
        den > 0,
        num >= 0,
        nearest(num, den) < INFINITY_BITS,
    ensures
        scaled_magnitude(nearest(num, den)) >= 0,
        scaled_magnitude(nearest(num, den)) * den * 0x100_0000 <= num * 0x100_0001 + den
            * 0x100_0000,
        scaled_magnitude(nearest(num, den)) * den * 0x100_0000 >= num * 0xff_ffff - den
            * 0x100_0000,
{
    nearest_exists(num, den);
    let m = nearest(num, den);
    lemma_sizes_ordered(0, m);
    if num >= 0x80_0000 * den {
        lemma_relative_error(num, den);
    } else {
        lemma_place(0x80_0000, 0);
        vstd::arithmetic::power2::lemma2_to64();
        assert(scaled_magnitude(0x80_0000) == 0x80_0000);
        lemma_nearest_not_above(num, den, 0x80_0000, m);
        let (here, next) = (scaled_magnitude(m), scaled_magnitude(m + 1));
        lemma_gap(m, 1);
        assert(here * den * 0x100_0000 >= num * 0xff_ffff - den * 0x100_0000) by (nonlinear_arith)
            requires
                2 * num <= (here + next) * den,
                next - here <= 1,
                num >= 0,
                den > 0,
        ;
        if m > 0 {
            let before = scaled_magnitude(m - 1);
            lemma_gap(m - 1, 1);
            assert(here * den * 0x100_0000 <= num * 0x100_0001 + den * 0x100_0000)
                by (nonlinear_arith)
                requires
                    (before + here) * den <= 2 * num,
                    here - before <= 1,
                    num >= 0,
                    den > 0,
            ;
        } else {
            assert(here == 0);
            assert(0 * den == 0);
        }
    }
}

/// An inequality is kept when a common factor is taken out.
proof fn lemma_cancel(unit: int, v: int, y: int, a: int, b: int, c: int)
    requires
        unit > 0,
        (v * unit) * a <= (y * unit) * b + unit * c,
    ensures
        v * a <= y * b + c,
{
    let (p, q) = (v * a, y * b);
    assert((v * unit) * a == p * unit && (y * unit) * b == q * unit) by (nonlinear_arith)
        requires
            p == v * a,
            q == y * b,
    ;
    assert(p <= q + c) by (nonlinear_arith)
        requires
            p * unit <= q * unit + unit * c,
            unit > 0,
    ;
}

/// An inequality is kept when both sides are multiplied.
proof fn lemma_multiply(unit: int, v: int, y: int, a: int, b: int, c: int)
    requires
        unit >= 0,
        v * a <= y * b + c,
    ensures
        (v * unit) * a <= (y * unit) * b + unit * c,
{
    let (p, q) = (v * a, y * b);
    assert((v * unit) * a == p * unit && (y * unit) * b == q * unit) by (nonlinear_arith)
        requires
            p == v * a,
            q == y * b,
    ;
    assert(p * unit <= q * unit + unit * c) by (nonlinear_arith)
        requires
            p <= q + c,
            unit >= 0,
    ;
}

/// The errors of three roundings on the way from `y` by way of its part `u` of the distance `r` to
/// `w`, which is `y` stretched by `b`.
proof fn lemma_stretch_errors(unit: int, y: int, r: int, u: int, v: int, b: int, w: int)
    requires
        unit > 0,
        0 <= y,
        0 < r <= 2 * unit,
        0 <= u,
        0 <= v,
        0 <= b <= 2 * unit,
        0 <= w,
        y * unit * 0xff_ffff - r * 0x100_0000 <= u * r * 0x100_0000 <= y * unit * 0x100_0001 + r
            * 0x100_0000,
        u * r * 0xff_ffff - unit * 0x100_0000 <= v * unit * 0x100_0000 <= u * r * 0x100_0001 + unit
            * 0x100_0000,
        v * b * 0xff_ffff - unit * 0x100_0000 <= w * unit * 0x100_0000 <= v * b * 0x100_0001 + unit
            * 0x100_0000,
    ensures
        -(y * b + 16 * unit * 0x40_0000) <= (w * unit - y * b) * 0x40_0000 <= y * b + 16 * unit
            * 0x40_0000,
{
    let t: int = 0x100_0000;
    let (hi, lo): (int, int) = (0x100_0001, 0xff_ffff);
    let (yu, ur, vu, vb, wu, yb) = (y * unit, u * r, v * unit, v * b, w * unit, y * b);
    assert(yu >= 0 && ur >= 0 && yb >= 0) by (nonlinear_arith)
        requires
            yu == y * unit,
            ur == u * r,
            yb == y * b,
            unit > 0,
            y >= 0,
            u >= 0,
            r > 0,
            b >= 0,
    ;
    assert(vu * t * t <= yu * hi * hi + 4 * unit * t * t);
    assert(vu * t * t >= yu * lo * lo - 4 * unit * t * t);
    let (square, above, below): (int, int, int) = (
        0x1_0000_0000_0000,
        0x1_0000_0200_0001,
        0xffff_fe00_0001,
    );
    let more: int = 0x4_0000_0000_0000;
    assert(vu * square <= yu * above + unit * more);
    assert(yu * below <= vu * square + unit * more);
    lemma_cancel(unit, v, y, square, above, more);
    lemma_cancel(unit, y, v, below, square, more);
    lemma_multiply(b, v, y, square, above, more);
    lemma_multiply(b, y, v, below, square, more);
    assert(vb * square <= yb * above + b * more);
    assert(yb * below <= vb * square + b * more);
    assert(wu * t * t * t <= yb * hi * hi * hi + 16 * unit * t * t * t);
    assert(wu * t * t * t >= yb * lo * lo * lo - 16 * unit * t * t * t);
}

/// The larger coordinate of a position and its distance from the centre are not far apart.
proof fn lemma_near(x: int, y: int, r: int)
    requires
        0 <= y <= x,
        0 <= r,
        (r * r - (x * x + y * y)) * 0x10_0000 <= x * x + y * y,
        -(x * x + y * y) <= (r * r - (x * x + y * y)) * 0x10_0000,
    ensures
        r <= 2 * x,
        x <= 2 * r,
        r > 0 ==> x > 0,
{
    let (xx, yy, rr) = (x * x, y * y, r * r);
    assert(0 <= yy <= xx) by (nonlinear_arith)
        requires
            0 <= y <= x,
            xx == x * x,
            yy == y * y,
    ;
    assert(rr <= 4 * xx && xx <= 4 * rr);
    assert(r <= 2 * x) by (nonlinear_arith)
        requires
            r * r <= 4 * (x * x),
            r >= 0,
            x >= 0,
    ;
    assert(x <= 2 * r) by (nonlinear_arith)
        requires
            x * x <= 4 * (r * r),
            r >= 0,
            x >= 0,
    ;
}

/// The magnitude bits on the way of two coordinates to the square.
proof fn lemma_ways(m: int, n: int, r: int)
    requires
        0 <= n <= m <= ONE_BITS,
        0 < m,
        EPSILON_BITS < r < INFINITY_BITS,
        scaled_magnitude(r) <= 2 * scaled_magnitude(m),
        scaled_magnitude(m) <= 2 * scaled_magnitude(r),
    ensures
        ({
            let b = stretch_of(along(m, r));
            let (w, z) = (times(times(along(m, r), r), b), times(times(along(n, r), r), b));
            &&& EPSILON_BITS < HALF_BITS <= b <= TWO_BITS
            &&& 0 <= along(n, r) <= along(m, r) <= TWO_BITS
            &&& HALF_BITS <= along(m, r)
            &&& 0 <= times(along(n, r), r) <= times(along(m, r), r) <= SIXTEEN_BITS
            &&& 0 <= z <= w <= SIXTEEN_BITS
        }),
{
    lemma_bounds();
    lemma_larger_part(m, r);
    lemma_larger_reaches(m, r);
    let unit = pow2(149) as int;
    let (um, un) = (along(m, r), along(n, r));
    let b = stretch_of(um);
    lemma_sizes_ordered(n, m);
    lemma_sizes_ordered(EPSILON_BITS as int, r);
    let (sm, sn, sr) = (scaled_magnitude(m), scaled_magnitude(n), scaled_magnitude(r));
    assert(0 <= sn * unit <= sm * unit) by (nonlinear_arith)
        requires
            0 <= sn <= sm,
            unit > 0,
    ;
    rounding_keeps_the_order(sn * unit, sm * unit, sr);
    nearest_exists(sn * unit, sr);
    lemma_times_ordered(un, um, r);
    lemma_times_ordered(times(un, r), times(um, r), b);
}

/// A quotient as magnitude bits.
proof fn lemma_quotient_bits(a: Single, b: Single)
    requires
        a.magnitude() < INFINITY_BITS,
        0 < b.magnitude() < INFINITY_BITS,
    ensures
        a.quotient(b) == with_sign(
            along(a.magnitude(), b.magnitude()),
            a.is_negative() != b.is_negative(),
        ),
{
    reveal(Single::quotient);
}

/// A product as magnitude bits.
proof fn lemma_product_bits(a: Single, b: Single)
    requires
        a.magnitude() < INFINITY_BITS,
        b.magnitude() < INFINITY_BITS,
    ensures
        a.product(b) == with_sign(
            times(a.magnitude(), b.magnitude()),
            a.is_negative() != b.is_negative(),
        ),
{
    reveal(Single::product);
}

/// What a number with a sign is made of.
proof fn lemma_signed(m: int, negative: bool)
    requires
        0 <= m < INFINITY_BITS,
    ensures
        with_sign(m, negative).magnitude() == m,
        with_sign(m, negative).is_negative() == negative,
        with_sign(m, negative).unsigned() == with_sign(m, false),
        !with_sign(m, negative).is_nan(),
{
}

/// One coordinate on its way to the square, as magnitude bits.
proof fn lemma_way(x: Single, radius: Single, factor: Single)
    requires
        x.magnitude() < INFINITY_BITS,
        0 < radius.magnitude() < INFINITY_BITS,
        factor.magnitude() < INFINITY_BITS,
        !radius.is_negative() && !factor.is_negative(),
        0 <= along(x.magnitude(), radius.magnitude()) < INFINITY_BITS,
        0 <= times(along(x.magnitude(), radius.magnitude()), radius.magnitude()) < INFINITY_BITS,
    ensures
        ({
            let (m, r) = (x.magnitude(), radius.magnitude());
            x.quotient(radius).product(radius).product(factor) == with_sign(
                times(times(along(m, r), r), factor.magnitude()),
                x.is_negative(),
            )
        }),
{
    let (m, r) = (x.magnitude(), radius.magnitude());
    lemma_quotient_bits(x, radius);
    lemma_signed(along(m, r), x.is_negative());
    let u = x.quotient(radius);
    lemma_product_bits(u, radius);
    lemma_signed(times(along(m, r), r), x.is_negative());
    lemma_product_bits(u.product(radius), factor);
}

/// What stretching a position to the square gives, as magnitude bits.
#[verifier::rlimit(30)]
proof fn lemma_squared(x: Single, y: Single, radius: Single)
    requires
        y.magnitude() <= x.magnitude() <= ONE_BITS,
        is_distance(x, y, radius),
        !radius.not_above(epsilon()),
    ensures
        ({
            let (m, n, r) = (x.magnitude(), y.magnitude(), radius.magnitude());
            let b = stretch_of(along(m, r));
            let (w, z) = (times(times(along(m, r), r), b), times(times(along(n, r), r), b));
            &&& m > 0
            &&& radius.size() <= 2 * x.size() && x.size() <= 2 * radius.size()
            &&& stretch(x, y, radius) == with_sign(b, false)
            &&& stretch(y, x, radius) == with_sign(b, false)
            &&& squared_at(x, y, radius) == (
                with_sign(w, x.is_negative()),
                with_sign(z, y.is_negative()),
            )
        }),
{
    lemma_size(x);
    lemma_size(y);
    lemma_size(radius);
    let (m, n, r) = (x.magnitude(), y.magnitude(), radius.magnitude());
    lemma_sizes_ordered(n, m);
    lemma_near(x.size(), y.size(), radius.size());
    lemma_ways(m, n, r);
    let (um, un) = (along(m, r), along(n, r));
    let b = stretch_of(um);
    lemma_quotient_bits(x, radius);
    lemma_quotient_bits(y, radius);
    lemma_signed(um, x.is_negative());
    lemma_signed(un, y.is_negative());
    lemma_signed(um, false);
    lemma_signed(un, false);
    let (ux, uy) = (x.quotient(radius), y.quotient(radius));
    let part = with_sign(um, false);
    assert(ux.unsigned().larger(uy.unsigned()).larger(epsilon()) == part);
    assert(uy.unsigned().larger(ux.unsigned()).larger(epsilon()) == part);
    let factor = one().quotient(part);
    lemma_quotient_bits(one(), part);
    lemma_bounds();
    assert(factor == with_sign(b, false));
    lemma_signed(b, false);
    lemma_way(x, radius, factor);
    lemma_way(y, radius, factor);
}

/// Larger magnitudes have larger products.
proof fn lemma_times_ordered(a: int, b: int, c: int)
    requires
        0 <= a <= b,
        0 <= c,
    ensures
        0 <= times(a, c) <= times(b, c),
{
    lemma_pow2_pos(149);
    lemma_sizes_ordered(a, b);
    lemma_sizes_ordered(0, c);
    let (x, y, z) = (scaled_magnitude(a), scaled_magnitude(b), scaled_magnitude(c));
    assert(0 <= x * z <= y * z) by (nonlinear_arith)
        requires
            0 <= x <= y,
            0 <= z,
    ;
    rounding_keeps_the_order(x * z, y * z, pow2(149) as int);
    nearest_exists(x * z, pow2(149) as int);
}

/// How far the square around the circle is beyond the circle, in the direction of a position at the
/// distance `radius` from the centre.
pub open spec fn stretch(x: Single, y: Single, radius: Single) -> Single {
    let ux = x.quotient(radius);
    let uy = y.quotient(radius);
    one().quotient(ux.unsigned().larger(uy.unsigned()).larger(epsilon()))
}

/// `w` is `x` times `factor`, but for a 2^22nd part and for 16 times the smallest number.
pub open spec fn stretched_by(x: Single, factor: Single, w: Single) -> bool {
    let exact = x.size() * factor.size();
    let slack = exact + 16 * pow2(149) * 0x40_0000;
    &&& !w.is_nan() && !w.is_infinite() && w.is_negative() == x.is_negative()
    &&& -slack <= (w.size() * pow2(149) - exact) * 0x40_0000 <= slack
}

/// The larger of the magnitudes of two numbers, in units of 2^-149.
pub open spec fn farther(x: Single, y: Single) -> int {
    if x.size() >= y.size() {
        x.size()
    } else {
        y.size()
    }
}

/// Stretching the circle to the square takes the larger coordinate of a position to its distance
/// from the centre, but for a 2^22nd part, and stretches both coordinates by one factor, each on its
/// side. The factor lies between one half and two.
pub proof fn squares_stretch_the_circle(x: Single, y: Single)
    requires
        x.magnitude() <= ONE_BITS,
        y.magnitude() <= ONE_BITS,
        !x.distance(y).not_above(epsilon()),
    ensures
        ({
            let radius = x.distance(y);
            let (square_x, square_y) = squared(x, y);
            let factor = stretch(x, y, radius);
            let far = farther(square_x, square_y);
            &&& -radius.size() <= (far - radius.size()) * 0x40_0000 <= radius.size()
            &&& stretched_by(x, factor, square_x)
            &&& stretched_by(y, factor, square_y)
            &&& !factor.is_negative() && HALF_BITS <= factor.magnitude() <= TWO_BITS
        }),
{
    let radius = x.distance(y);
    lemma_distance_at_most_two(x, y);
    distances_are_accurate(x, y);
    if y.magnitude() <= x.magnitude() {
        lemma_squares_stretch(x, y, radius);
    } else {
        assert(is_distance(y, x, radius));
        lemma_squares_stretch(y, x, radius);
        lemma_exchanged_at(x, y, radius, zero(), zero());
    }
}

proof fn lemma_squares_stretch(x: Single, y: Single, radius: Single)
    requires
        y.magnitude() <= x.magnitude() <= ONE_BITS,
        is_distance(x, y, radius),
        !radius.not_above(epsilon()),
    ensures
        ({
            let (square_x, square_y) = squared_at(x, y, radius);
            let factor = stretch(x, y, radius);
            &&& stretch(y, x, radius) == factor
            &&& square_y.size() <= square_x.size()
            &&& -radius.size() <= (square_x.size() - radius.size()) * 0x40_0000 <= radius.size()
            &&& stretched_by(x, factor, square_x)
            &&& stretched_by(y, factor, square_y)
            &&& !factor.is_negative() && HALF_BITS <= factor.magnitude() <= TWO_BITS
        }),
{
    let (m, n, r) = (x.magnitude(), y.magnitude(), radius.magnitude());
    lemma_squared(x, y, radius);
    lemma_ways(m, n, r);
    lemma_larger_reaches(m, r);
    lemma_bounds();
    lemma_sizes_ordered(m, ONE_BITS as int);
    let b = stretch_of(along(m, r));
    let (w, z) = (times(times(along(m, r), r), b), times(times(along(n, r), r), b));
    lemma_sizes_ordered(z, w);
    lemma_stretched(m, r, b);
    lemma_stretched(n, r, b);
}

/// How far a stretched coordinate lies from its exact value.
proof fn lemma_stretched(n: int, r: int, b: int)
    requires
        0 <= n <= ONE_BITS,
        EPSILON_BITS < r < INFINITY_BITS,
        scaled_magnitude(r) <= 2 * pow2(149),
        0 <= b <= TWO_BITS,
        0 <= along(n, r) <= TWO_BITS,
        0 <= times(along(n, r), r) <= SIXTEEN_BITS,
        0 <= times(times(along(n, r), r), b) <= SIXTEEN_BITS,
    ensures
        ({
            let exact = scaled_magnitude(n) * scaled_magnitude(b);
            let slack = exact + 16 * pow2(149) * 0x40_0000;
            let w = scaled_magnitude(times(times(along(n, r), r), b));
            -slack <= (w * pow2(149) - exact) * 0x40_0000 <= slack
        }),
{
    lemma_bounds();
    let unit = pow2(149) as int;
    lemma_sizes_ordered(0, n);
    lemma_sizes_ordered(EPSILON_BITS as int, r);
    lemma_sizes_ordered(b, TWO_BITS as int);
    let u = along(n, r);
    let v = times(u, r);
    let w = times(v, b);
    lemma_sizes_ordered(0, u);
    lemma_sizes_ordered(0, v);
    let (sn, sr, sb) = (scaled_magnitude(n), scaled_magnitude(r), scaled_magnitude(b));
    let (su, sv) = (scaled_magnitude(u), scaled_magnitude(v));
    assert(sn * unit >= 0 && su * sr >= 0 && sv * sb >= 0) by (nonlinear_arith)
        requires
            sn >= 0,
            unit > 0,
            su >= 0,
            sr >= 0,
            sv >= 0,
            sb >= 0,
    ;
    lemma_error(sn * unit, sr);
    lemma_error(su * sr, unit);
    lemma_error(sv * sb, unit);
    lemma_stretch_errors(unit, sn, sr, su, sv, sb, scaled_magnitude(w));
}

/// A magnitude in units of 2^-149, one at most.
spec fn inside(x: Single) -> int {
    if x.size() > pow2(149) {
        pow2(149) as int
    } else {
        x.size()
    }
}

/// Where an axis is shown lies next to 32767 times where it stands. The bounds are in 1024ths.
#[verifier::rlimit(30)]
proof fn lemma_shown_near(x: Single)
    requires
        !x.is_nan(),
    ensures
        ({
            let at = absolute(shown_at(x));
            let h = pow2(139) as int;
            &&& pow2(149) == 1024 * h
            &&& h > 0
            &&& 32767 * inside(x) - 515 * h <= 1024 * (at * h) <= 32767 * inside(x) + 1539 * h
            &&& 0 <= inside(x) <= pow2(149)
        }),
{
    let unit = pow2(149) as int;
    let h = pow2(139) as int;
    lemma_constants();
    vstd::arithmetic::power2::lemma2_to64();
    lemma_pow2_pos(139);
    lemma_pow2_adds(10, 139);
    lemma_size(x);
    if x.is_zero() {
        lemma_zero_shown(x);
        assert(0 * h == 0);
    } else if x.magnitude() >= ONE_BITS {
        lemma_sizes_ordered(ONE_BITS as int, x.magnitude());
        let end = with_sign(ONE_BITS as int, x.is_negative());
        assert(shown_at(x) == shown_at(end)) by {
            reveal(shown_at);
        }
        lemma_ends_shown(end);
        let at = absolute(shown_at(x));
        assert(32767 * h <= at * h <= 32768 * h) by (nonlinear_arith)
            requires
                32767 <= at <= 32768,
                h > 0,
        ;
    } else {
        lemma_sizes_ordered(x.magnitude(), ONE_BITS as int);
        let scale = if x.is_negative() {
            LOWER_RANGE_BITS
        } else {
            UPPER_RANGE_BITS
        };
        lemma_shown_of(x, scale);
        lemma_distance_near(x.magnitude(), scale as int);
        let at = absolute(shown_at(x));
        assert(at == shown_distance(x.magnitude(), scale as int));
    }
}

/// The distance from the centre at which a magnitude is shown.
proof fn lemma_distance_near(m: int, scale: int)
    requires
        0 <= m <= ONE_BITS,
        scale == LOWER_RANGE_BITS || scale == UPPER_RANGE_BITS,
    ensures
        ({
            let at = shown_distance(m, scale);
            let h = pow2(139) as int;
            &&& at >= 0
            &&& 32767 * scaled_magnitude(m) - 515 * h <= 1024 * (at * h) <= 32767
                * scaled_magnitude(m) + 1539 * h
        }),
{
    let unit = pow2(149) as int;
    let h = pow2(139) as int;
    lemma_constants();
    vstd::arithmetic::power2::lemma2_to64();
    vstd::arithmetic::power2::lemma_pow2_unfold(150);
    lemma_pow2_pos(139);
    lemma_pow2_adds(10, 139);
    lemma_sizes_ordered(0, m);
    lemma_sizes_ordered(m, ONE_BITS as int);
    let c = scaled_magnitude(m);
    let k: int = if scale == LOWER_RANGE_BITS {
        32768
    } else {
        32767
    };
    let top = scaled_magnitude(scale);
    let num = c * top;
    assert(num == (k * c) * unit && 0 <= num <= top * unit) by (nonlinear_arith)
        requires
            num == c * top,
            top == k * unit,
            0 <= c <= unit,
            k >= 0,
    ;
    nearest_exists(num, unit);
    lemma_nearest_not_above(num, unit, scale, nearest(num, unit));
    lemma_error(num, unit);
    let t = scaled_magnitude(nearest(num, unit));
    let kc = k * c;
    assert(t * 0x100_0000 <= kc * 0x100_0001 + 0x100_0000 && t * 0x100_0000 >= kc * 0xff_ffff
        - 0x100_0000) by (nonlinear_arith)
        requires
            t * unit * 0x100_0000 <= kc * unit * 0x100_0001 + unit * 0x100_0000,
            t * unit * 0x100_0000 >= kc * unit * 0xff_ffff - unit * 0x100_0000,
            unit > 0,
    ;
    assert(kc <= 0x8000 * unit && kc >= 32767 * c && kc <= 32767 * c + unit);
    let at = shown_distance(m, scale);
    let x = 2 * t + unit;
    assert(at * (2 * unit) <= x < at * (2 * unit) + 2 * unit && at >= 0) by (nonlinear_arith)
        requires
            at == x / (2 * unit),
            unit > 0,
            x >= 0,
    ;
    assert(at * (2 * unit) == 2048 * (at * h)) by (nonlinear_arith)
        requires
            unit == 1024 * h,
    ;
}

/// The sum of the squares of two coordinates against the square of the distance, and the sum
/// of the coordinates against that distance; all times 32767, and `h` is a 1024th of one.
proof fn lemma_scaled_distance(h: int, x: int, y: int, r: int)
    requires
        h > 0,
        0 <= x <= 1024 * h,
        0 <= y <= 1024 * h,
        0 <= r,
        (r * r - (x * x + y * y)) * 0x10_0000 <= x * x + y * y,
        -(x * x + y * y) <= (r * r - (x * x + y * y)) * 0x10_0000,
    ensures
        ({
            let (p, q, d) = (32767 * x, 32767 * y, 32767 * r);
            &&& r <= 2048 * h
            &&& -128 * (h * d) <= p * p + q * q - d * d <= 128 * (h * d)
            &&& 1024 * (p + q) <= 1449 * (d + 64 * h)
        }),
{
    let (p, q, d) = (32767 * x, 32767 * y, 32767 * r);
    if y <= x {
        lemma_near(x, y, r);
    } else {
        lemma_near(y, x, r);
    }
    let (xx, yy, rr) = (x * x, y * y, r * r);
    let (pp, qq, dd, hd) = (p * p, q * q, d * d, h * d);
    assert(pp == 1073676289 * xx && qq == 1073676289 * yy && dd == 1073676289 * rr)
        by (nonlinear_arith)
        requires
            p == 32767 * x,
            q == 32767 * y,
            d == 32767 * r,
            pp == p * p,
            qq == q * q,
            dd == d * d,
            xx == x * x,
            yy == y * y,
            rr == r * r,
    ;
    assert(xx >= 0 && yy >= 0 && rr >= 0 && hd >= 0) by (nonlinear_arith)
        requires
            xx == x * x,
            yy == y * y,
            rr == r * r,
            hd == h * d,
            h > 0,
            d >= 0,
    ;
    assert(dd <= 0x400_0000 * hd) by (nonlinear_arith)
        requires
            dd == d * d,
            hd == h * d,
            0 <= d <= 0x400_0000 * h,
    ;
    assert(-128 * hd <= pp + qq - dd <= 128 * hd);
    let sum = 1024 * (p + q);
    let bound = 1449 * (d + 64 * h);
    assert(sum * sum <= 2097152 * (pp + qq)) by (nonlinear_arith)
        requires
            sum == 1024 * (p + q),
            pp == p * p,
            qq == q * q,
    ;
    let hh = h * h;
    assert(bound * bound == 2099601 * (dd + 128 * hd + 4096 * hh) && hh > 0) by (nonlinear_arith)
        requires
            bound == 1449 * (d + 64 * h),
            dd == d * d,
            hd == h * d,
            hh == h * h,
            h > 0,
    ;
    assert(sum * sum <= bound * bound);
    assert(sum <= bound) by (nonlinear_arith)
        requires
            sum * sum <= bound * bound,
            bound > 0,
    ;
}

/// A position, shown at `a` and `b`, and its square, shown at the distance `m`: `m` is not more than
/// three beyond the distance of the position.
proof fn lemma_not_beyond(h: int, x: int, y: int, r: int, w: int, a: int, b: int, m: int)
    requires
        h > 0,
        0 <= x <= 1024 * h,
        0 <= y <= 1024 * h,
        0 <= r,
        (r * r - (x * x + y * y)) * 0x10_0000 <= x * x + y * y,
        -(x * x + y * y) <= (r * r - (x * x + y * y)) * 0x10_0000,
        (w - r) * 0x40_0000 <= r,
        0 <= a && 32767 * x - 515 * h <= 1024 * (a * h),
        0 <= b && 32767 * y - 515 * h <= 1024 * (b * h),
        1024 * (m * h) <= 32767 * w + 1539 * h,
        m >= 4,
    ensures
        (m - 3) * (m - 3) <= a * a + b * b,
{
    lemma_scaled_distance(h, x, y, r);
    let (p, q, d) = (32767 * x, 32767 * y, 32767 * r);
    let (pp, qq, dd, hd, hh) = (p * p, q * q, d * d, h * d, h * h);
    let (ah, bh) = (1024 * (a * h), 1024 * (b * h));
    lemma_square_below(p, 515 * h, ah, a, h);
    lemma_square_below(q, 515 * h, bh, b, h);
    let (ps, qs) = ((515 * h) * p, (515 * h) * q);
    let total = 1024 * (p + q);
    let bound = 1449 * (d + 64 * h);
    assert(1024 * (ps + qs) == 515 * (h * total)) by (nonlinear_arith)
        requires
            ps == (515 * h) * p,
            qs == (515 * h) * q,
            total == 1024 * (p + q),
    ;
    let (ht, hb) = (h * total, h * bound);
    assert(ht <= hb) by (nonlinear_arith)
        requires
            ht == h * total,
            hb == h * bound,
            total <= bound,
            h > 0,
    ;
    assert(hb == 1449 * hd + 92736 * hh) by (nonlinear_arith)
        requires
            hb == h * bound,
            bound == 1449 * (d + 64 * h),
            hd == h * d,
            hh == h * h,
    ;
    let mh = m * h;
    assert(mh >= 4 * h) by (nonlinear_arith)
        requires
            mh == m * h,
            m >= 4,
            h > 0,
    ;
    assert(d >= 2541 * h);
    assert(hd >= 2541 * hh && hh > 0) by (nonlinear_arith)
        requires
            hd == h * d,
            hh == h * h,
            d >= 2541 * h,
            h > 0,
    ;
    let least = d - 1517 * h;
    assert(least * least == dd - 3034 * hd + 2301289 * hh) by (nonlinear_arith)
        requires
            least == d - 1517 * h,
            dd == d * d,
            hd == h * d,
            hh == h * h,
    ;
    let far = 1024 * ((m - 3) * h);
    assert((m - 3) * h == mh - 3 * h && (m - 3) * h >= 0) by (nonlinear_arith)
        requires
            mh == m * h,
            m >= 3,
            h > 0,
    ;
    lemma_squares_increase(far, least);
    assert(far * far <= ah * ah + bh * bh);
    lemma_take_out(m - 3, h);
    lemma_take_out(a, h);
    lemma_take_out(b, h);
    let (mm, aa, bb) = ((m - 3) * (m - 3), a * a, b * b);
    assert(mm <= aa + bb) by (nonlinear_arith)
        requires
            1048576 * (mm * hh) <= 1048576 * (aa * hh) + 1048576 * (bb * hh),
            hh > 0,
    ;
}

/// The square of a multiple.
proof fn lemma_take_out(a: int, h: int)
    ensures
        (1024 * (a * h)) * (1024 * (a * h)) == 1048576 * ((a * a) * (h * h)),
{
    assert((1024 * (a * h)) * (1024 * (a * h)) == 1048576 * ((a * a) * (h * h)))
        by (nonlinear_arith);
}

/// The square of what is at least `p - k`.
proof fn lemma_square_below(p: int, k: int, ah: int, a: int, h: int)
    requires
        0 <= p,
        0 <= k,
        p - k <= ah,
        ah == 1024 * (a * h),
        a >= 0,
        h > 0,
    ensures
        p * p - 2 * (k * p) <= ah * ah,
{
    assert(ah >= 0) by (nonlinear_arith)
        requires
            ah == 1024 * (a * h),
            a >= 0,
            h > 0,
    ;
    if p <= k {
        assert(p * p - 2 * (k * p) <= 0) by (nonlinear_arith)
            requires
                0 <= p <= k,
        ;
        lemma_squares_increase(0, ah);
    } else {
        lemma_squares_increase(p - k, ah);
        assert((p - k) * (p - k) == p * p - 2 * (k * p) + k * k) by (nonlinear_arith);
        lemma_squares_increase(0, k);
    }
}

/// A position, shown at `a` and `b`, and its square, shown at the distance `m`: the distance of the
/// position is not more than three beyond `m`.
proof fn lemma_not_short(h: int, x: int, y: int, r: int, w: int, a: int, b: int, m: int)
    requires
        h > 0,
        0 <= x <= 1024 * h,
        0 <= y <= 1024 * h,
        0 <= r,
        (r * r - (x * x + y * y)) * 0x10_0000 <= x * x + y * y,
        -(x * x + y * y) <= (r * r - (x * x + y * y)) * 0x10_0000,
        -r <= (w - r) * 0x40_0000,
        0 <= a && 1024 * (a * h) <= 32767 * x + 1539 * h,
        0 <= b && 1024 * (b * h) <= 32767 * y + 1539 * h,
        32767 * w - 515 * h <= 1024 * (m * h),
    ensures
        a * a + b * b <= (m + 3) * (m + 3),
{
    lemma_scaled_distance(h, x, y, r);
    let (p, q, d) = (32767 * x, 32767 * y, 32767 * r);
    let (pp, qq, dd, hd, hh) = (p * p, q * q, d * d, h * d, h * h);
    let k = 1539 * h;
    let (ah, bh) = (1024 * (a * h), 1024 * (b * h));
    assert(ah >= 0 && bh >= 0 && hh > 0 && hd >= 0) by (nonlinear_arith)
        requires
            ah == 1024 * (a * h),
            bh == 1024 * (b * h),
            hh == h * h,
            hd == h * d,
            a >= 0,
            b >= 0,
            h > 0,
            d >= 0,
    ;
    lemma_squares_increase(ah, p + k);
    lemma_squares_increase(bh, q + k);
    let (hp, hq) = (h * p, h * q);
    assert((p + k) * (p + k) == pp + 3078 * hp + 2368521 * hh && (q + k) * (q + k) == qq + 3078
        * hq + 2368521 * hh) by (nonlinear_arith)
        requires
            k == 1539 * h,
            pp == p * p,
            qq == q * q,
            hp == h * p,
            hq == h * q,
            hh == h * h,
    ;
    let total = 1024 * (p + q);
    let bound = 1449 * (d + 64 * h);
    let (ht, hb) = (h * total, h * bound);
    assert(ht == 1024 * hp + 1024 * hq && hb == 1449 * hd + 92736 * hh && ht <= hb)
        by (nonlinear_arith)
        requires
            ht == h * total,
            hb == h * bound,
            total == 1024 * (p + q),
            bound == 1449 * (d + 64 * h),
            hp == h * p,
            hq == h * q,
            hd == h * d,
            hh == h * h,
            total <= bound,
            h > 0,
    ;
    let least = d + 2541 * h;
    assert(least * least == dd + 5082 * hd + 6456681 * hh) by (nonlinear_arith)
        requires
            least == d + 2541 * h,
            dd == d * d,
            hd == h * d,
            hh == h * h,
    ;
    let far = 1024 * ((m + 3) * h);
    let mh = m * h;
    assert((m + 3) * h == mh + 3 * h) by (nonlinear_arith)
        requires
            mh == m * h,
    ;
    assert(32767 * (r - w) <= 16 * h);
    lemma_squares_increase(least, far);
    assert(ah * ah + bh * bh <= far * far);
    lemma_take_out(m + 3, h);
    lemma_take_out(a, h);
    lemma_take_out(b, h);
    let (mm, aa, bb) = ((m + 3) * (m + 3), a * a, b * b);
    assert(aa + bb <= mm) by (nonlinear_arith)
        requires
            1048576 * (aa * hh) + 1048576 * (bb * hh) <= 1048576 * (mm * hh),
            hh > 0,
    ;
}

/// The larger of the distances of a shown position from the axes.
pub open spec fn reach(at: Stick2<i32>) -> int {
    if absolute(at.x as int) >= absolute(at.y as int) {
        absolute(at.x as int)
    } else {
        absolute(at.y as int)
    }
}

/// `square` is shown on the side of `plain`, and its farther axis is shown as far from the centre as
/// `plain` is, or at the end of the range if that is nearer; but for three.
pub open spec fn is_square_of(square: Stick2<i32>, plain: Stick2<i32>) -> bool {
    let m = reach(square);
    let distance_squared = plain.x * plain.x + plain.y * plain.y;
    &&& square.x * plain.x >= 0
    &&& square.y * plain.y >= 0
    &&& m - 3 <= 32767
    &&& m <= 3 || (m - 3) * (m - 3) <= distance_squared
    &&& 32767 <= m + 3 || distance_squared <= (m + 3) * (m + 3)
}

/// Two numbers on the same side have a product that is not negative.
proof fn lemma_same_side(a: int, b: int)
    requires
        (a >= 0 && b >= 0) || (a <= 0 && b <= 0),
    ensures
        a * b >= 0,
{
    assert(a * b >= 0) by (nonlinear_arith)
        requires
            (a >= 0 && b >= 0) || (a <= 0 && b <= 0),
    ;
}

/// The square of a number is the square of its magnitude.
proof fn lemma_absolute_squared(a: int)
    ensures
        a * a == absolute(a) * absolute(a),
{
    assert(a * a == (-a) * (-a)) by (nonlinear_arith);
}

/// An axis that stands next to the centre is shown next to it.
proof fn lemma_next_to_the_centre(x: Single)
    requires
        x.magnitude() <= ONE_BITS,
        x.size() <= 2 * pow2(126),
    ensures
        absolute(shown_at(x)) <= 1,
{
    lemma_shown_near(x);
    vstd::arithmetic::power2::lemma2_to64();
    lemma_pow2_adds(13, 126);
    lemma_pow2_pos(126);
    let (at, h) = (absolute(shown_at(x)), pow2(139) as int);
    assert(1024 * (at * h) <= 1547 * h);
    assert(at <= 1) by (nonlinear_arith)
        requires
            1024 * (at * h) <= 1547 * h,
            h > 0,
    ;
}

/// A position and its square are shown as far from the centre as [`is_square_of`] says.
pub proof fn squares_are_shown_at_the_distance(x: Single, y: Single)
    requires
        x.magnitude() <= ONE_BITS,
        y.magnitude() <= ONE_BITS,
    ensures
        is_square_of(finished(squared(x, y).0, squared(x, y).1), finished(x, y)),
{
    let radius = x.distance(y);
    let (sx, sy) = squared(x, y);
    let (plain, square) = (finished(x, y), finished(sx, sy));
    shown_within_the_range(x);
    shown_within_the_range(y);
    shown_within_the_range(sx);
    shown_within_the_range(sy);
    squares_keep_the_side(x, y);
    lemma_shown_side(x);
    lemma_shown_side(y);
    lemma_same_side(square.x as int, plain.x as int);
    lemma_same_side(square.y as int, plain.y as int);
    lemma_absolute_squared(plain.x as int);
    lemma_absolute_squared(plain.y as int);
    lemma_size(x);
    lemma_size(y);
    lemma_size(radius);
    let (a, b, m) = (absolute(plain.x as int), absolute(plain.y as int), reach(square));
    if radius.not_above(epsilon()) {
        lemma_bounds();
        distances_are_not_below_the_coordinates(x, y);
        lemma_sizes_ordered(x.magnitude(), EPSILON_BITS as int);
        lemma_sizes_ordered(y.magnitude(), EPSILON_BITS as int);
        lemma_next_to_the_centre(x);
        lemma_next_to_the_centre(y);
        lemma_zero_shown(zero());
        assert(a * a + b * b <= (m + 3) * (m + 3)) by (nonlinear_arith)
            requires
                0 <= a <= 1,
                0 <= b <= 1,
                m == 0,
        ;
    } else {
        lemma_distance_at_most_two(x, y);
        distances_are_accurate(x, y);
        lemma_square_reaches(x, y);
        lemma_shown_near(x);
        lemma_shown_near(y);
        let h = pow2(139) as int;
        let far = farther(sx, sy);
        let w = if far > pow2(149) {
            pow2(149) as int
        } else {
            far
        };
        lemma_constants();
        lemma_sizes_ordered(x.magnitude(), ONE_BITS as int);
        lemma_sizes_ordered(y.magnitude(), ONE_BITS as int);
        if m >= 4 {
            lemma_not_beyond(h, x.size(), y.size(), radius.size(), w, a, b, m);
        }
        if far >= pow2(149) {
            assert(m >= 32767) by (nonlinear_arith)
                requires
                    32767 * (1024 * h) - 515 * h <= 1024 * (m * h),
                    h > 0,
            ;
        } else {
            lemma_not_short(h, x.size(), y.size(), radius.size(), w, a, b, m);
        }
    }
}

/// How far a square is shown from the centre.
proof fn lemma_square_reaches(x: Single, y: Single)
    requires
        x.magnitude() <= ONE_BITS,
        y.magnitude() <= ONE_BITS,
        !x.distance(y).not_above(epsilon()),
    ensures
        ({
            let radius = x.distance(y);
            let (sx, sy) = squared(x, y);
            let m = reach(finished(sx, sy));
            let h = pow2(139) as int;
            let far = farther(sx, sy);
            let w = if far > pow2(149) {
                pow2(149) as int
            } else {
                far
            };
            &&& -radius.size() <= (far - radius.size()) * 0x40_0000 <= radius.size()
            &&& 32767 * w - 515 * h <= 1024 * (m * h) <= 32767 * w + 1539 * h
        }),
{
    squares_stretch_the_circle(x, y);
    let (sx, sy) = squared(x, y);
    shown_within_the_range(sx);
    shown_within_the_range(sy);
    lemma_shown_near(sx);
    lemma_shown_near(sy);
    let (at_x, at_y) = (absolute(shown_at(sx)), absolute(shown_at(sy)));
    let m = reach(finished(sx, sy));
    let h = pow2(139) as int;
    assert(at_x * h <= m * h && at_y * h <= m * h) by (nonlinear_arith)
        requires
            at_x <= m,
            at_y <= m,
            h > 0,
    ;
}

/// Stretching to the square comes behind the dead zone: the stick is shown on the side on which it
/// is shown without the square, and its farther axis is shown as far from the centre as the stick is
/// shown without the square, up to the end of the range and but for three.
pub proof fn squares_stretch_what_the_dead_zone_leaves(raw: Stick2<i32>, stick: StickProfile)
    requires
        are_zones(stick.deadzone, stick.anti_deadzone),
    ensures
        is_square_of(
            shaped(raw, StickProfile { square: true, ..stick }, true),
            shaped(raw, StickProfile { square: false, ..stick }, true),
        ),
{
    let (x, y) = (unit_of(raw.x as int), unit_of(raw.y as int));
    lemma_unit_size(raw.x as int);
    lemma_unit_size(raw.y as int);
    let (d, a) = (stick.deadzone, stick.anti_deadzone);
    lemma_axis_in_range(x, d, a);
    lemma_axis_in_range(y, d, a);
    lemma_radially_shaped(x, y, d, a);
    let (u, v) = behind_deadzone(raw, stick);
    squares_are_shown_at_the_distance(u, v);
}

/// What a dead zone leaves of an axis is a number between minus one and one.
proof fn lemma_axis_in_range(value: Single, deadzone: Single, anti_deadzone: Single)
    requires
        value.magnitude() <= ONE_BITS,
        are_zones(deadzone, anti_deadzone),
    ensures
        axis_shaped(value, deadzone, anti_deadzone).magnitude() <= ONE_BITS,
{
    if !value.unsigned().not_above(deadzone) {
        motion_starts_behind_the_anti_deadzone(value, deadzone, anti_deadzone);
    }
}

} // verus!
