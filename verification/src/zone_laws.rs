//! What holds of dead zones and anti-dead zones.
use vstd::arithmetic::power2::{lemma_pow2_adds, lemma_pow2_pos, pow2};
use vstd::prelude::*;

#[allow(unused_imports)]
use crate::arithmetic::{
    epsilon, integer, lemma_gap, lemma_representable, lemma_small_integer, numbers_are_kept, one,
    with_sign, zero, EPSILON_BITS,
};
#[allow(unused_imports)]
use crate::distance::{
    distances_along_an_axis_are_exact, distances_are_not_below_the_coordinates,
    distances_are_symmetric, lemma_squares_increase, roots_keep_the_order, square,
};
#[allow(unused_imports)]
use crate::profile::{DeadzoneShape, StickProfile, LARGEST_DEADZONE_BITS};
#[allow(unused_imports)]
use crate::rounding::{
    lemma_nearest_not_above, lemma_nearest_not_below, lemma_place, nearest, nearest_exists,
    nearest_is_unique, rounding_keeps_the_order, INFINITY_BITS,
};
#[allow(unused_imports)]
use crate::shape::{
    axis_shaped, behind_deadzone, lemma_constants, lemma_product_not_above,
    radial_axis_shaped, radially_shaped, radially_shaped_at, shaped, shown_at, squared, squared_at,
    unit_of, unshaped, LOWER_HALF_BITS, LOWER_RANGE_BITS, UPPER_HALF_BITS, UPPER_RANGE_BITS,
};
#[allow(unused_imports)]
use crate::shape_laws::{
    lemma_centre, lemma_difference, lemma_nothing, lemma_ratio, lemma_shown_side, lemma_zero_shown,
};
#[allow(unused_imports)]
use crate::single::{lemma_scaled_magnitude_increases, scaled_magnitude, Single, ONE_BITS};
#[allow(unused_imports)]
use crate::stick::{bounded, Stick2};

verus! {

/// A dead zone that is a number from 0 to 0.99, and an anti-dead zone that is one from 0 to 1.
pub open spec fn are_zones(deadzone: Single, anti_deadzone: Single) -> bool {
    &&& !deadzone.is_nan() && 0 <= deadzone.rank() <= LARGEST_DEADZONE_BITS
    &&& !anti_deadzone.is_nan() && 0 <= anti_deadzone.rank() <= ONE_BITS
}

/// The order of two numbers makes no difference to their product.
pub proof fn products_commute(a: Single, b: Single)
    ensures
        a.product(b) == b.product(a),
{
    reveal(Single::product);
    let (x, y) = (a.size(), b.size());
    assert(x * y == y * x) by (nonlinear_arith);
}

/// The order of two numbers makes no difference to their sum.
pub proof fn sums_commute(a: Single, b: Single)
    ensures
        a.sum(b) == b.sum(a),
{
    reveal(Single::sum);
}

/// A magnitude is not negative.
pub proof fn lemma_size(x: Single)
    ensures
        x.size() >= 0,
        x.size() == 0 <==> x.is_zero(),
{
    if 0 < x.magnitude() {
        lemma_scaled_magnitude_increases(0, x.magnitude());
    }
}

/// One, of either sign, keeps the magnitude of what it is multiplied with.
proof fn lemma_times_one(way: Single, x: Single)
    requires
        way.magnitude() == ONE_BITS,
        x.magnitude() < INFINITY_BITS,
    ensures
        way.product(x) == with_sign(x.magnitude(), way.is_negative() != x.is_negative()),
        x.product(way) == with_sign(x.magnitude(), way.is_negative() != x.is_negative()),
{
    lemma_constants();
    products_commute(way, x);
    let unit = pow2(149) as int;
    reveal(Single::product);
    numbers_are_kept(x.magnitude(), unit);
    assert(unit * x.size() == x.size() * unit) by (nonlinear_arith);
}

/// A number over one is the number.
proof fn lemma_over_one(x: Single)
    requires
        x.magnitude() < INFINITY_BITS,
    ensures
        x.quotient(one()) == x,
{
    lemma_constants();
    reveal(Single::quotient);
    numbers_are_kept(x.magnitude(), pow2(149) as int);
}

/// A number over itself is one.
proof fn lemma_over_self(x: Single)
    requires
        0 < x.magnitude() < INFINITY_BITS,
    ensures
        x.quotient(x) == one(),
{
    lemma_constants();
    lemma_size(x);
    reveal(Single::quotient);
    let (unit, size) = (pow2(149) as int, x.size());
    assert(size * unit == unit * size) by (nonlinear_arith);
    numbers_are_kept(ONE_BITS as int, size);
}

/// Zero, of either sign, makes no difference to a number that is not negative.
proof fn lemma_with_zero(nothing: Single, x: Single)
    requires
        nothing.is_zero(),
        x.magnitude() < INFINITY_BITS,
        !x.is_negative(),
    ensures
        x.difference(nothing) == x,
        nothing.sum(x) == x,
        x.sum(nothing) == x,
{
    lemma_size(x);
    reveal(Single::sum);
    numbers_are_kept(x.magnitude(), 1);
}

/// Without zones, every axis stays where it is.
pub proof fn no_zones_change_no_axis(value: Single, deadzone: Single, anti_deadzone: Single)
    requires
        value.magnitude() <= ONE_BITS,
        deadzone.is_zero(),
        anti_deadzone.is_zero(),
    ensures
        !value.is_zero() ==> axis_shaped(value, deadzone, anti_deadzone) == value,
        value.is_zero() ==> axis_shaped(value, deadzone, anti_deadzone) == zero(),
        shown_at(axis_shaped(value, deadzone, anti_deadzone)) == shown_at(value),
{
    let magnitude = value.unsigned();
    if value.is_zero() {
        lemma_zero_shown(value);
        lemma_zero_shown(zero());
    } else {
        lemma_with_zero(deadzone, magnitude);
        lemma_with_zero(deadzone, one());
        lemma_with_zero(anti_deadzone, magnitude);
        lemma_with_zero(anti_deadzone, one());
        lemma_over_one(magnitude);
        lemma_times_one(one(), magnitude);
        lemma_times_one(value.direction(), magnitude);
    }
}

/// Nothing times a number is nothing.
pub proof fn lemma_times_nothing(x: Single, nothing: Single)
    requires
        x.magnitude() < INFINITY_BITS,
        nothing.is_zero(),
    ensures
        x.product(nothing).is_zero(),
{
    reveal(Single::product);
    lemma_constants();
    let size = x.size();
    assert(size * 0 == 0) by (nonlinear_arith);
    assert(scaled_magnitude(0) == 0);
    lemma_nothing(pow2(149) as int);
}

/// Without zones, every axis that is more than next to nothing stays where it is.
proof fn lemma_no_zones_radial(
    magnitude: Single,
    angle_ratio: Single,
    deadzone: Single,
    anti_deadzone: Single,
)
    requires
        magnitude.magnitude() <= ONE_BITS,
        !magnitude.is_negative(),
        angle_ratio.magnitude() < INFINITY_BITS,
        !angle_ratio.is_negative(),
        !magnitude.not_above(epsilon()),
        !angle_ratio.not_above(epsilon()),
        deadzone.is_zero(),
        anti_deadzone.is_zero(),
    ensures
        radial_axis_shaped(magnitude, angle_ratio, deadzone, anti_deadzone) == magnitude,
{
    lemma_constants();
    let axis_deadzone = angle_ratio.product(deadzone);
    let axis_anti_deadzone = angle_ratio.product(anti_deadzone);
    lemma_times_nothing(angle_ratio, deadzone);
    lemma_times_nothing(angle_ratio, anti_deadzone);
    lemma_with_zero(axis_deadzone, one());
    lemma_with_zero(axis_deadzone, magnitude);
    lemma_with_zero(axis_anti_deadzone, one());
    lemma_with_zero(axis_anti_deadzone, magnitude);
    lemma_over_one(magnitude);
    lemma_times_one(one(), magnitude);
}

/// The distance of a raw axis from the centre, where it has one.
pub proof fn lemma_unit_size(value: int)
    ensures
        unit_of(value).magnitude() <= ONE_BITS,
        unit_of(value).is_zero() || unit_of(value).size() >= pow2(142),
{
    let offset = bounded(value, 0, 255) - 128;
    let unit = pow2(149) as int;
    lemma_constants();
    lemma_pow2_pos(142);
    lemma_pow2_adds(7, 142);
    vstd::arithmetic::power2::lemma2_to64();
    let step = lemma_representable(1, 142);
    reveal(Single::quotient);
    if offset >= 0 {
        lemma_small_integer(offset);
        let (num, den) = ((offset * unit) * unit, 127 * unit);
        assert(0 <= num <= unit * den) by (nonlinear_arith)
            requires
                num == (offset * unit) * unit,
                den == 127 * unit,
                0 <= offset <= 127,
                unit > 0,
        ;
        nearest_exists(num, den);
        lemma_nearest_not_above(num, den, ONE_BITS as int, nearest(num, den));
        if offset == 0 {
            lemma_nothing(den);
            assert(num == 0) by (nonlinear_arith)
                requires
                    num == (offset * unit) * unit,
                    offset == 0,
            ;
        } else {
            let w = pow2(142) as int;
            assert(w * den <= num) by (nonlinear_arith)
                requires
                    num == (offset * unit) * unit,
                    den == 127 * unit,
                    unit == 128 * w,
                    offset >= 1,
                    w > 0,
            ;
            lemma_nearest_not_below(num, den, step, nearest(num, den));
            if step < nearest(num, den) {
                lemma_scaled_magnitude_increases(step, nearest(num, den));
            }
        }
    } else {
        let n = -offset;
        lemma_small_integer(n);
        let (num, den) = ((n * unit) * unit, 128 * unit);
        assert(0 <= num <= unit * den) by (nonlinear_arith)
            requires
                num == (n * unit) * unit,
                den == 128 * unit,
                0 <= n <= 128,
                unit > 0,
        ;
        nearest_exists(num, den);
        lemma_nearest_not_above(num, den, ONE_BITS as int, nearest(num, den));
        let w = pow2(142) as int;
        assert(w * den <= num) by (nonlinear_arith)
            requires
                num == (n * unit) * unit,
                den == 128 * unit,
                unit == 128 * w,
                n >= 1,
                w > 0,
        ;
        lemma_nearest_not_below(num, den, step, nearest(num, den));
        if step < nearest(num, den) {
            lemma_scaled_magnitude_increases(step, nearest(num, den));
        }
    }
}

/// The bits of two.
pub const TWO_BITS: u32 = 0x4000_0000;

/// A magnitude in units of 2^-149 that lies above that of epsilon belongs to a number above it.
proof fn lemma_above_epsilon(m: int)
    requires
        0 <= m < INFINITY_BITS,
        scaled_magnitude(m) > pow2(126),
    ensures
        m > EPSILON_BITS,
        !with_sign(m, false).not_above(epsilon()),
{
    lemma_epsilon();
    if m < EPSILON_BITS {
        lemma_scaled_magnitude_increases(m, EPSILON_BITS as int);
    }
}

/// Epsilon in units of 2^-149.
pub proof fn lemma_epsilon()
    ensures
        scaled_magnitude(EPSILON_BITS as int) == pow2(126),
{
    vstd::arithmetic::power2::lemma2_to64();
    lemma_place(0x80_0000, 103);
    lemma_pow2_adds(23, 103);
}

/// Without zones, one axis of a stick stays where it is, at every distance from the centre that is
/// not below the axis, and not above two.
proof fn lemma_no_zones_axis(value: int, radius: Single, deadzone: Single, anti_deadzone: Single)
    requires
        deadzone.is_zero(),
        anti_deadzone.is_zero(),
        unit_of(value).unsigned().not_above(radius),
        radius.not_above(Single { bits: TWO_BITS }),
        !radius.not_above(epsilon()),
    ensures
        ({
            let magnitude = unit_of(value).unsigned().smaller(one());
            shown_at(
                radial_axis_shaped(
                    magnitude,
                    magnitude.quotient(radius),
                    deadzone,
                    anti_deadzone,
                ).product(unit_of(value).direction()),
            ) == shown_at(unit_of(value))
        }),
{
    let x = unit_of(value);
    let magnitude = x.unsigned().smaller(one());
    lemma_unit_size(value);
    assert(magnitude == x.unsigned());
    let ratio = magnitude.quotient(radius);
    if x.is_zero() {
        lemma_times_one(x.direction(), zero());
        let at = zero().product(x.direction());
        lemma_zero_shown(at);
        lemma_zero_shown(x);
    } else {
        let unit = pow2(149) as int;
        lemma_constants();
        vstd::arithmetic::power2::lemma2_to64();
        lemma_two();
        lemma_pow2_adds(8, 141);
        lemma_pow2_adds(1, 141);
        vstd::arithmetic::power2::lemma_pow2_strictly_increases(126, 141);
        lemma_size(radius);
        lemma_size(x);
        if x.magnitude() < radius.magnitude() {
            lemma_scaled_magnitude_increases(x.magnitude(), radius.magnitude());
        }
        if radius.magnitude() < TWO_BITS {
            lemma_scaled_magnitude_increases(radius.magnitude(), TWO_BITS as int);
        }
        let (size, den, w) = (x.size(), radius.size(), pow2(141) as int);
        let num = size * unit;
        assert(num <= unit * den && w * den <= num && num >= 0) by (nonlinear_arith)
            requires
                num == size * unit,
                0 < size <= den <= 2 * unit,
                size >= 2 * w,
                unit > 0,
                w > 0,
        ;
        nearest_exists(num, den);
        lemma_nearest_not_above(num, den, ONE_BITS as int, nearest(num, den));
        let b = lemma_representable(1, 141);
        lemma_nearest_not_below(num, den, b, nearest(num, den));
        if b < nearest(num, den) {
            lemma_scaled_magnitude_increases(b, nearest(num, den));
        }
        lemma_above_epsilon(nearest(num, den));
        lemma_above_epsilon(x.magnitude());
        assert(ratio == with_sign(nearest(num, den), false)) by {
            reveal(Single::quotient);
        }
        lemma_no_zones_radial(magnitude, ratio, deadzone, anti_deadzone);
        lemma_times_one(x.direction(), magnitude);
    }
}

/// A position between minus one and one is at most two from the centre.
pub proof fn lemma_distance_at_most_two(x: Single, y: Single)
    requires
        x.magnitude() <= ONE_BITS,
        y.magnitude() <= ONE_BITS,
    ensures
        x.distance(y).not_above(Single { bits: TWO_BITS }),
        x.distance(y).magnitude() <= TWO_BITS,
        !x.distance(y).is_negative(),
{
    let unit = pow2(149) as int;
    lemma_constants();
    lemma_two();
    lemma_sizes_ordered(x.magnitude(), ONE_BITS as int);
    lemma_sizes_ordered(y.magnitude(), ONE_BITS as int);
    lemma_squares_increase(x.size(), unit);
    lemma_squares_increase(y.size(), unit);
    let sum = square(x.size()) + square(y.size());
    assert(square(2 * unit) == 4 * square(unit)) by (nonlinear_arith)
        requires
            square(2 * unit) == (2 * unit) * (2 * unit),
            square(unit) == unit * unit,
    ;
    roots_keep_the_order(TWO_BITS as int, sum);
    reveal(Single::distance);
}

/// Two in units of 2^-149.
proof fn lemma_two()
    ensures
        scaled_magnitude(TWO_BITS as int) == 2 * pow2(149),
{
    vstd::arithmetic::power2::lemma2_to64();
    lemma_place(0x80_0000, 127);
    lemma_pow2_adds(23, 127);
    lemma_pow2_adds(1, 149);
}

/// A stick without zones, and without the square, is shown where it stands: as though it were not
/// shaped.
pub proof fn no_zones_change_nothing(raw: Stick2<i32>, stick: StickProfile)
    requires
        stick.deadzone.is_zero(),
        stick.anti_deadzone.is_zero(),
        !stick.square,
    ensures
        shaped(raw, stick, true) == unshaped(raw),
{
    let (x, y) = (unit_of(raw.x as int), unit_of(raw.y as int));
    let radius = x.distance(y);
    lemma_unit_size(raw.x as int);
    lemma_unit_size(raw.y as int);
    let (d, a) = (stick.deadzone, stick.anti_deadzone);
    no_zones_change_no_axis(x, d, a);
    no_zones_change_no_axis(y, d, a);
    if stick.deadzone_shape == DeadzoneShape::Radial {
        distances_are_not_below_the_coordinates(x, y);
        lemma_distance_at_most_two(x, y);
        if radius.not_above(epsilon()) {
            lemma_small_unit(raw.x as int);
            lemma_small_unit(raw.y as int);
            lemma_zero_shown(x);
            lemma_zero_shown(y);
            lemma_zero_shown(zero());
        } else {
            lemma_no_zones_axis(raw.x as int, radius, d, a);
            lemma_no_zones_axis(raw.y as int, radius, d, a);
        }
    }
}

/// An axis that stands next to the centre stands in it.
proof fn lemma_small_unit(value: int)
    requires
        unit_of(value).unsigned().not_above(epsilon()),
    ensures
        unit_of(value).is_zero(),
{
    let x = unit_of(value);
    lemma_unit_size(value);
    if !x.is_zero() {
        vstd::arithmetic::power2::lemma_pow2_strictly_increases(126, 142);
        lemma_above_epsilon(x.magnitude());
    }
}

/// The magnitude bits of the difference of two magnitudes.
spec fn less(a: int, b: int) -> int {
    nearest(scaled_magnitude(a) - scaled_magnitude(b), 1)
}

/// The magnitude bits of the part of the way behind the dead zone `d` that is behind the magnitude
/// `m`.
spec fn part_behind(m: int, d: int) -> int {
    nearest(scaled_magnitude(less(m, d)) * pow2(149), scaled_magnitude(less(ONE_BITS as int, d)))
}

/// The magnitude bits of `a` and the part `scaled` of what is left from there to one.
spec fn risen(scaled: int, a: int) -> int {
    let more = nearest(
        scaled_magnitude(scaled) * scaled_magnitude(less(ONE_BITS as int, a)),
        pow2(149) as int,
    );
    let sum = nearest(scaled_magnitude(a) + scaled_magnitude(more), 1);
    if sum > ONE_BITS {
        ONE_BITS as int
    } else {
        sum
    }
}

/// What the steps behind a dead zone give, as magnitude bits.
#[verifier::rlimit(30)]
proof fn lemma_axis_steps(value: Single, deadzone: Single, anti_deadzone: Single)
    requires
        value.magnitude() <= ONE_BITS,
        are_zones(deadzone, anti_deadzone),
        !value.unsigned().not_above(deadzone),
    ensures
        ({
            let (m, d, a) = (value.magnitude(), deadzone.magnitude(), anti_deadzone.magnitude());
            let kept = risen(part_behind(m, d), a);
            &&& axis_shaped(value, deadzone, anti_deadzone) == with_sign(kept, value.is_negative())
            &&& 0 <= kept <= ONE_BITS
            &&& 0 <= part_behind(m, d) <= ONE_BITS
            &&& 0 < less(ONE_BITS as int, d) <= ONE_BITS
            &&& one().difference(deadzone) == with_sign(less(ONE_BITS as int, d), false)
            &&& value.unsigned().difference(deadzone) == with_sign(less(m, d), false)
            &&& value.unsigned().difference(deadzone).quotient(one().difference(deadzone))
                == with_sign(part_behind(m, d), false)
        }),
{
    lemma_constants();
    let (m, d, a) = (value.magnitude(), deadzone.magnitude(), anti_deadzone.magnitude());
    let magnitude = value.unsigned();
    lemma_difference(magnitude, deadzone);
    lemma_difference(one(), deadzone);
    lemma_difference(one(), anti_deadzone);
    if m < ONE_BITS {
        lemma_scaled_magnitude_increases(m, ONE_BITS as int);
    }
    rounding_keeps_the_order(
        magnitude.size() - deadzone.size(),
        one().size() - deadzone.size(),
        1,
    );
    let moved = magnitude.difference(deadzone);
    let range = one().difference(deadzone);
    lemma_ratio(moved, range);
    lemma_part_exists(moved, range);
    let scaled = moved.quotient(range);
    assert(scaled == with_sign(part_behind(m, d), false)) by {
        reveal(Single::quotient);
    }
    let rest = one().difference(anti_deadzone);
    lemma_risen(scaled, anti_deadzone);
    let kept = anti_deadzone.sum(scaled.product(rest)).clamped(zero(), one());
    lemma_times_one(value.direction(), kept);
}

proof fn lemma_part_exists(moved: Single, range: Single)
    requires
        moved.magnitude() < INFINITY_BITS,
        0 < range.magnitude() < INFINITY_BITS,
    ensures
        0 <= nearest(moved.size() * pow2(149), range.size()) <= INFINITY_BITS,
{
    lemma_constants();
    lemma_size(moved);
    lemma_size(range);
    let (size, unit) = (moved.size(), pow2(149) as int);
    assert(size * unit >= 0) by (nonlinear_arith)
        requires
            size >= 0,
            unit > 0,
    ;
    nearest_exists(size * unit, range.size());
}

/// What rises from the anti-dead zone.
proof fn lemma_risen(scaled: Single, anti_deadzone: Single)
    requires
        scaled.magnitude() <= ONE_BITS,
        !scaled.is_negative(),
        !anti_deadzone.is_nan() && 0 <= anti_deadzone.rank() <= ONE_BITS,
    ensures
        ({
            let rest = one().difference(anti_deadzone);
            let kept = anti_deadzone.sum(scaled.product(rest)).clamped(zero(), one());
            &&& kept.magnitude() == risen(scaled.magnitude(), anti_deadzone.magnitude())
            &&& !kept.is_negative()
            &&& anti_deadzone.magnitude() <= kept.magnitude() <= ONE_BITS
        }),
{
    lemma_constants();
    lemma_difference(one(), anti_deadzone);
    let rest = one().difference(anti_deadzone);
    let more = scaled.product(rest);
    lemma_product_not_above(scaled, rest);
    lemma_size(more);
    lemma_size(anti_deadzone);
    let n = anti_deadzone.size() + more.size();
    nearest_exists(n, 1);
    lemma_nearest_not_below(n, 1, anti_deadzone.magnitude(), nearest(n, 1));
    lemma_product_magnitude(scaled, rest);
    let sum = anti_deadzone.sum(more);
    assert(sum.magnitude() == nearest(n, 1) && !sum.is_nan() && !sum.is_negative()) by {
        reveal(Single::sum);
        lemma_nothing(1);
    }
}

/// What is left of one behind `a`, and `a`, make one.
proof fn lemma_whole_again(a: int)
    requires
        0 <= a <= ONE_BITS,
    ensures
        nearest(scaled_magnitude(a) + scaled_magnitude(less(ONE_BITS as int, a)), 1) == ONE_BITS,
{
    let unit = pow2(149) as int;
    let h = pow2(124) as int;
    let top = ONE_BITS as int;
    lemma_constants();
    vstd::arithmetic::power2::lemma2_to64();
    lemma_pow2_pos(124);
    lemma_pow2_adds(1, 124);
    lemma_pow2_adds(2, 124);
    lemma_pow2_adds(25, 124);
    lemma_place(0xff_ffff, 125);
    lemma_place(0x80_0000, 126);
    assert(top == 125 * 0x80_0000 + 0x100_0000);
    assert(scaled_magnitude(top - 1) == 0xff_ffff * (2 * h));
    assert(scaled_magnitude(top + 1) == 0x80_0001 * (4 * h));
    if 0 < a {
        lemma_scaled_magnitude_increases(0, a);
    }
    if a < top {
        lemma_scaled_magnitude_increases(a, top);
    }
    let size = scaled_magnitude(a);
    let k = less(top, a);
    nearest_exists(unit - size, 1);
    lemma_nearest_not_above(unit - size, 1, top, k);
    let here = scaled_magnitude(k);
    if k > 0 {
        lemma_gap(k - 1, 126);
    }
    if k < top {
        lemma_gap(k, 126);
    }
    let n = size + here;
    assert(unit - h <= n <= unit + h);
    nearest_is_unique(top, top, n, 1);
}

/// What is left of one behind a dead zone is more than epsilon.
proof fn lemma_range_left(d: int)
    requires
        0 <= d <= LARGEST_DEADZONE_BITS,
    ensures
        less(ONE_BITS as int, d) > EPSILON_BITS,
{
    let unit = pow2(149) as int;
    lemma_constants();
    vstd::arithmetic::power2::lemma2_to64();
    lemma_pow2_pos(125);
    lemma_pow2_adds(24, 125);
    lemma_pow2_adds(1, 125);
    lemma_pow2_adds(2, 125);
    lemma_place(0xfd_70a4, 125);
    assert(LARGEST_DEADZONE_BITS == 125 * 0x80_0000 + 0xfd_70a4);
    if d < LARGEST_DEADZONE_BITS {
        lemma_scaled_magnitude_increases(d, LARGEST_DEADZONE_BITS as int);
    }
    let n = unit - scaled_magnitude(d);
    let b = lemma_representable(1, 127);
    nearest_exists(n, 1);
    lemma_nearest_not_below(n, 1, b, nearest(n, 1));
    lemma_above_epsilon(b);
}

/// A circular dead zone and one for each axis are the same along an axis, but next to the centre:
/// there a circular dead zone takes out all motion up to epsilon, even if it is smaller.
pub proof fn shapes_agree_along_an_axis(x: Single, deadzone: Single, anti_deadzone: Single)
    requires
        x.magnitude() <= ONE_BITS,
        are_zones(deadzone, anti_deadzone),
        x.unsigned().not_above(epsilon()) ==> x.unsigned().not_above(deadzone),
    ensures
        ({
            let shaped = axis_shaped(x, deadzone, anti_deadzone);
            &&& radially_shaped(x, zero(), deadzone, anti_deadzone) == (shaped, zero())
            &&& radially_shaped(zero(), x, deadzone, anti_deadzone) == (zero(), shaped)
            &&& axis_shaped(zero(), deadzone, anti_deadzone) == zero()
        }),
{
    let radius = x.unsigned();
    distances_along_an_axis_are_exact(x, zero());
    lemma_times_one(one(), zero());
    assert(zero().direction() == one());
    if !radius.not_above(deadzone) {
        lemma_over_self(radius);
        lemma_times_one(one(), deadzone);
        lemma_times_one(one(), anti_deadzone);
        lemma_axis_steps(x, deadzone, anti_deadzone);
        lemma_range_left(deadzone.magnitude());
        let scaled = radius.difference(deadzone).quotient(one().difference(deadzone));
        let rest = one().difference(anti_deadzone);
        lemma_risen(scaled, anti_deadzone);
        products_commute(rest, scaled);
        sums_commute(anti_deadzone, scaled.product(rest));
        let kept = anti_deadzone.sum(scaled.product(rest)).clamped(zero(), one());
        products_commute(kept, x.direction());
        assert(radial_axis_shaped(radius, one(), deadzone, anti_deadzone) == kept);
    }
}

/// A full deflection gives the full output, whatever the zones are.
pub proof fn full_deflection_is_full_output(
    value: Single,
    deadzone: Single,
    anti_deadzone: Single,
)
    requires
        value.magnitude() == ONE_BITS,
        are_zones(deadzone, anti_deadzone),
    ensures
        axis_shaped(value, deadzone, anti_deadzone) == value,
        radially_shaped(value, zero(), deadzone, anti_deadzone) == (value, zero()),
        radially_shaped(zero(), value, deadzone, anti_deadzone) == (zero(), value),
        squared(value, zero()) == (value, zero()),
        squared(zero(), value) == (zero(), value),
        shown_at(value) == if value.is_negative() {
            -32768int
        } else {
            32767int
        },
{
    let (d, a, top) = (deadzone.magnitude(), anti_deadzone.magnitude(), ONE_BITS as int);
    let unit = pow2(149) as int;
    lemma_constants();
    lemma_axis_steps(value, deadzone, anti_deadzone);
    lemma_over_self(one().difference(deadzone));
    assert(part_behind(top, d) == top);
    lemma_whole_again(a);
    lemma_difference(one(), anti_deadzone);
    let rest = scaled_magnitude(less(top, a));
    numbers_are_kept(less(top, a), unit);
    assert(unit * rest == rest * unit) by (nonlinear_arith);
    assert(risen(top, a) == top);
    shapes_agree_along_an_axis(value, deadzone, anti_deadzone);
    assert(value.unsigned() == one());
    lemma_ends_shown(value);
    lemma_ends_squared(value);
}

/// The square leaves the ends of the axes where they are.
proof fn lemma_ends_squared(value: Single)
    requires
        value.magnitude() == ONE_BITS,
    ensures
        squared(value, zero()) == (value, zero()),
        squared(zero(), value) == (zero(), value),
{
    distances_along_an_axis_are_exact(value, zero());
    assert(value.unsigned() == one());
    lemma_over_one(value);
    lemma_over_one(zero());
    lemma_over_one(one());
    lemma_times_one(one(), value);
    lemma_times_one(one(), zero());
}

/// The ends of an axis are shown at the ends of the range.
pub proof fn lemma_ends_shown(value: Single)
    requires
        value.magnitude() == ONE_BITS,
    ensures
        shown_at(value) == if value.is_negative() {
            -32768int
        } else {
            32767int
        },
{
    reveal(shown_at);
    let unit = pow2(149) as int;
    lemma_constants();
    lemma_times_one(value, Single { bits: UPPER_RANGE_BITS });
    lemma_times_one(value, Single { bits: LOWER_RANGE_BITS });
    vstd::arithmetic::power2::lemma_pow2_unfold(150);
    vstd::arithmetic::div_mod::lemma_fundamental_div_mod_converse(
        2 * (32767 * unit) + unit,
        2 * unit,
        32767,
        unit,
    );
    vstd::arithmetic::div_mod::lemma_fundamental_div_mod_converse(
        2 * (32768 * unit) + unit,
        2 * unit,
        32768,
        unit,
    );
}

/// The ends of the range of a raw axis are full deflections.
proof fn lemma_ends()
    ensures
        unit_of(255) == one(),
        unit_of(0) == with_sign(ONE_BITS as int, true),
{
    lemma_constants();
    let unit = pow2(149) as int;
    numbers_are_kept(UPPER_HALF_BITS as int, 1);
    numbers_are_kept(LOWER_HALF_BITS as int, 1);
    lemma_over_self(Single { bits: UPPER_HALF_BITS });
    assert(integer(127) == Single { bits: UPPER_HALF_BITS });
    assert(integer(-128) == with_sign(LOWER_HALF_BITS as int, true));
    assert((128 * unit) * unit == unit * (128 * unit)) by (nonlinear_arith);
    numbers_are_kept(ONE_BITS as int, 128 * unit);
    assert(integer(-128).quotient(Single { bits: LOWER_HALF_BITS }) == with_sign(
        ONE_BITS as int,
        true,
    )) by {
        reveal(Single::quotient);
    }
}

/// A stick that is pushed to the end of an axis is shown at that end of the range, and at rest along
/// the other axis, whatever its zones are, with the square and without it.
pub proof fn pushed_sticks_reach_the_end(end: int, stick: StickProfile)
    requires
        are_zones(stick.deadzone, stick.anti_deadzone),
        end == 0 || end == 255,
    ensures
        ({
            let at = if end == 0 {
                -32768i32
            } else {
                32767i32
            };
            &&& shaped(Stick2 { x: end as i32, y: 128i32 }, stick, true) == Stick2 {
                x: at,
                y: 0i32,
            }
            &&& shaped(Stick2 { x: 128i32, y: end as i32 }, stick, true) == Stick2 {
                x: 0i32,
                y: at,
            }
        }),
{
    lemma_ends();
    lemma_centre();
    full_deflection_is_full_output(unit_of(end), stick.deadzone, stick.anti_deadzone);
    lemma_zero_shown(zero());
}

/// Exchanging the axes of a position at a distance from the centre exchanges the axes of what is
/// left of it.
pub proof fn lemma_exchanged_at(
    x: Single,
    y: Single,
    radius: Single,
    deadzone: Single,
    anti_deadzone: Single,
)
    ensures
        ({
            let (a, b) = radially_shaped_at(x, y, radius, deadzone, anti_deadzone);
            &&& radially_shaped_at(y, x, radius, deadzone, anti_deadzone) == (b, a)
        }),
        ({
            let (a, b) = squared_at(x, y, radius);
            &&& squared_at(y, x, radius) == (b, a)
        }),
{
    let (ux, uy) = (x.quotient(radius), y.quotient(radius));
    assert(ux.unsigned().larger(uy.unsigned()).larger(epsilon()) == uy.unsigned().larger(
        ux.unsigned(),
    ).larger(epsilon()));
}

/// Exchanging the axes of a position exchanges the axes of what is left of it.
pub proof fn exchanged_axes_stay_exchanged(
    x: Single,
    y: Single,
    deadzone: Single,
    anti_deadzone: Single,
)
    ensures
        ({
            let (a, b) = radially_shaped(x, y, deadzone, anti_deadzone);
            &&& radially_shaped(y, x, deadzone, anti_deadzone) == (b, a)
        }),
        ({
            let (a, b) = squared(x, y);
            &&& squared(y, x) == (b, a)
        }),
{
    distances_are_symmetric(x, y);
    lemma_exchanged_at(x, y, x.distance(y), deadzone, anti_deadzone);
}

/// Exchanging the axes of a stick exchanges the axes of where it is shown. A stick that stands alike
/// along both axes is shown alike along both.
pub proof fn exchanged_sticks_stay_exchanged(
    raw: Stick2<i32>,
    stick: StickProfile,
    enabled: bool,
)
    ensures
        ({
            let at = shaped(raw, stick, enabled);
            &&& shaped(Stick2 { x: raw.y, y: raw.x }, stick, enabled) == Stick2 {
                x: at.y,
                y: at.x,
            }
            &&& raw.x == raw.y ==> at.x == at.y
        }),
{
    let (x, y) = (unit_of(raw.x as int), unit_of(raw.y as int));
    exchanged_axes_stay_exchanged(x, y, stick.deadzone, stick.anti_deadzone);
    let (u, v) = behind_deadzone(raw, stick);
    exchanged_axes_stay_exchanged(u, v, stick.deadzone, stick.anti_deadzone);
    assert(behind_deadzone(Stick2 { x: raw.y, y: raw.x }, stick) == (v, u));
    if raw.x == raw.y {
        assert(Stick2 { x: raw.y, y: raw.x } == raw);
    }
}

/// Larger magnitudes stand for larger values.
pub proof fn lemma_sizes_ordered(m: int, n: int)
    requires
        0 <= m <= n,
    ensures
        0 <= scaled_magnitude(m) <= scaled_magnitude(n),
{
    if 0 < m {
        lemma_scaled_magnitude_increases(0, m);
    }
    if m < n {
        lemma_scaled_magnitude_increases(m, n);
    }
}

/// The steps behind a dead zone give no less for a larger magnitude.
proof fn lemma_steps_grow(m: int, n: int, d: int, a: int)
    requires
        0 <= d < m <= n <= ONE_BITS,
        d <= LARGEST_DEADZONE_BITS,
        0 <= a <= ONE_BITS,
    ensures
        0 <= risen(part_behind(m, d), a) <= risen(part_behind(n, d), a),
{
    let unit = pow2(149) as int;
    let top = ONE_BITS as int;
    lemma_constants();
    lemma_sizes_ordered(d, m);
    lemma_sizes_ordered(m, n);
    lemma_sizes_ordered(d, top);
    rounding_keeps_the_order(
        scaled_magnitude(m) - scaled_magnitude(d),
        scaled_magnitude(n) - scaled_magnitude(d),
        1,
    );
    nearest_exists(scaled_magnitude(m) - scaled_magnitude(d), 1);
    lemma_range_left(d);
    lemma_sizes_ordered(less(m, d), less(n, d));
    lemma_scaled_magnitude_increases(0, less(top, d));
    let (x, y, den) = (
        scaled_magnitude(less(m, d)),
        scaled_magnitude(less(n, d)),
        scaled_magnitude(less(top, d)),
    );
    assert(0 <= x * unit <= y * unit) by (nonlinear_arith)
        requires
            0 <= x <= y,
            unit > 0,
    ;
    rounding_keeps_the_order(x * unit, y * unit, den);
    nearest_exists(x * unit, den);
    lemma_risen_grows(part_behind(m, d), part_behind(n, d), a);
}

/// What rises from the anti-dead zone does not fall.
proof fn lemma_risen_grows(m: int, n: int, a: int)
    requires
        0 <= m <= n,
        0 <= a <= ONE_BITS,
    ensures
        0 <= risen(m, a) <= risen(n, a),
{
    let unit = pow2(149) as int;
    let top = ONE_BITS as int;
    lemma_constants();
    lemma_sizes_ordered(m, n);
    lemma_sizes_ordered(a, top);
    nearest_exists(unit - scaled_magnitude(a), 1);
    lemma_sizes_ordered(0, less(top, a));
    let (u, v, rest) = (
        scaled_magnitude(m),
        scaled_magnitude(n),
        scaled_magnitude(less(top, a)),
    );
    assert(0 <= u * rest <= v * rest) by (nonlinear_arith)
        requires
            0 <= u <= v,
            rest >= 0,
    ;
    rounding_keeps_the_order(u * rest, v * rest, unit);
    nearest_exists(u * rest, unit);
    let (p, q) = (nearest(u * rest, unit), nearest(v * rest, unit));
    lemma_sizes_ordered(p, q);
    rounding_keeps_the_order(
        scaled_magnitude(a) + scaled_magnitude(p),
        scaled_magnitude(a) + scaled_magnitude(q),
        1,
    );
    nearest_exists(scaled_magnitude(a) + scaled_magnitude(p), 1);
}

/// Where each axis has its own dead zone, an axis that is moved farther one way is not shaped, nor
/// shown, farther the other way.
pub proof fn axes_grow_with_the_motion(
    u: Single,
    v: Single,
    deadzone: Single,
    anti_deadzone: Single,
)
    requires
        u.magnitude() <= ONE_BITS,
        v.magnitude() <= ONE_BITS,
        u.rank() <= v.rank(),
        are_zones(deadzone, anti_deadzone),
    ensures
        axis_shaped(u, deadzone, anti_deadzone).not_above(
            axis_shaped(v, deadzone, anti_deadzone),
        ),
        shown_at(axis_shaped(u, deadzone, anti_deadzone)) <= shown_at(
            axis_shaped(v, deadzone, anti_deadzone),
        ),
{
    let (d, a) = (deadzone.magnitude(), anti_deadzone.magnitude());
    if !u.unsigned().not_above(deadzone) {
        lemma_axis_steps(u, deadzone, anti_deadzone);
    }
    if !v.unsigned().not_above(deadzone) {
        lemma_axis_steps(v, deadzone, anti_deadzone);
    }
    if d < u.magnitude() <= v.magnitude() {
        lemma_steps_grow(u.magnitude(), v.magnitude(), d, a);
    }
    if d < v.magnitude() <= u.magnitude() {
        lemma_steps_grow(v.magnitude(), u.magnitude(), d, a);
    }
    lemma_shown_grows(
        axis_shaped(u, deadzone, anti_deadzone),
        axis_shaped(v, deadzone, anti_deadzone),
    );
}

/// An axis that stands farther one way is not shown farther the other way.
proof fn lemma_shown_grows(u: Single, v: Single)
    requires
        u.magnitude() <= ONE_BITS,
        v.magnitude() <= ONE_BITS,
        u.rank() <= v.rank(),
    ensures
        shown_at(u) <= shown_at(v),
{
    lemma_shown_side(u);
    lemma_shown_side(v);
    if u.is_zero() {
        lemma_zero_shown(u);
    }
    if v.is_zero() {
        lemma_zero_shown(v);
    }
    if !u.is_zero() && !v.is_zero() && u.is_negative() == v.is_negative() {
        lemma_constants();
        if u.is_negative() {
            lemma_shown_of(u, LOWER_RANGE_BITS);
            lemma_shown_of(v, LOWER_RANGE_BITS);
            lemma_scaled_up(v.magnitude(), u.magnitude(), LOWER_RANGE_BITS as int);
        } else {
            lemma_shown_of(u, UPPER_RANGE_BITS);
            lemma_shown_of(v, UPPER_RANGE_BITS);
            lemma_scaled_up(u.magnitude(), v.magnitude(), UPPER_RANGE_BITS as int);
        }
    }
}

/// The distance from the centre at which a magnitude is shown on a range with the end `scale`.
pub open spec fn shown_distance(m: int, scale: int) -> int {
    (2 * scaled_magnitude(
        nearest(scaled_magnitude(m) * scaled_magnitude(scale), pow2(149) as int),
    ) + pow2(149)) / pow2(150) as int
}

/// Where an axis that does not stand in the centre is shown.
pub proof fn lemma_shown_of(x: Single, scale: u32)
    requires
        0 < x.magnitude() <= ONE_BITS,
        scale == if x.is_negative() {
            LOWER_RANGE_BITS
        } else {
            UPPER_RANGE_BITS
        },
    ensures
        shown_at(x) == if x.is_negative() {
            -shown_distance(x.magnitude(), scale as int)
        } else {
            shown_distance(x.magnitude(), scale as int)
        },
{
    reveal(shown_at);
    let at = Single { bits: scale };
    lemma_product_not_above(x, at);
    lemma_product_magnitude(x, at);
}

/// Larger magnitudes are shown farther from the centre.
proof fn lemma_scaled_up(m: int, n: int, scale: int)
    requires
        0 <= m <= n,
        0 <= scale,
    ensures
        shown_distance(m, scale) <= shown_distance(n, scale),
{
    let unit = pow2(149) as int;
    lemma_pow2_pos(149);
    lemma_pow2_pos(150);
    lemma_sizes_ordered(m, n);
    lemma_sizes_ordered(0, scale);
    let (x, y, z) = (scaled_magnitude(m), scaled_magnitude(n), scaled_magnitude(scale));
    assert(0 <= x * z <= y * z) by (nonlinear_arith)
        requires
            0 <= x <= y,
            z >= 0,
    ;
    rounding_keeps_the_order(x * z, y * z, unit);
    nearest_exists(x * z, unit);
    let (p, q) = (nearest(x * z, unit), nearest(y * z, unit));
    lemma_sizes_ordered(p, q);
    vstd::arithmetic::div_mod::lemma_div_is_ordered(
        2 * scaled_magnitude(p) + unit,
        2 * scaled_magnitude(q) + unit,
        pow2(150) as int,
    );
}

/// What a circular dead zone leaves free along an axis is more than nothing, and at most one.
#[verifier::rlimit(30)]
proof fn lemma_usable_range(axis_deadzone: Single)
    requires
        axis_deadzone.magnitude() < INFINITY_BITS,
        axis_deadzone.rank() >= 0,
    ensures
        ({
            let range = one().difference(axis_deadzone).larger(epsilon());
            !range.is_negative() && 0 < range.magnitude() <= ONE_BITS
        }),
{
    reveal(Single::sum);
    lemma_constants();
    lemma_size(axis_deadzone);
    let n = one().size() - axis_deadzone.size();
    if n > 0 {
        nearest_exists(n, 1);
        lemma_nearest_not_above(n, 1, ONE_BITS as int, nearest(n, 1));
    } else if n < 0 {
        nearest_exists(-n, 1);
    }
}

/// The difference of two numbers that are not negative is negative only if it is not zero.
#[verifier::rlimit(30)]
proof fn lemma_moved(a: Single, b: Single)
    requires
        a.magnitude() < INFINITY_BITS,
        !a.is_negative(),
        b.magnitude() < INFINITY_BITS,
        b.rank() >= 0,
    ensures
        !a.difference(b).is_nan(),
        a.difference(b).is_negative() ==> a.difference(b).magnitude() > 0,
        ({
            let n = a.size() - b.size();
            a.difference(b).rank() == if n < 0 {
                -nearest(-n, 1)
            } else {
                nearest(n, 1)
            }
        }),
{
    reveal(Single::sum);
    lemma_nothing(1);
    lemma_size(a);
    lemma_size(b);
    let n = a.size() - b.size();
    if n > 0 {
        nearest_exists(n, 1);
    } else if n < 0 {
        nearest_exists(-n, 1);
        assert(scaled_magnitude(1) == 1);
        lemma_nearest_not_below(-n, 1, 1, nearest(-n, 1));
    }
}

/// The part of the way behind a circular dead zone lies between nothing and one.
#[verifier::rlimit(30)]
proof fn lemma_radial_part(moved: Single, range: Single)
    requires
        !moved.is_nan(),
        moved.is_negative() ==> moved.magnitude() > 0,
        !range.is_negative() && 0 < range.magnitude() <= ONE_BITS,
    ensures
        ({
            let scaled = moved.quotient(range).clamped(zero(), one());
            !scaled.is_negative() && scaled.magnitude() <= ONE_BITS
        }),
{
    let unit = pow2(149) as int;
    lemma_constants();
    lemma_size(moved);
    lemma_size(range);
    lemma_sizes_ordered(range.magnitude(), ONE_BITS as int);
    let (size, den) = (moved.size(), range.size());
    let num = size * unit;
    assert(num >= 0 && (size >= 1 ==> num >= den)) by (nonlinear_arith)
        requires
            num == size * unit,
            size >= 0,
            0 < den <= unit,
    ;
    nearest_exists(num, den);
    if size >= 1 {
        assert(scaled_magnitude(1) == 1);
        lemma_nearest_not_below(num, den, 1, nearest(num, den));
    }
    let part = moved.quotient(range);
    assert(!part.is_nan() && (part.is_negative() ==> part.magnitude() > 0)) by {
        reveal(Single::quotient);
    }
}

/// What a circular dead zone leaves of an axis is a number between the part of the anti-dead zone
/// that the axis has and one.
#[verifier::rlimit(30)]
proof fn lemma_radial_axis(
    magnitude: Single,
    angle_ratio: Single,
    deadzone: Single,
    anti_deadzone: Single,
)
    requires
        magnitude.magnitude() <= ONE_BITS,
        !magnitude.is_negative(),
        angle_ratio.magnitude() < INFINITY_BITS,
        !angle_ratio.is_negative(),
        are_zones(deadzone, anti_deadzone),
    ensures
        ({
            let shaped = radial_axis_shaped(magnitude, angle_ratio, deadzone, anti_deadzone);
            let least = angle_ratio.product(anti_deadzone).clamped(zero(), one());
            &&& !shaped.is_negative() && shaped.magnitude() <= ONE_BITS
            &&& !magnitude.not_above(epsilon()) && !angle_ratio.not_above(epsilon())
                ==> least.magnitude() <= shaped.magnitude()
        }),
{
    if !magnitude.not_above(epsilon()) && !angle_ratio.not_above(epsilon()) {
        let axis_deadzone = angle_ratio.product(deadzone);
        products_commute(angle_ratio, deadzone);
        products_commute(angle_ratio, anti_deadzone);
        lemma_product_not_above(deadzone, angle_ratio);
        lemma_product_not_above(anti_deadzone, angle_ratio);
        lemma_signed_zero(deadzone, angle_ratio);
        lemma_signed_zero(anti_deadzone, angle_ratio);
        let range = one().difference(axis_deadzone).larger(epsilon());
        lemma_usable_range(axis_deadzone);
        let scaled = magnitude.difference(axis_deadzone).quotient(range).clamped(zero(), one());
        lemma_moved(magnitude, axis_deadzone);
        lemma_radial_part(magnitude.difference(axis_deadzone), range);
        let least = angle_ratio.product(anti_deadzone).clamped(zero(), one());
        lemma_risen(scaled, least);
        let rest = one().difference(least);
        products_commute(rest, scaled);
        sums_commute(least, scaled.product(rest));
    }
}

/// A negative zero times a number is zero.
proof fn lemma_signed_zero(a: Single, b: Single)
    requires
        a.rank() >= 0,
        a.magnitude() <= ONE_BITS,
        b.magnitude() < INFINITY_BITS,
        !b.is_negative(),
    ensures
        a.product(b).rank() >= 0,
{
    lemma_product_not_above(a, b);
    if a.is_negative() {
        lemma_times_nothing(b, a);
        products_commute(a, b);
    }
}

/// Behind a circular dead zone, motion starts at the output that is set for it: outside the dead
/// zone, no axis is left nearer to the centre than its part of that.
pub proof fn radial_motion_starts_behind_the_anti_deadzone(
    magnitude: Single,
    angle_ratio: Single,
    deadzone: Single,
    anti_deadzone: Single,
)
    requires
        magnitude.magnitude() <= ONE_BITS && !magnitude.is_negative(),
        angle_ratio.magnitude() <= ONE_BITS && !angle_ratio.is_negative(),
        are_zones(deadzone, anti_deadzone),
        !magnitude.not_above(epsilon()),
        !angle_ratio.not_above(epsilon()),
    ensures
        angle_ratio.product(anti_deadzone).not_above(
            radial_axis_shaped(magnitude, angle_ratio, deadzone, anti_deadzone),
        ),
        radial_axis_shaped(magnitude, angle_ratio, deadzone, anti_deadzone).not_above(one()),
{
    lemma_radial_axis(magnitude, angle_ratio, deadzone, anti_deadzone);
    lemma_product_not_above(angle_ratio, anti_deadzone);
    lemma_signed_zero(anti_deadzone, angle_ratio);
    products_commute(anti_deadzone, angle_ratio);
}

/// What a circular dead zone leaves of a position are two numbers between minus one and one.
pub proof fn lemma_radially_shaped(
    x: Single,
    y: Single,
    deadzone: Single,
    anti_deadzone: Single,
)
    requires
        x.magnitude() <= ONE_BITS,
        y.magnitude() <= ONE_BITS,
        are_zones(deadzone, anti_deadzone),
    ensures
        radially_shaped(x, y, deadzone, anti_deadzone).0.magnitude() <= ONE_BITS,
        radially_shaped(x, y, deadzone, anti_deadzone).1.magnitude() <= ONE_BITS,
{
    let radius = x.distance(y);
    distances_are_not_below_the_coordinates(x, y);
    if !radius.not_above(deadzone) && !radius.not_above(epsilon()) {
        lemma_radial_side(x, radius, deadzone, anti_deadzone);
        lemma_radial_side(y, radius, deadzone, anti_deadzone);
    }
}

#[verifier::rlimit(30)]
proof fn lemma_radial_side(x: Single, radius: Single, deadzone: Single, anti_deadzone: Single)
    requires
        x.magnitude() <= ONE_BITS,
        !radius.is_nan(),
        are_zones(deadzone, anti_deadzone),
        !radius.not_above(epsilon()),
    ensures
        ({
            let magnitude = x.unsigned().smaller(one());
            let shaped = radial_axis_shaped(
                magnitude,
                magnitude.quotient(radius),
                deadzone,
                anti_deadzone,
            );
            shaped.product(x.direction()).magnitude() <= ONE_BITS
        }),
{
    let magnitude = x.unsigned().smaller(one());
    assert(magnitude == x.unsigned());
    let ratio = magnitude.quotient(radius);
    assert(ratio.magnitude() < INFINITY_BITS && !ratio.is_negative()) by {
        reveal(Single::quotient);
        if !radius.is_infinite() {
            let unit = pow2(149) as int;
            lemma_constants();
            lemma_epsilon();
            vstd::arithmetic::power2::lemma2_to64();
            lemma_pow2_pos(126);
            lemma_pow2_adds(23, 126);
            lemma_pow2_adds(23, 149);
            lemma_size(magnitude);
            lemma_sizes_ordered(x.magnitude(), ONE_BITS as int);
            lemma_sizes_ordered(EPSILON_BITS as int, radius.magnitude());
            let (size, den, w) = (magnitude.size(), radius.size(), pow2(126) as int);
            let b = lemma_representable(1, 172);
            let num = size * unit;
            let bound = pow2(172) as int;
            assert(0 <= num <= bound * den) by (nonlinear_arith)
                requires
                    num == size * unit,
                    0 <= size <= unit,
                    unit == 0x80_0000 * w,
                    bound == 0x80_0000 * unit,
                    w > 0,
                    den >= w,
            ;
            nearest_exists(num, den);
            lemma_nearest_not_above(num, den, b, nearest(num, den));
        }
    }
    lemma_radial_axis(magnitude, ratio, deadzone, anti_deadzone);
    let shaped = radial_axis_shaped(magnitude, ratio, deadzone, anti_deadzone);
    lemma_times_one(x.direction(), shaped);
}

/// The differences of two numbers and one that is taken from both are in the order of the numbers.
proof fn lemma_moved_ordered(u: Single, v: Single, b: Single)
    requires
        u.magnitude() <= v.magnitude() < INFINITY_BITS,
        !u.is_negative() && !v.is_negative(),
        b.magnitude() < INFINITY_BITS,
        b.rank() >= 0,
    ensures
        u.difference(b).rank() <= v.difference(b).rank(),
{
    lemma_sizes_ordered(u.magnitude(), v.magnitude());
    lemma_moved(u, b);
    lemma_moved(v, b);
    let (m, n) = (u.size() - b.size(), v.size() - b.size());
    if m >= 0 {
        rounding_keeps_the_order(m, n, 1);
    } else if n < 0 {
        rounding_keeps_the_order(-n, -m, 1);
    } else {
        nearest_exists(-m, 1);
        nearest_exists(n, 1);
    }
}

/// The magnitude of a quotient of finite numbers.
proof fn lemma_quotient_magnitude(a: Single, b: Single)
    requires
        a.magnitude() < INFINITY_BITS,
        0 < b.magnitude() < INFINITY_BITS,
    ensures
        a.quotient(b).magnitude() == nearest(a.size() * pow2(149), b.size()),
        0 <= nearest(a.size() * pow2(149), b.size()) <= INFINITY_BITS,
        a.quotient(b).is_negative() == (a.is_negative() != b.is_negative()),
        b.size() > 0,
        a.size() >= 0,
{
    lemma_size(b);
    lemma_size(a);
    lemma_part_exists(a, b);
    reveal(Single::quotient);
}

/// The magnitude of a product of finite numbers.
proof fn lemma_product_magnitude(a: Single, b: Single)
    requires
        a.magnitude() < INFINITY_BITS,
        b.magnitude() < INFINITY_BITS,
    ensures
        a.product(b).magnitude() == nearest(a.size() * b.size(), pow2(149) as int),
{
    lemma_constants();
    lemma_size(a);
    lemma_size(b);
    let (x, y) = (a.size(), b.size());
    assert(x * y >= 0) by (nonlinear_arith)
        requires
            x >= 0,
            y >= 0,
    ;
    nearest_exists(x * y, pow2(149) as int);
    reveal(Single::product);
}

/// The parts of the way behind a circular dead zone are in the order of the ways.
proof fn lemma_radial_parts_ordered(u: Single, v: Single, range: Single)
    requires
        !u.is_nan() && !v.is_nan(),
        u.rank() <= v.rank(),
        !range.is_negative() && 0 < range.magnitude() <= ONE_BITS,
    ensures
        u.quotient(range).clamped(zero(), one()).rank() <= v.quotient(range).clamped(
            zero(),
            one(),
        ).rank(),
{
    let unit = pow2(149) as int;
    lemma_constants();
    lemma_part_side(u, range);
    lemma_part_side(v, range);
    if !u.is_negative() && !v.is_negative() && !v.is_infinite() {
        lemma_quotient_magnitude(u, range);
        lemma_quotient_magnitude(v, range);
        lemma_sizes_ordered(u.magnitude(), v.magnitude());
        let (x, y) = (u.size(), v.size());
        assert(0 <= x * unit <= y * unit) by (nonlinear_arith)
            requires
                0 <= x <= y,
                unit > 0,
        ;
        rounding_keeps_the_order(x * unit, y * unit, range.size());
    }
}

/// A part of a way is a number on the side of the way; nothing is a part of nothing.
proof fn lemma_part_side(u: Single, range: Single)
    requires
        !u.is_nan(),
        !range.is_negative() && 0 < range.magnitude() <= ONE_BITS,
    ensures
        !u.quotient(range).is_nan(),
        u.quotient(range).is_negative() == u.is_negative(),
        u.is_zero() ==> u.quotient(range).is_zero(),
        u.is_infinite() ==> u.quotient(range).is_infinite(),
{
    if u.is_infinite() {
        reveal(Single::quotient);
    } else {
        lemma_quotient_magnitude(u, range);
        if u.is_zero() {
            assert(u.size() == 0);
            assert(0 * pow2(149) == 0);
            lemma_nothing(range.size());
        }
    }
}

/// Behind a circular dead zone, an axis that is moved farther in the same direction is not left
/// nearer to the centre.
#[verifier::rlimit(30)]
pub proof fn radial_axes_grow_with_the_motion(
    u: Single,
    v: Single,
    angle_ratio: Single,
    deadzone: Single,
    anti_deadzone: Single,
)
    requires
        u.magnitude() <= v.magnitude() <= ONE_BITS,
        !u.is_negative() && !v.is_negative(),
        angle_ratio.magnitude() < INFINITY_BITS && !angle_ratio.is_negative(),
        are_zones(deadzone, anti_deadzone),
    ensures
        radial_axis_shaped(u, angle_ratio, deadzone, anti_deadzone).not_above(
            radial_axis_shaped(v, angle_ratio, deadzone, anti_deadzone),
        ),
{
    lemma_radial_axis(u, angle_ratio, deadzone, anti_deadzone);
    lemma_radial_axis(v, angle_ratio, deadzone, anti_deadzone);
    if !u.not_above(epsilon()) && !angle_ratio.not_above(epsilon()) {
        let axis_deadzone = angle_ratio.product(deadzone);
        products_commute(angle_ratio, deadzone);
        products_commute(angle_ratio, anti_deadzone);
        lemma_product_not_above(deadzone, angle_ratio);
        lemma_product_not_above(anti_deadzone, angle_ratio);
        lemma_signed_zero(deadzone, angle_ratio);
        lemma_signed_zero(anti_deadzone, angle_ratio);
        let range = one().difference(axis_deadzone).larger(epsilon());
        lemma_usable_range(axis_deadzone);
        let (moved_u, moved_v) = (u.difference(axis_deadzone), v.difference(axis_deadzone));
        lemma_moved(u, axis_deadzone);
        lemma_moved(v, axis_deadzone);
        lemma_moved_ordered(u, v, axis_deadzone);
        lemma_radial_part(moved_u, range);
        lemma_radial_part(moved_v, range);
        lemma_radial_parts_ordered(moved_u, moved_v, range);
        let least = angle_ratio.product(anti_deadzone).clamped(zero(), one());
        let part_u = moved_u.quotient(range).clamped(zero(), one());
        let part_v = moved_v.quotient(range).clamped(zero(), one());
        lemma_risen(part_u, least);
        lemma_risen(part_v, least);
        lemma_risen_grows(part_u.magnitude(), part_v.magnitude(), least.magnitude());
        let rest = one().difference(least);
        products_commute(rest, part_u);
        products_commute(rest, part_v);
        sums_commute(least, part_u.product(rest));
        sums_commute(least, part_v.product(rest));
    }
}

/// A position on a diagonal stays on it, behind a circular dead zone and on the square.
pub proof fn diagonals_stay_diagonal(
    x: Single,
    y: Single,
    deadzone: Single,
    anti_deadzone: Single,
)
    requires
        !x.is_nan() && !y.is_nan(),
        x.magnitude() == y.magnitude(),
    ensures
        radially_shaped(x, y, deadzone, anti_deadzone).0.magnitude() == radially_shaped(
            x,
            y,
            deadzone,
            anti_deadzone,
        ).1.magnitude(),
        squared(x, y).0.magnitude() == squared(x, y).1.magnitude(),
{
    let radius = x.distance(y);
    let magnitude = x.unsigned().smaller(one());
    let shaped = radial_axis_shaped(
        magnitude,
        magnitude.quotient(radius),
        deadzone,
        anti_deadzone,
    );
    lemma_one_product(shaped, shaped, x.direction(), y.direction());
    let (ux, uy) = (x.quotient(radius), y.quotient(radius));
    lemma_one_quotient(x, y, radius);
    lemma_one_product(ux, uy, radius, radius);
    let factor = one().quotient(ux.unsigned().larger(uy.unsigned()).larger(epsilon()));
    lemma_one_product(ux.product(radius), uy.product(radius), factor, factor);
}

/// The magnitude of a product is made of the magnitudes of its factors.
#[verifier::rlimit(30)]
proof fn lemma_one_product(a: Single, b: Single, c: Single, d: Single)
    requires
        a.magnitude() == b.magnitude(),
        c.magnitude() == d.magnitude(),
    ensures
        a.product(c).magnitude() == b.product(d).magnitude(),
{
    if a.magnitude() < INFINITY_BITS && c.magnitude() < INFINITY_BITS {
        lemma_product_magnitude(a, c);
        lemma_product_magnitude(b, d);
    } else {
        reveal(Single::product);
    }
}

/// The magnitude of a quotient is made of the magnitudes of its parts.
#[verifier::rlimit(30)]
proof fn lemma_one_quotient(a: Single, b: Single, c: Single)
    requires
        a.magnitude() == b.magnitude(),
    ensures
        a.quotient(c).magnitude() == b.quotient(c).magnitude(),
{
    if a.magnitude() < INFINITY_BITS && 0 < c.magnitude() < INFINITY_BITS {
        lemma_quotient_magnitude(a, c);
        lemma_quotient_magnitude(b, c);
    } else {
        reveal(Single::quotient);
    }
}

} // verus!
