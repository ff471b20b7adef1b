//! What holds of the shaping of a stick.
use vstd::arithmetic::power2::{lemma_pow2_adds, lemma_pow2_pos, pow2};
use vstd::prelude::*;

#[allow(unused_imports)]
use crate::arithmetic::{
    epsilon, integer, lemma_gap, lemma_representable, lemma_small_integer, lemma_whole, nan,
    numbers_are_kept, one, with_sign, zero, MINUS_ONE_BITS,
};
#[allow(unused_imports)]
use crate::distance::{distances_along_an_axis_are_exact, distances_are_not_negative};
#[allow(unused_imports)]
use crate::profile::{DeadzoneShape, StickProfile, DEFAULT_DEADZONE_BITS, LARGEST_DEADZONE_BITS};
#[allow(unused_imports)]
use crate::rounding::{
    is_nearest, lemma_nearest_not_above, lemma_nearest_not_below, lemma_place, nearest,
    nearest_exists, nearest_is_unique, rounding_keeps_the_order,
};
#[allow(unused_imports)]
use crate::shape::{
    axis_shaped, behind_deadzone, finished, lemma_constants, lemma_product_not_above,
    lemma_shown_in_range, radial_axis_shaped, radially_shaped, shaped, shown_at,
    shown_within_the_range, squared, unit_of, LOWER_RANGE_BITS, UPPER_HALF_BITS, UPPER_RANGE_BITS,
};
#[allow(unused_imports)]
use crate::single::{lemma_scaled_magnitude_increases, scaled_magnitude, Single, ONE_BITS};
#[allow(unused_imports)]
use crate::stick::{bounded, Stick2};

verus! {

/// Where an unshaped axis ends up: the range from 0 to 255 with its centre at 128 becomes the range
/// from -32768 to 32767, each half in proportion and rounded to the next integer
/// (`offset * 32767 / 127` never lies half way between two).
pub open spec fn proportional(value: int) -> int {
    let offset = bounded(value, 0, 255) - 128;
    if offset >= 0 {
        (2 * (offset * 32767) + 127) / 254
    } else {
        offset * 256
    }
}

/// Nothing is next to nothing.
pub proof fn lemma_nothing(den: int)
    requires
        den > 0,
    ensures
        nearest(0, den) == 0,
{
    assert(scaled_magnitude(0) * den == 0) by (nonlinear_arith)
        requires
            scaled_magnitude(0) == 0,
    ;
    numbers_are_kept(0, den);
}

/// An axis in the lower half is shown in proportion.
proof fn lemma_lower_half(n: int)
    requires
        1 <= n <= 128,
    ensures
        shown_at(unit_of(128 - n)) == -n * 256,
{
    reveal(shown_at);
    reveal(Single::product);
    reveal(Single::quotient);
    let unit = pow2(149) as int;
    lemma_constants();
    lemma_small_integer(n);
    lemma_pow2_adds(7, 142);
    lemma_pow2_adds(15, 142);
    vstd::arithmetic::power2::lemma2_to64();
    let w = pow2(142) as int;
    let a = lemma_representable(n, 142);
    assert((n * unit) * unit == (n * w) * (128 * unit)) by (nonlinear_arith)
        requires
            unit == 128 * w,
    ;
    numbers_are_kept(a, 128 * unit);
    let at = unit_of(128 - n);
    assert(a <= ONE_BITS && a > 0) by {
        assert(0 < n * w <= unit) by (nonlinear_arith)
            requires
                0 < n <= 128,
                w > 0,
                unit == 128 * w,
        ;
        if a > ONE_BITS {
            lemma_scaled_magnitude_increases(ONE_BITS as int, a);
        }
    }
    assert(at == with_sign(a, true));
    let b = lemma_representable(n, 157);
    let v = pow2(157) as int;
    assert((n * w) * (32768 * unit) == (n * v) * unit) by (nonlinear_arith)
        requires
            v == 32768 * w,
    ;
    numbers_are_kept(b, unit);
    let inside = at.clamped(Single { bits: MINUS_ONE_BITS }, one());
    assert(inside == at);
    let p = at.product(Single { bits: LOWER_RANGE_BITS });
    lemma_product_not_above(at, Single { bits: LOWER_RANGE_BITS });
    assert(p == with_sign(b, true));
    vstd::arithmetic::power2::lemma_pow2_unfold(150);
    lemma_pow2_adds(8, 149);
    assert(2 * (n * v) + unit == (n * 256) * (2 * unit) + unit) by (nonlinear_arith)
        requires
            v == 256 * unit,
    ;
    vstd::arithmetic::div_mod::lemma_fundamental_div_mod_converse(
        2 * (n * v) + unit,
        2 * unit,
        n * 256,
        unit,
    );
}

/// An axis in the upper half is shown in proportion.
proof fn lemma_upper_half(o: int)
    requires
        0 <= o <= 127,
    ensures
        shown_at(unit_of(128 + o)) == (2 * (o * 32767) + 127) / 254,
{
    reveal(shown_at);
    reveal(Single::product);
    reveal(Single::quotient);
    let unit = pow2(149) as int;
    lemma_constants();
    lemma_small_integer(o);
    let num = (o * unit) * unit;
    let den = 127 * unit;
    assert(num >= 0) by (nonlinear_arith)
        requires
            num == (o * unit) * unit,
            o >= 0,
            unit > 0,
    ;
    nearest_exists(num, den);
    let q = nearest(num, den);
    assert(num <= unit * den) by (nonlinear_arith)
        requires
            num == (o * unit) * unit,
            den == 127 * unit,
            o <= 127,
            unit > 0,
    ;
    lemma_nearest_not_above(num, den, ONE_BITS as int, q);
    let at = unit_of(128 + o);
    assert(at == with_sign(q, false));
    let r = scaled_magnitude(q);
    lemma_quotient_error(o, q);
    let product = r * (32767 * unit);
    if 0 < q {
        lemma_scaled_magnitude_increases(0, q);
    }
    if q < ONE_BITS {
        lemma_scaled_magnitude_increases(q, ONE_BITS as int);
    }
    assert(0 <= product <= (32767 * unit) * unit) by (nonlinear_arith)
        requires
            product == r * (32767 * unit),
            0 <= r <= unit,
            unit > 0,
    ;
    nearest_exists(product, unit);
    let p = nearest(product, unit);
    lemma_nearest_not_above(product, unit, UPPER_RANGE_BITS as int, p);
    let t = scaled_magnitude(p);
    lemma_product_error(r, p);
    assert(at.clamped(Single { bits: MINUS_ONE_BITS }, one()) == at);
    assert(at.product(Single { bits: UPPER_RANGE_BITS }) == with_sign(p, false));
    vstd::arithmetic::power2::lemma_pow2_unfold(150);
    lemma_pow2_adds(9, 140);
    lemma_pow2_adds(10, 139);
    lemma_pow2_adds(25, 124);
    vstd::arithmetic::power2::lemma2_to64();
    let (g, h) = (pow2(124) as int, pow2(139) as int);
    // 127 t differs from 32767 o by less than a 512th of 127.
    let delta = 254 * t - 2 * (32767 * (o * unit));
    assert(-unit < delta < unit) by {
        assert(254 * t - 254 * (32767 * r) <= 254 * h);
        assert(254 * t - 254 * (32767 * r) >= -254 * h);
    }
    let k = 2 * (o * 32767) + 127;
    let i = k / 254;
    let rho = k % 254;
    assert(rho % 2 == 1);
    let x = 2 * t + unit;
    assert(127 * x == k * unit + delta) by (nonlinear_arith)
        requires
            x == 2 * t + unit,
            k == 2 * (o * 32767) + 127,
            delta == 254 * t - 2 * (32767 * (o * unit)),
    ;
    assert(k * unit == (254 * i) * unit + rho * unit) by (nonlinear_arith)
        requires
            k == 254 * i + rho,
    ;
    let left = x - i * (2 * unit);
    assert(127 * left == rho * unit + delta) by (nonlinear_arith)
        requires
            127 * x == (254 * i) * unit + rho * unit + delta,
            left == x - i * (2 * unit),
    ;
    assert(unit <= rho * unit <= 253 * unit) by (nonlinear_arith)
        requires
            1 <= rho <= 253,
            unit > 0,
    ;
    vstd::arithmetic::div_mod::lemma_fundamental_div_mod_converse(x, 2 * unit, i, left);
}

/// How far the quotient of `o` and 127 lies from its exact value.
proof fn lemma_quotient_error(o: int, q: int)
    requires
        0 <= o <= 127,
        is_nearest(q, (o * pow2(149)) * pow2(149), (127 * pow2(149)) as int),
        q <= ONE_BITS,
    ensures
        -127 * pow2(124) <= 127 * scaled_magnitude(q) - o * pow2(149) <= 127 * pow2(124),
{
    let unit = pow2(149) as int;
    let num = (o * unit) * unit;
    let den = 127 * unit;
    lemma_constants();
    lemma_pow2_pos(124);
    lemma_pow2_adds(25, 124);
    vstd::arithmetic::power2::lemma2_to64();
    vstd::arithmetic::power2::lemma_pow2_unfold(125);
    let r = scaled_magnitude(q);
    if o == 127 {
        assert(num == unit * den) by (nonlinear_arith)
            requires
                num == (o * unit) * unit,
                den == 127 * unit,
                o == 127,
        ;
        numbers_are_kept(ONE_BITS as int, den);
        nearest_is_unique(q, q, num, den);
    } else {
        if q > 0 {
            let below = scaled_magnitude(q - 1) + r;
            assert(below * 127 <= 2 * (o * unit)) by (nonlinear_arith)
                requires
                    below * den <= 2 * num,
                    num == (o * unit) * unit,
                    den == 127 * unit,
                    unit > 0,
            ;
            lemma_gap(q - 1, 126);
        }
        assert(q != ONE_BITS) by {
            assert(o * unit <= 126 * unit) by (nonlinear_arith)
                requires
                    o <= 126,
                    unit > 0,
            ;
        }
        let above = r + scaled_magnitude(q + 1);
        assert(2 * (o * unit) <= above * 127) by (nonlinear_arith)
            requires
                2 * num <= above * den,
                num == (o * unit) * unit,
                den == 127 * unit,
                unit > 0,
        ;
        lemma_gap(q, 126);
        if q == 0 {
            assert(o * unit >= 0) by (nonlinear_arith)
                requires
                    o >= 0,
                    unit > 0,
            ;
        }
    }
}

/// How far the product of `r` and 32767 lies from its exact value.
proof fn lemma_product_error(r: int, p: int)
    requires
        0 <= r,
        is_nearest(p, r * (32767 * pow2(149)), pow2(149) as int),
        p <= UPPER_RANGE_BITS,
    ensures
        -pow2(139) <= scaled_magnitude(p) - 32767 * r <= pow2(139),
{
    let unit = pow2(149) as int;
    let num = r * (32767 * unit);
    let t = scaled_magnitude(p);
    lemma_constants();
    lemma_pow2_pos(139);
    vstd::arithmetic::power2::lemma_pow2_unfold(140);
    if p > 0 {
        let below = scaled_magnitude(p - 1) + t;
        assert(below <= 2 * (32767 * r)) by (nonlinear_arith)
            requires
                below * unit <= 2 * num,
                num == r * (32767 * unit),
                unit > 0,
        ;
        lemma_gap(p - 1, 141);
    }
    let above = t + scaled_magnitude(p + 1);
    assert(2 * (32767 * r) <= above) by (nonlinear_arith)
        requires
            2 * num <= above * unit,
            num == r * (32767 * unit),
            unit > 0,
    ;
    lemma_gap(p, 141);
}

/// An unshaped axis is shown in proportion: no rounding on the way there makes a difference.
pub proof fn unshaped_axes_are_proportional(value: int)
    ensures
        shown_at(unit_of(value)) == proportional(value),
{
    let inside = bounded(value, 0, 255);
    assert(unit_of(inside) == unit_of(value));
    if inside >= 128 {
        lemma_upper_half(inside - 128);
    } else {
        lemma_lower_half(128 - inside);
    }
}

/// An unshaped axis rests at zero, reaches both ends of its range, and moves the way it is moved.
pub proof fn unshaped_axes_keep_the_motion(a: int, b: int)
    ensures
        shown_at(unit_of(128)) == 0,
        shown_at(unit_of(0)) == -32768,
        shown_at(unit_of(255)) == 32767,
        a <= b ==> shown_at(unit_of(a)) <= shown_at(unit_of(b)),
        0 <= a < b <= 255 ==> shown_at(unit_of(a)) < shown_at(unit_of(b)),
{
    unshaped_axes_are_proportional(128);
    unshaped_axes_are_proportional(0);
    unshaped_axes_are_proportional(255);
    unshaped_axes_are_proportional(a);
    unshaped_axes_are_proportional(b);
}

/// An axis at zero is shown at zero.
pub proof fn lemma_zero_shown(x: Single)
    requires
        x.is_zero(),
    ensures
        shown_at(x) == 0,
{
    reveal(shown_at);
    reveal(Single::product);
    let unit = pow2(149) as int;
    lemma_constants();
    lemma_nothing(unit);
    let inside = x.clamped(Single { bits: MINUS_ONE_BITS }, one());
    assert(inside == x);
    let scale = Single { bits: UPPER_RANGE_BITS };
    assert(0 * scale.size() == 0) by (nonlinear_arith);
    let p = x.product(scale);
    assert(p.magnitude() == 0);
    lemma_whole(0);
}

/// An axis is shown on the side of the centre on which it stands.
pub proof fn lemma_shown_side(x: Single)
    ensures
        !x.is_negative() ==> shown_at(x) >= 0,
        x.is_negative() ==> shown_at(x) <= 0,
{
    reveal(shown_at);
    reveal(Single::product);
    let inside = x.clamped(Single { bits: MINUS_ONE_BITS }, one());
    if x.is_zero() {
        lemma_zero_shown(x);
    } else if !x.is_nan() {
        lemma_shown_in_range(x);
        lemma_product_not_above(inside, Single { bits: UPPER_RANGE_BITS });
        lemma_product_not_above(inside, Single { bits: LOWER_RANGE_BITS });
        lemma_whole(inside.product(Single { bits: UPPER_RANGE_BITS }).magnitude());
        lemma_whole(inside.product(Single { bits: LOWER_RANGE_BITS }).magnitude());
    }
}

/// A position from zero to one, on the side of `x`, is shown on that side.
proof fn lemma_side_kept(shaped: Single, x: Single)
    ensures
        ({
            let kept = shaped.clamped(zero(), one());
            let one_way = x.direction().product(kept);
            let other_way = kept.product(x.direction());
            &&& !x.is_negative() ==> shown_at(one_way) >= 0 && shown_at(other_way) >= 0
            &&& x.is_negative() ==> shown_at(one_way) <= 0 && shown_at(other_way) <= 0
        }),
{
    reveal(shown_at);
    reveal(Single::product);
    let kept = shaped.clamped(zero(), one());
    let one_way = x.direction().product(kept);
    let other_way = kept.product(x.direction());
    if x.is_nan() || kept.is_nan() {
        assert(shown_at(nan()) == 0);
    } else {
        lemma_product_not_above(x.direction(), kept);
        lemma_product_not_above(kept, x.direction());
        if kept.is_zero() {
            lemma_zero_shown(one_way);
            let unit = pow2(149) as int;
            lemma_constants();
            lemma_nothing(unit);
            assert(0 * x.direction().size() == 0) by (nonlinear_arith);
            lemma_zero_shown(other_way);
        } else {
            lemma_shown_side(one_way);
            lemma_shown_side(other_way);
        }
    }
}

/// Taking out a dead zone keeps every axis on its side of the centre.
pub proof fn shaping_keeps_the_side(
    x: Single,
    y: Single,
    deadzone: Single,
    anti_deadzone: Single,
)
    ensures
        ({
            let axial = shown_at(axis_shaped(x, deadzone, anti_deadzone));
            let (radial_x, radial_y) = radially_shaped(x, y, deadzone, anti_deadzone);
            &&& !x.is_negative() ==> axial >= 0 && shown_at(radial_x) >= 0
            &&& x.is_negative() ==> axial <= 0 && shown_at(radial_x) <= 0
            &&& !y.is_negative() ==> shown_at(radial_y) >= 0
            &&& y.is_negative() ==> shown_at(radial_y) <= 0
        }),
{
    let radius = x.distance(y);
    lemma_zero_shown(zero());
    lemma_axial_side_kept(x, deadzone, anti_deadzone);
    let abs_x = x.unsigned().smaller(one());
    let abs_y = y.unsigned().smaller(one());
    lemma_radial_side_kept(abs_x, abs_x.quotient(radius), deadzone, anti_deadzone, x);
    lemma_radial_side_kept(abs_y, abs_y.quotient(radius), deadzone, anti_deadzone, y);
}

proof fn lemma_axial_side_kept(x: Single, deadzone: Single, anti_deadzone: Single)
    ensures
        !x.is_negative() ==> shown_at(axis_shaped(x, deadzone, anti_deadzone)) >= 0,
        x.is_negative() ==> shown_at(axis_shaped(x, deadzone, anti_deadzone)) <= 0,
{
    lemma_zero_shown(zero());
    let magnitude = x.unsigned();
    let scaled = magnitude.difference(deadzone).quotient(one().difference(deadzone));
    lemma_side_kept(anti_deadzone.sum(scaled.product(one().difference(anti_deadzone))), x);
}

proof fn lemma_radial_side_kept(
    magnitude: Single,
    angle_ratio: Single,
    deadzone: Single,
    anti_deadzone: Single,
    x: Single,
)
    ensures
        ({
            let shown = shown_at(
                radial_axis_shaped(magnitude, angle_ratio, deadzone, anti_deadzone).product(
                    x.direction(),
                ),
            );
            &&& !x.is_negative() ==> shown >= 0
            &&& x.is_negative() ==> shown <= 0
        }),
{
    assert(zero().clamped(zero(), one()) == zero());
    lemma_side_kept(zero(), x);
    let axis_deadzone = angle_ratio.product(deadzone);
    let usable_range = one().difference(axis_deadzone).larger(epsilon());
    let scaled = magnitude.difference(axis_deadzone).quotient(usable_range).clamped(zero(), one());
    let axis_anti_deadzone = angle_ratio.product(anti_deadzone).clamped(zero(), one());
    lemma_side_kept(
        one().difference(axis_anti_deadzone).product(scaled).sum(axis_anti_deadzone),
        x,
    );
}

/// A product is negative if one of its factors is.
proof fn lemma_product_side(a: Single, b: Single)
    ensures
        a.product(b).is_nan() || a.product(b).is_negative() == (a.is_negative() != b.is_negative()),
{
    reveal(Single::product);
    lemma_constants();
    if 0 < a.magnitude() {
        lemma_scaled_magnitude_increases(0, a.magnitude());
    }
    if 0 < b.magnitude() {
        lemma_scaled_magnitude_increases(0, b.magnitude());
    }
    let (x, y) = (a.size(), b.size());
    assert(x * y >= 0) by (nonlinear_arith)
        requires
            x >= 0,
            y >= 0,
    ;
    nearest_exists(x * y, pow2(149) as int);
}

/// A quotient is negative if one of dividend and divisor is.
proof fn lemma_quotient_side(a: Single, b: Single)
    ensures
        a.quotient(b).is_nan() || a.quotient(b).is_negative() == (a.is_negative()
            != b.is_negative()),
{
    reveal(Single::quotient);
    lemma_constants();
    let unit = pow2(149) as int;
    if 0 < a.magnitude() {
        lemma_scaled_magnitude_increases(0, a.magnitude());
    }
    let x = a.size();
    assert(x * unit >= 0) by (nonlinear_arith)
        requires
            x >= 0,
            unit > 0,
    ;
    if 0 < b.magnitude() {
        lemma_scaled_magnitude_increases(0, b.magnitude());
        nearest_exists(x * unit, b.size());
    }
}

/// Stretching the circle to a square keeps every axis on its side of the centre.
pub proof fn squares_keep_the_side(x: Single, y: Single)
    ensures
        ({
            let (square_x, square_y) = squared(x, y);
            &&& !x.is_negative() ==> shown_at(square_x) >= 0
            &&& x.is_negative() ==> shown_at(square_x) <= 0
            &&& !y.is_negative() ==> shown_at(square_y) >= 0
            &&& y.is_negative() ==> shown_at(square_y) <= 0
        }),
{
    let radius = x.distance(y);
    distances_are_not_negative(x, y);
    lemma_zero_shown(zero());
    let ux = x.quotient(radius);
    let uy = y.quotient(radius);
    let boundary = one().quotient(ux.unsigned().larger(uy.unsigned()).larger(epsilon()));
    lemma_quotient_side(one(), ux.unsigned().larger(uy.unsigned()).larger(epsilon()));
    lemma_stretched_side(x, radius, boundary);
    lemma_stretched_side(y, radius, boundary);
}

proof fn lemma_stretched_side(x: Single, radius: Single, boundary: Single)
    requires
        !radius.is_negative(),
        boundary.is_nan() || !boundary.is_negative(),
    ensures
        ({
            let shown = shown_at(x.quotient(radius).product(radius).product(boundary));
            &&& !x.is_negative() ==> shown >= 0
            &&& x.is_negative() ==> shown <= 0
        }),
{
    let u = x.quotient(radius);
    let v = u.product(radius);
    let w = v.product(boundary);
    lemma_quotient_side(x, radius);
    lemma_product_side(u, radius);
    lemma_product_side(v, boundary);
    if u.is_nan() || v.is_nan() || w.is_nan() || boundary.is_nan() {
        assert(w.is_nan()) by {
            reveal(Single::product);
        }
        lemma_nan_shown(w);
    } else {
        lemma_shown_side(w);
    }
}

/// What is no number is shown at rest.
proof fn lemma_nan_shown(x: Single)
    requires
        x.is_nan(),
    ensures
        shown_at(x) == 0,
{
    reveal(shown_at);
    reveal(Single::product);
}

/// Where the virtual controller shows a stick at rest.
pub open spec fn rest() -> Stick2<i32> {
    Stick2 { x: 0i32, y: 0i32 }
}

/// A position with both coordinates in the centre, or both no numbers, is shown at rest, on the
/// square too.
proof fn lemma_rests(x: Single, y: Single)
    requires
        (x == zero() && y == zero()) || (x.is_nan() && y.is_nan()),
    ensures
        finished(x, y) == rest(),
        finished(squared(x, y).0, squared(x, y).1) == rest(),
{
    lemma_zero_shown(zero());
    lemma_rest_shown(x);
    lemma_rest_shown(y);
    if x.is_nan() {
        let (u, v) = squared(x, y);
        assert(u.is_nan() && v.is_nan()) by {
            reveal(Single::distance);
            reveal(Single::quotient);
            reveal(Single::product);
        }
        lemma_nan_shown(u);
        lemma_nan_shown(v);
    } else {
        distances_along_an_axis_are_exact(zero(), zero());
    }
}

proof fn lemma_rest_shown(x: Single)
    requires
        x.is_zero() || x.is_nan(),
    ensures
        shown_at(x) == 0,
{
    if x.is_nan() {
        lemma_nan_shown(x);
    } else {
        lemma_zero_shown(x);
    }
}

/// A stick within a circular dead zone is shown at rest.
pub proof fn dead_zone_holds_the_stick(raw: Stick2<i32>, stick: StickProfile)
    requires
        stick.deadzone_shape == DeadzoneShape::Radial,
        unit_of(raw.x as int).distance(unit_of(raw.y as int)).not_above(stick.deadzone),
    ensures
        shaped(raw, stick, true) == rest(),
{
    lemma_rests(zero(), zero());
}

/// An axis within the dead zone, where each axis has its own, is at rest.
pub proof fn dead_zone_holds_the_axis(value: Single, deadzone: Single, anti_deadzone: Single)
    requires
        value.unsigned().not_above(deadzone),
    ensures
        axis_shaped(value, deadzone, anti_deadzone) == zero(),
        shown_at(axis_shaped(value, deadzone, anti_deadzone)) == 0,
{
    lemma_zero_shown(zero());
}

/// A stick in its centre is shown at rest, whatever its zones are. Where each axis has its own dead
/// zone, that must not lie below zero, unless beyond every number.
pub proof fn centred_sticks_rest(stick: StickProfile, enabled: bool)
    requires
        enabled && stick.deadzone_shape == DeadzoneShape::Axial ==> !stick.deadzone.below(zero())
            || stick.deadzone.is_infinite(),
    ensures
        shaped(Stick2 { x: 128i32, y: 128i32 }, stick, enabled) == rest(),
{
    lemma_centre();
    distances_along_an_axis_are_exact(zero(), zero());
    lemma_rests(zero(), zero());
    let centre = axis_shaped(zero(), stick.deadzone, stick.anti_deadzone);
    if enabled && stick.deadzone_shape == DeadzoneShape::Axial {
        lemma_centred_axis(stick.deadzone, stick.anti_deadzone);
        lemma_rests(centre, centre);
    }
}

/// The centre of a raw axis is zero.
pub proof fn lemma_centre()
    ensures
        unit_of(128) == zero(),
{
    lemma_constants();
    lemma_small_integer(0);
    let half = Single { bits: UPPER_HALF_BITS };
    lemma_nothing(half.size());
    assert(0 * pow2(149) == 0);
    lemma_nothing(1);
    assert(integer(0) == zero());
    assert(unit_of(128) == zero()) by {
        reveal(Single::quotient);
    }
}

proof fn lemma_centred_axis(deadzone: Single, anti_deadzone: Single)
    requires
        !deadzone.below(zero()) || deadzone.is_infinite(),
    ensures
        axis_shaped(zero(), deadzone, anti_deadzone) == zero() || axis_shaped(
            zero(),
            deadzone,
            anti_deadzone,
        ).is_nan(),
{
    let magnitude = zero().unsigned();
    assert(magnitude == zero());
    if !magnitude.not_above(deadzone) {
        let scaled = magnitude.difference(deadzone).quotient(one().difference(deadzone));
        assert(scaled.is_nan()) by {
            reveal(Single::sum);
            reveal(Single::quotient);
        }
        let rest = scaled.product(one().difference(anti_deadzone));
        assert(rest.is_nan()) by {
            reveal(Single::product);
        }
        let sum = anti_deadzone.sum(rest);
        assert(sum.is_nan()) by {
            reveal(Single::sum);
        }
        assert(zero().direction().product(sum.clamped(zero(), one())).is_nan()) by {
            reveal(Single::product);
        }
    }
}

/// The square comes behind the dead zone and apart from it: the dead zone is taken out in the same
/// way with it and without it, and what is stretched is what the dead zone leaves.
pub proof fn squares_come_behind_dead_zones(raw: Stick2<i32>, stick: StickProfile)
    ensures
        ({
            let plain = StickProfile { square: false, ..stick };
            let square = StickProfile { square: true, ..stick };
            let (x, y) = behind_deadzone(raw, stick);
            &&& shaped(raw, plain, true) == finished(x, y)
            &&& shaped(raw, square, true) == finished(squared(x, y).0, squared(x, y).1)
        }),
{
}

/// Every stick is shown within its range.
pub proof fn sticks_are_shown_within_the_range(
    raw: Stick2<i32>,
    stick: StickProfile,
    enabled: bool,
)
    ensures
        -32768 <= shaped(raw, stick, enabled).x <= 32767,
        -32768 <= shaped(raw, stick, enabled).y <= 32767,
{
    let (x, y) = behind_deadzone(raw, stick);
    lemma_finished_in_range(x, y);
    lemma_finished_in_range(squared(x, y).0, squared(x, y).1);
    lemma_finished_in_range(unit_of(raw.x as int), unit_of(raw.y as int));
}

proof fn lemma_finished_in_range(x: Single, y: Single)
    ensures
        -32768 <= finished(x, y).x <= 32767,
        -32768 <= finished(x, y).y <= 32767,
{
    shown_within_the_range(x);
    shown_within_the_range(y);
}

/// The difference of two numbers that are not negative, the first of which is not below the second.
pub proof fn lemma_difference(a: Single, b: Single)
    requires
        a.magnitude() <= ONE_BITS,
        !a.is_negative(),
        !b.is_nan(),
        0 <= b.rank() <= a.rank(),
    ensures
        a.difference(b) == with_sign(nearest(a.size() - b.size(), 1), false),
        a.difference(b).magnitude() == nearest(a.size() - b.size(), 1),
        nearest(a.size() - b.size(), 1) <= a.magnitude(),
        0 <= b.size() <= a.size(),
        b.rank() < a.rank() ==> nearest(a.size() - b.size(), 1) > 0,
{
    reveal(Single::sum);
    lemma_constants();
    let n = a.size() - b.size();
    if 0 < b.magnitude() {
        lemma_scaled_magnitude_increases(0, b.magnitude());
    }
    if b.magnitude() < a.magnitude() {
        lemma_scaled_magnitude_increases(b.magnitude(), a.magnitude());
    }
    nearest_exists(n, 1);
    lemma_nothing(1);
    lemma_nearest_not_above(n, 1, a.magnitude(), nearest(n, 1));
    if b.rank() < a.rank() {
        assert(scaled_magnitude(1) == 1);
        lemma_nearest_not_below(n, 1, 1, nearest(n, 1));
    }
}

/// Where each axis has its own dead zone, motion starts at the output that is set for it: outside
/// the dead zone, no axis is shown nearer to the centre than that.
pub proof fn motion_starts_behind_the_anti_deadzone(
    value: Single,
    deadzone: Single,
    anti_deadzone: Single,
)
    requires
        value.magnitude() <= ONE_BITS,
        !deadzone.is_nan() && 0 <= deadzone.rank() <= LARGEST_DEADZONE_BITS,
        !anti_deadzone.is_nan() && 0 <= anti_deadzone.rank() <= ONE_BITS,
        !value.unsigned().not_above(deadzone),
    ensures
        anti_deadzone.magnitude() <= axis_shaped(value, deadzone, anti_deadzone).magnitude()
            <= ONE_BITS,
        axis_shaped(value, deadzone, anti_deadzone).is_negative() == value.is_negative(),
{
    let unit = pow2(149) as int;
    lemma_constants();
    let magnitude = value.unsigned();
    let moved = magnitude.difference(deadzone);
    let range = one().difference(deadzone);
    lemma_difference(magnitude, deadzone);
    lemma_difference(one(), deadzone);
    if magnitude.magnitude() < ONE_BITS {
        lemma_scaled_magnitude_increases(magnitude.magnitude(), ONE_BITS as int);
    }
    rounding_keeps_the_order(
        magnitude.size() - deadzone.size(),
        one().size() - deadzone.size(),
        1,
    );
    let scaled = moved.quotient(range);
    lemma_ratio(moved, range);
    let rest = one().difference(anti_deadzone);
    lemma_difference(one(), anti_deadzone);
    let more = scaled.product(rest);
    lemma_product_not_above(scaled, rest);
    let sum = anti_deadzone.sum(more);
    assert(!sum.is_nan() && !sum.is_negative() && anti_deadzone.magnitude() <= sum.magnitude()) by {
        reveal(Single::sum);
        let n = anti_deadzone.size() + more.size();
        if 0 < more.magnitude() {
            lemma_scaled_magnitude_increases(0, more.magnitude());
        }
        if 0 < anti_deadzone.magnitude() {
            lemma_scaled_magnitude_increases(0, anti_deadzone.magnitude());
        }
        assert(scaled_magnitude(0) == 0);
        nearest_exists(n, 1);
        lemma_nearest_not_below(n, 1, anti_deadzone.magnitude(), nearest(n, 1));
    }
    let kept = sum.clamped(zero(), one());
    let way = value.direction();
    lemma_product_not_above(way, kept);
    assert(way.product(kept).magnitude() == kept.magnitude()) by {
        reveal(Single::product);
        numbers_are_kept(kept.magnitude(), unit);
        assert(way.size() == unit);
        assert(unit * kept.size() == kept.size() * unit) by (nonlinear_arith);
    }
}

/// The quotient of two numbers that are not negative, the first of which is not above the second.
pub proof fn lemma_ratio(a: Single, b: Single)
    requires
        !a.is_negative() && !b.is_negative(),
        0 <= a.magnitude() <= b.magnitude() <= ONE_BITS,
        b.magnitude() > 0,
    ensures
        !a.quotient(b).is_negative(),
        a.quotient(b).magnitude() <= ONE_BITS,
{
    reveal(Single::quotient);
    let unit = pow2(149) as int;
    lemma_constants();
    lemma_scaled_magnitude_increases(0, b.magnitude());
    if a.magnitude() < b.magnitude() {
        lemma_scaled_magnitude_increases(a.magnitude(), b.magnitude());
    }
    if 0 < a.magnitude() {
        lemma_scaled_magnitude_increases(0, a.magnitude());
    }
    let (num, den, size) = (a.size() * unit, b.size(), a.size());
    assert(0 <= size * unit <= unit * den) by (nonlinear_arith)
        requires
            0 <= size <= den,
            unit > 0,
    ;
    nearest_exists(num, den);
    lemma_nearest_not_above(num, den, ONE_BITS as int, nearest(num, den));
}

/// The default zones and the largest dead zone are the numbers next to 0.08 and 0.99.
pub proof fn zones_are_next_to_their_decimals()
    ensures
        nearest((8 * pow2(149)) as int, 100) == DEFAULT_DEADZONE_BITS,
        nearest((99 * pow2(149)) as int, 100) == LARGEST_DEADZONE_BITS,
{
    vstd::arithmetic::power2::lemma2_to64();
    lemma_pow2_pos(122);
    lemma_pow2_pos(125);
    lemma_pow2_adds(27, 122);
    lemma_pow2_adds(24, 125);
    let (a, b) = (DEFAULT_DEADZONE_BITS as int, LARGEST_DEADZONE_BITS as int);
    lemma_place(0xa3_d709, 122);
    lemma_place(0xa3_d70a, 122);
    lemma_place(0xfd_70a3, 125);
    lemma_place(0xfd_70a4, 125);
    nearest_is_unique(a, a, (8 * pow2(149)) as int, 100);
    nearest_is_unique(b, b, (99 * pow2(149)) as int, 100);
}

} // verus!
