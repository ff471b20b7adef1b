//! Shaping a stick: dead zones, and the square that a circle is stretched to.
use vstd::arithmetic::power2::{lemma_pow2_adds, lemma_pow2_pos, pow2};
use vstd::prelude::*;

#[allow(unused_imports)]
use crate::arithmetic::{epsilon, integer, lemma_whole, one, whole, zero};
use crate::arithmetic::{EPSILON_BITS, MINUS_ONE_BITS};
use crate::profile::{DeadzoneShape, Profile, StickProfile};
#[allow(unused_imports)]
use crate::rounding::{lemma_nearest_not_above, nearest, nearest_exists, INFINITY_BITS};
use crate::single::{Single, ONE_BITS};
#[allow(unused_imports)]
use crate::single::{lemma_scaled_magnitude_increases, scaled_magnitude};
use crate::stick::{clamp, Stick2};
#[allow(unused_imports)]
use crate::stick::bounded;

verus! {

/// The bits of 127.
pub const UPPER_HALF_BITS: u32 = 0x42fe_0000;

/// The bits of 128.
pub const LOWER_HALF_BITS: u32 = 0x4300_0000;

/// The bits of 32767.
pub const UPPER_RANGE_BITS: u32 = 0x46ff_fe00;

/// The bits of 32768.
pub const LOWER_RANGE_BITS: u32 = 0x4700_0000;

/// Where a raw axis stands, as a number from minus one to one: the range from 0 to 255 has its
/// centre at 128.
pub open spec fn unit_of(value: int) -> Single {
    let offset = bounded(value, 0, 255) - 128;
    if offset >= 0 {
        integer(offset).quotient(Single { bits: UPPER_HALF_BITS }).clamped(zero(), one())
    } else {
        integer(offset).quotient(Single { bits: LOWER_HALF_BITS }).clamped(
            Single { bits: MINUS_ONE_BITS },
            zero(),
        )
    }
}

/// Where a raw axis stands, as a number from minus one to one.
pub fn raw_255_to_unit(value: i32) -> (r: Single)
    ensures
        r == unit_of(value as int),
{
    let offset: i32 = clamp(value, 0, 255) - 128;
    if offset >= 0 {
        Single::from_integer(offset as i64).over(Single::from_bits(UPPER_HALF_BITS)).clamp(
            Single::from_bits(0),
            Single::from_bits(ONE_BITS),
        )
    } else {
        Single::from_integer(offset as i64).over(Single::from_bits(LOWER_HALF_BITS)).clamp(
            Single::from_bits(MINUS_ONE_BITS),
            Single::from_bits(0),
        )
    }
}

/// Where the virtual controller shows an axis that stands at `value`: the range from minus one to
/// one becomes the range from -32768 to 32767.
#[verifier::opaque]
pub open spec fn shown_at(value: Single) -> int {
    let inside = value.clamped(Single { bits: MINUS_ONE_BITS }, one());
    if zero().not_above(inside) {
        whole(inside.product(Single { bits: UPPER_RANGE_BITS }))
    } else {
        whole(inside.product(Single { bits: LOWER_RANGE_BITS }))
    }
}

/// Where the virtual controller shows an axis that stands at `value`.
pub fn unit_to_i16(value: Single) -> (r: i32)
    ensures
        r == shown_at(value),
        -32768 <= r <= 32767,
{
    let inside = value.clamp(Single::from_bits(MINUS_ONE_BITS), Single::from_bits(ONE_BITS));
    proof {
        reveal(shown_at);
        lemma_shown_in_range(value);
    }
    if Single::from_bits(0).is_at_most(inside) {
        inside.times(Single::from_bits(UPPER_RANGE_BITS)).to_integer()
    } else {
        inside.times(Single::from_bits(LOWER_RANGE_BITS)).to_integer()
    }
}

/// What the constants stand for, in units of 2^-149.
pub proof fn lemma_constants()
    ensures
        scaled_magnitude(ONE_BITS as int) == pow2(149),
        scaled_magnitude(UPPER_RANGE_BITS as int) == 32767 * pow2(149),
        scaled_magnitude(LOWER_RANGE_BITS as int) == 32768 * pow2(149),
        scaled_magnitude(UPPER_HALF_BITS as int) == 127 * pow2(149),
        scaled_magnitude(LOWER_HALF_BITS as int) == 128 * pow2(149),
        pow2(149) > 0,
{
    vstd::arithmetic::power2::lemma2_to64();
    lemma_pow2_pos(149);
    lemma_pow2_adds(23, 126);
    lemma_pow2_adds(9, 140);
    lemma_pow2_adds(8, 141);
    lemma_pow2_adds(17, 132);
    lemma_pow2_adds(16, 133);
    assert(ONE_BITS as int / 0x80_0000 == 127);
    assert(UPPER_RANGE_BITS as int / 0x80_0000 == 141);
    assert(UPPER_RANGE_BITS as int % 0x80_0000 == 0x7f_fe00);
    assert(LOWER_RANGE_BITS as int / 0x80_0000 == 142);
    assert(LOWER_RANGE_BITS as int % 0x80_0000 == 0);
    assert(UPPER_HALF_BITS as int / 0x80_0000 == 133);
    assert(UPPER_HALF_BITS as int % 0x80_0000 == 0x7e_0000);
    assert(LOWER_HALF_BITS as int / 0x80_0000 == 134);
    assert(LOWER_HALF_BITS as int % 0x80_0000 == 0);
}

/// A number between minus one and one, times a number, is not above that number.
pub proof fn lemma_product_not_above(x: Single, scale: Single)
    requires
        x.magnitude() <= ONE_BITS,
        scale.magnitude() < INFINITY_BITS,
    ensures
        !x.product(scale).is_nan(),
        x.product(scale).magnitude() <= scale.magnitude(),
        x.product(scale).is_negative() == (x.is_negative() != scale.is_negative()),
{
    reveal(Single::product);
    lemma_constants();
    let (n, one_size, size) = (x.size() * scale.size(), pow2(149) as int, x.size());
    if x.magnitude() < ONE_BITS {
        lemma_scaled_magnitude_increases(x.magnitude(), ONE_BITS as int);
    }
    if 0 < x.magnitude() {
        lemma_scaled_magnitude_increases(0, x.magnitude());
    }
    if 0 < scale.magnitude() {
        lemma_scaled_magnitude_increases(0, scale.magnitude());
    }
    let top = scale.size();
    assert(0 <= size * top <= top * one_size) by (nonlinear_arith)
        requires
            0 <= size <= one_size,
            0 <= top,
    ;
    nearest_exists(n, one_size);
    lemma_nearest_not_above(n, one_size, scale.magnitude(), nearest(n, one_size));
}

/// The virtual controller shows every axis within its range.
pub proof fn shown_within_the_range(value: Single)
    ensures
        -32768 <= shown_at(value) <= 32767,
{
    lemma_shown_in_range(value);
}

pub proof fn lemma_shown_in_range(value: Single)
    ensures
        -32768 <= shown_at(value) <= 32767,
        ({
            let inside = value.clamped(Single { bits: MINUS_ONE_BITS }, one());
            let upper = inside.product(Single { bits: UPPER_RANGE_BITS });
            let lower = inside.product(Single { bits: LOWER_RANGE_BITS });
            &&& upper.is_nan() || upper.magnitude() <= LOWER_RANGE_BITS
            &&& lower.is_nan() || lower.magnitude() <= LOWER_RANGE_BITS
        }),
{
    reveal(shown_at);
    reveal(Single::product);
    let inside = value.clamped(Single { bits: MINUS_ONE_BITS }, one());
    let upper = inside.product(Single { bits: UPPER_RANGE_BITS });
    let lower = inside.product(Single { bits: LOWER_RANGE_BITS });
    if !inside.is_nan() {
        lemma_product_not_above(inside, Single { bits: UPPER_RANGE_BITS });
        lemma_product_not_above(inside, Single { bits: LOWER_RANGE_BITS });
        lemma_constants();
        vstd::arithmetic::power2::lemma_pow2_unfold(150);
        lemma_whole(upper.magnitude());
        lemma_whole(lower.magnitude());
        if upper.magnitude() < UPPER_RANGE_BITS {
            lemma_scaled_magnitude_increases(upper.magnitude(), UPPER_RANGE_BITS as int);
        }
        let (n, size) = (pow2(149) as int, upper.size());
        let (x, d) = (2 * size + n, 2 * n);
        assert(x / d <= 32767) by (nonlinear_arith)
            requires
                x <= 65535 * n,
                d == 2 * n,
                n > 0,
        ;
    }
}

/// An axis with the dead zone taken out: nothing up to the dead zone; from there on it rises, in
/// proportion, from `anti_deadzone` to one.
pub open spec fn axis_shaped(value: Single, deadzone: Single, anti_deadzone: Single) -> Single {
    let magnitude = value.unsigned();
    if magnitude.not_above(deadzone) {
        zero()
    } else {
        let scaled = magnitude.difference(deadzone).quotient(one().difference(deadzone));
        value.direction().product(
            anti_deadzone.sum(scaled.product(one().difference(anti_deadzone))).clamped(
                zero(),
                one(),
            ),
        )
    }
}

/// An axis with the dead zone taken out.
pub fn apply_axis_deadzone(value: Single, deadzone: Single, anti_deadzone: Single) -> (r: Single)
    ensures
        r == axis_shaped(value, deadzone, anti_deadzone),
{
    let sign = value.signum();
    let magnitude = value.abs();
    if magnitude.is_at_most(deadzone) {
        return Single::from_bits(0);
    }
    let one = Single::from_bits(ONE_BITS);
    let scaled = magnitude.minus(deadzone).over(one.minus(deadzone));
    sign.times(
        anti_deadzone.plus(scaled.times(one.minus(anti_deadzone))).clamp(Single::from_bits(0), one),
    )
}

/// One axis of a position outside a circular dead zone, without its sign. `angle_ratio` is the part
/// of the distance from the centre that lies along the axis; the axis has that part of the zones.
pub open spec fn radial_axis_shaped(
    magnitude: Single,
    angle_ratio: Single,
    deadzone: Single,
    anti_deadzone: Single,
) -> Single {
    if magnitude.not_above(epsilon()) || angle_ratio.not_above(epsilon()) {
        zero()
    } else {
        let axis_deadzone = angle_ratio.product(deadzone);
        let usable_range = one().difference(axis_deadzone).larger(epsilon());
        let scaled = magnitude.difference(axis_deadzone).quotient(usable_range).clamped(
            zero(),
            one(),
        );
        let axis_anti_deadzone = angle_ratio.product(anti_deadzone).clamped(zero(), one());
        one().difference(axis_anti_deadzone).product(scaled).sum(axis_anti_deadzone).clamped(
            zero(),
            one(),
        )
    }
}

/// One axis of a position outside a circular dead zone, without its sign.
pub fn apply_radial_axis(
    magnitude: Single,
    angle_ratio: Single,
    deadzone: Single,
    anti_deadzone: Single,
) -> (r: Single)
    ensures
        r == radial_axis_shaped(magnitude, angle_ratio, deadzone, anti_deadzone),
{
    let zero = Single::from_bits(0);
    let one = Single::from_bits(ONE_BITS);
    let epsilon = Single::from_bits(EPSILON_BITS);
    if magnitude.is_at_most(epsilon) || angle_ratio.is_at_most(epsilon) {
        return zero;
    }
    let axis_deadzone = angle_ratio.times(deadzone);
    let usable_range = one.minus(axis_deadzone).max(epsilon);
    let scaled = magnitude.minus(axis_deadzone).over(usable_range).clamp(zero, one);
    let axis_anti_deadzone = angle_ratio.times(anti_deadzone).clamp(zero, one);
    one.minus(axis_anti_deadzone).times(scaled).plus(axis_anti_deadzone).clamp(zero, one)
}

/// A position at the distance `radius` from the centre with a circular dead zone taken out.
pub open spec fn radially_shaped_at(
    x: Single,
    y: Single,
    radius: Single,
    deadzone: Single,
    anti_deadzone: Single,
) -> (Single, Single) {
    if radius.not_above(deadzone) || radius.not_above(epsilon()) {
        (zero(), zero())
    } else {
        let abs_x = x.unsigned().smaller(one());
        let abs_y = y.unsigned().smaller(one());
        (
            radial_axis_shaped(
                abs_x,
                abs_x.quotient(radius),
                deadzone,
                anti_deadzone,
            ).product(x.direction()),
            radial_axis_shaped(
                abs_y,
                abs_y.quotient(radius),
                deadzone,
                anti_deadzone,
            ).product(y.direction()),
        )
    }
}

/// A position with a circular dead zone taken out.
pub open spec fn radially_shaped(
    x: Single,
    y: Single,
    deadzone: Single,
    anti_deadzone: Single,
) -> (Single, Single) {
    radially_shaped_at(x, y, x.distance(y), deadzone, anti_deadzone)
}

/// A position with a circular dead zone taken out.
pub fn apply_ds4windows_radial_deadzone(
    x: Single,
    y: Single,
    deadzone: Single,
    anti_deadzone: Single,
) -> (r: (Single, Single))
    ensures
        r == radially_shaped(x, y, deadzone, anti_deadzone),
{
    let zero = Single::from_bits(0);
    let radius = x.hypot(y);
    if radius.is_at_most(deadzone) {
        return (zero, zero);
    }
    if radius.is_at_most(Single::from_bits(EPSILON_BITS)) {
        return (zero, zero);
    }
    let one = Single::from_bits(ONE_BITS);
    let abs_x = x.abs().min(one);
    let abs_y = y.abs().min(one);
    let cos = abs_x.over(radius);
    let sin = abs_y.over(radius);
    let out_x = apply_radial_axis(abs_x, cos, deadzone, anti_deadzone).times(x.signum());
    let out_y = apply_radial_axis(abs_y, sin, deadzone, anti_deadzone).times(y.signum());
    (out_x, out_y)
}

/// A position at the distance `radius` from the centre, moved outwards so that the circle around
/// the centre becomes the square around the circle.
pub open spec fn squared_at(x: Single, y: Single, radius: Single) -> (Single, Single) {
    if radius.not_above(epsilon()) {
        (zero(), zero())
    } else {
        let ux = x.quotient(radius);
        let uy = y.quotient(radius);
        let boundary = one().quotient(ux.unsigned().larger(uy.unsigned()).larger(epsilon()));
        (ux.product(radius).product(boundary), uy.product(radius).product(boundary))
    }
}

/// A position, moved outwards so that the circle around the centre becomes the square around the
/// circle.
pub open spec fn squared(x: Single, y: Single) -> (Single, Single) {
    squared_at(x, y, x.distance(y))
}

/// A position, moved outwards so that the circle around the centre becomes the square around the
/// circle.
pub fn circle_to_square(x: Single, y: Single) -> (r: (Single, Single))
    ensures
        r == squared(x, y),
{
    let epsilon = Single::from_bits(EPSILON_BITS);
    let radius = x.hypot(y);
    if radius.is_at_most(epsilon) {
        return (Single::from_bits(0), Single::from_bits(0));
    }
    let ux = x.over(radius);
    let uy = y.over(radius);
    let boundary = Single::from_bits(ONE_BITS).over(ux.abs().max(uy.abs()).max(epsilon));
    (ux.times(radius).times(boundary), uy.times(radius).times(boundary))
}

/// Where the virtual controller shows a stick that stands at `x` and `y`.
pub open spec fn finished(x: Single, y: Single) -> Stick2<i32> {
    Stick2 { x: shown_at(x) as i32, y: shown_at(y) as i32 }
}

/// An unshaped stick.
pub open spec fn unshaped(raw: Stick2<i32>) -> Stick2<i32> {
    finished(unit_of(raw.x as int), unit_of(raw.y as int))
}

/// What the dead zone leaves of a stick.
pub open spec fn behind_deadzone(raw: Stick2<i32>, stick: StickProfile) -> (Single, Single) {
    let x = unit_of(raw.x as int);
    let y = unit_of(raw.y as int);
    match stick.deadzone_shape {
        DeadzoneShape::Radial => radially_shaped(x, y, stick.deadzone, stick.anti_deadzone),
        DeadzoneShape::Axial => (
            axis_shaped(x, stick.deadzone, stick.anti_deadzone),
            axis_shaped(y, stick.deadzone, stick.anti_deadzone),
        ),
    }
}

/// Where the virtual controller shows a stick: with the dead zone taken out, and stretched to the
/// square where that is set; unshaped where shaping is switched off.
pub open spec fn shaped(raw: Stick2<i32>, stick: StickProfile, enabled: bool) -> Stick2<i32> {
    let (x, y) = behind_deadzone(raw, stick);
    if !enabled {
        unshaped(raw)
    } else if stick.square {
        finished(squared(x, y).0, squared(x, y).1)
    } else {
        finished(x, y)
    }
}

/// An unshaped stick.
pub fn passthrough_stick(raw: Stick2<i32>) -> (r: Stick2<i32>)
    ensures
        r == unshaped(raw),
{
    proof {
        lemma_shown_in_range(unit_of(raw.x as int));
        lemma_shown_in_range(unit_of(raw.y as int));
    }
    Stick2 { x: unit_to_i16(raw_255_to_unit(raw.x)), y: unit_to_i16(raw_255_to_unit(raw.y)) }
}

/// Where the virtual controller shows the left stick.
pub fn transform_left_stick(raw: Stick2<i32>, profile: &Profile) -> (r: Stick2<i32>)
    ensures
        r == shaped(raw, profile.left_stick, profile.enabled),
{
    transform_stick(raw, &profile.left_stick, profile.enabled)
}

/// Where the virtual controller shows the right stick.
pub fn transform_right_stick(raw: Stick2<i32>, profile: &Profile) -> (r: Stick2<i32>)
    ensures
        r == shaped(raw, profile.right_stick, profile.enabled),
{
    transform_stick(raw, &profile.right_stick, profile.enabled)
}

/// Where the virtual controller shows a stick.
pub fn transform_stick(raw: Stick2<i32>, stick: &StickProfile, enabled: bool) -> (r: Stick2<i32>)
    ensures
        r == shaped(raw, *stick, enabled),
{
    if !enabled {
        return passthrough_stick(raw);
    }
    let x = raw_255_to_unit(raw.x);
    let y = raw_255_to_unit(raw.y);
    let (x, y) = match stick.deadzone_shape {
        DeadzoneShape::Radial => apply_ds4windows_radial_deadzone(
            x,
            y,
            stick.deadzone,
            stick.anti_deadzone,
        ),
        DeadzoneShape::Axial => (
            apply_axis_deadzone(x, stick.deadzone, stick.anti_deadzone),
            apply_axis_deadzone(y, stick.deadzone, stick.anti_deadzone),
        ),
    };
    let (x, y) = if stick.square { circle_to_square(x, y) } else { (x, y) };
    Stick2 { x: unit_to_i16(x), y: unit_to_i16(y) }
}

} // verus!
