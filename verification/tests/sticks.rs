use ds4linux::arithmetic::{EPSILON_BITS, LARGEST_WHOLE_BITS, MINUS_ONE_BITS};
use ds4linux::rounding::INFINITY_BITS;
use ds4linux::shape::{
    apply_axis_deadzone, apply_ds4windows_radial_deadzone, apply_radial_axis, circle_to_square,
    LOWER_HALF_BITS, LOWER_RANGE_BITS, UPPER_HALF_BITS, UPPER_RANGE_BITS,
};
use ds4linux::stick::{clamp, stick_axis_for_xbox};
use ds4linux::{
    passthrough_stick, raw_255_to_unit, transform_left_stick, transform_right_stick,
    transform_stick, unit_to_i16, ControllerSample, DeadzoneShape, Profile, Single, Stick2,
    StickProfile,
};

fn number(single: Single) -> f32 {
    f32::from_bits(single.bits)
}

fn single(number: f32) -> Single {
    Single::from_bits(number.to_bits())
}

fn same(a: Single, b: f32) -> bool {
    a.bits == b.to_bits() || (a.not_a_number() && b.is_nan())
}

#[test]
fn neutral_is_zero() {
    let out = transform_left_stick(Stick2 { x: 128, y: 128 }, &Profile::default());
    assert_eq!(out, Stick2 { x: 0, y: 0 });
}

#[test]
fn deadzone_holds_small_motion() {
    let out = transform_left_stick(Stick2 { x: 138, y: 128 }, &Profile::default());
    assert_eq!(out, Stick2 { x: 0, y: 0 });
}

#[test]
fn square_left_hits_corners() {
    let out = transform_left_stick(Stick2 { x: 255, y: 0 }, &Profile::default());
    assert_eq!(out.x, 32767);
    assert_eq!(out.y, -32768);
}

#[test]
fn radial_deadzone_keeps_diagonal_direction() {
    let profile = Profile {
        left_stick: StickProfile {
            deadzone_shape: DeadzoneShape::Radial,
            square: false,
            ..StickProfile::default()
        },
        ..Profile::default()
    };
    let out = transform_left_stick(Stick2 { x: 255, y: 0 }, &profile);
    assert!(out.x > 30000);
    assert!(out.y < -30000);
}

// The formulas in the arithmetic of the machine.

fn machine_raw_to_unit(value: i32) -> f32 {
    let value = value.clamp(0, 255);
    if value >= 128 {
        ((value - 128) as f32 / 127.0).clamp(0.0, 1.0)
    } else {
        ((value - 128) as f32 / 128.0).clamp(-1.0, 0.0)
    }
}

fn machine_unit_to_i16(value: f32) -> i32 {
    let value = value.clamp(-1.0, 1.0);
    if value >= 0.0 {
        (value * 32767.0).round() as i32
    } else {
        (value * 32768.0).round() as i32
    }
}

fn machine_axis(value: f32, deadzone: f32, anti_deadzone: f32) -> f32 {
    let sign = value.signum();
    let magnitude = value.abs();
    if magnitude <= deadzone {
        return 0.0;
    }
    let scaled = (magnitude - deadzone) / (1.0 - deadzone);
    sign * (anti_deadzone + scaled * (1.0 - anti_deadzone)).clamp(0.0, 1.0)
}

fn machine_radial_axis(magnitude: f32, angle_ratio: f32, deadzone: f32, anti_deadzone: f32) -> f32 {
    if magnitude <= f32::EPSILON || angle_ratio <= f32::EPSILON {
        return 0.0;
    }
    let axis_deadzone = angle_ratio * deadzone;
    let usable_range = (1.0 - axis_deadzone).max(f32::EPSILON);
    let scaled = ((magnitude - axis_deadzone) / usable_range).clamp(0.0, 1.0);
    let axis_anti_deadzone = (angle_ratio * anti_deadzone).clamp(0.0, 1.0);
    ((1.0 - axis_anti_deadzone) * scaled + axis_anti_deadzone).clamp(0.0, 1.0)
}

fn machine_radial(x: f32, y: f32, deadzone: f32, anti_deadzone: f32) -> (f32, f32) {
    let radius = x.hypot(y);
    if radius <= deadzone {
        return (0.0, 0.0);
    }
    if radius <= f32::EPSILON {
        return (0.0, 0.0);
    }
    let abs_x = x.abs().min(1.0);
    let abs_y = y.abs().min(1.0);
    let out_x = machine_radial_axis(abs_x, abs_x / radius, deadzone, anti_deadzone) * x.signum();
    let out_y = machine_radial_axis(abs_y, abs_y / radius, deadzone, anti_deadzone) * y.signum();
    (out_x, out_y)
}

fn machine_square(x: f32, y: f32) -> (f32, f32) {
    let radius = x.hypot(y);
    if radius <= f32::EPSILON {
        return (0.0, 0.0);
    }
    let ux = x / radius;
    let uy = y / radius;
    let boundary = 1.0 / ux.abs().max(uy.abs()).max(f32::EPSILON);
    (ux * radius * boundary, uy * radius * boundary)
}

fn machine_transform(raw: Stick2<i32>, stick: &StickProfile, enabled: bool) -> Stick2<i32> {
    let x = machine_raw_to_unit(raw.x);
    let y = machine_raw_to_unit(raw.y);
    if !enabled {
        return Stick2 { x: machine_unit_to_i16(x), y: machine_unit_to_i16(y) };
    }
    let deadzone = number(stick.deadzone);
    let anti_deadzone = number(stick.anti_deadzone);
    let (mut x, mut y) = match stick.deadzone_shape {
        DeadzoneShape::Radial => machine_radial(x, y, deadzone, anti_deadzone),
        DeadzoneShape::Axial => (
            machine_axis(x, deadzone, anti_deadzone),
            machine_axis(y, deadzone, anti_deadzone),
        ),
    };
    if stick.square {
        (x, y) = machine_square(x, y);
    }
    Stick2 { x: machine_unit_to_i16(x), y: machine_unit_to_i16(y) }
}

fn zones() -> Vec<(f32, f32)> {
    vec![
        (0.08, 0.08),
        (0.0, 0.0),
        (0.99, 1.0),
        (0.5, 0.25),
        (0.3333, 0.6667),
        (-0.5, 2.0),
        (1.0, 0.5),
        (1.5, -1.0),
        (f32::NAN, 0.1),
        (0.1, f32::NAN),
        (f32::INFINITY, 0.1),
        (f32::NEG_INFINITY, f32::INFINITY),
        (1.0e-40, 1.0e-40),
    ]
}

#[test]
fn sticks_are_shaped_as_the_machine_shapes_them() {
    for (deadzone, anti_deadzone) in zones() {
        for shape in vec![DeadzoneShape::Radial, DeadzoneShape::Axial] {
            for square in vec![false, true] {
                let stick = StickProfile {
                    deadzone: single(deadzone),
                    anti_deadzone: single(anti_deadzone),
                    deadzone_shape: shape,
                    square,
                };
                for x in (0..=255).step_by(15) {
                    for y in (-1..=256).step_by(13) {
                        let raw = Stick2 { x, y };
                        assert_eq!(
                            transform_stick(raw, &stick, true),
                            machine_transform(raw, &stick, true),
                            "{raw:?} {stick:?}"
                        );
                    }
                }
            }
        }
    }
}

#[test]
fn the_default_profile_shapes_every_position_alike() {
    let profile = Profile::default();
    for x in (0..=255).step_by(5) {
        for y in 0..=255 {
            let raw = Stick2 { x, y };
            let left = transform_left_stick(raw, &profile);
            assert_eq!(left, machine_transform(raw, &profile.left_stick, true), "{raw:?}");
            let right = transform_right_stick(raw, &profile);
            assert_eq!(right, machine_transform(raw, &profile.right_stick, true), "{raw:?}");
            assert_eq!(stick_axis_for_xbox(left.x), left.x);
            assert!((x >= 128 && left.x >= 0) || (x < 128 && left.x <= 0));
        }
    }
}

#[test]
fn each_stick_is_shaped_by_its_own_settings() {
    let mut profile = Profile::default();
    let raw = Stick2 { x: 200, y: 31 };
    assert_eq!(
        transform_left_stick(raw, &profile),
        transform_stick(raw, &profile.left_stick, true)
    );
    assert_ne!(transform_left_stick(raw, &profile), transform_right_stick(raw, &profile));
    let still = Stick2 { x: 131, y: 124 };
    assert_eq!(transform_left_stick(still, &profile), Stick2 { x: 0, y: 0 });
    profile.right_stick.deadzone = single(0.0);
    profile.right_stick.anti_deadzone = single(0.0);
    profile.right_stick.square = false;
    assert_eq!(transform_right_stick(still, &profile), passthrough_stick(still));
    profile.enabled = false;
    assert_eq!(transform_left_stick(raw, &profile), passthrough_stick(raw));
}

#[test]
fn squares_come_behind_the_dead_zone() {
    let plain = StickProfile { square: false, ..StickProfile::default() };
    let square = StickProfile { square: true, ..plain };
    let raw = Stick2 { x: 220, y: 60 };
    let (x, y) = apply_ds4windows_radial_deadzone(
        raw_255_to_unit(raw.x),
        raw_255_to_unit(raw.y),
        plain.deadzone,
        plain.anti_deadzone,
    );
    assert_eq!(
        transform_stick(raw, &plain, true),
        Stick2 { x: unit_to_i16(x), y: unit_to_i16(y) }
    );
    let (x, y) = circle_to_square(x, y);
    assert_eq!(
        transform_stick(raw, &square, true),
        Stick2 { x: unit_to_i16(x), y: unit_to_i16(y) }
    );
}

#[test]
fn motion_starts_at_the_anti_deadzone() {
    let (deadzone, anti_deadzone) = (single(0.25), single(0.4));
    let outside = single(0.25 + f32::EPSILON);
    assert!(number(apply_axis_deadzone(outside, deadzone, anti_deadzone)) >= 0.4);
    let behind = outside.negate();
    assert!(number(apply_axis_deadzone(behind, deadzone, anti_deadzone)) <= -0.4);
    assert_eq!(number(apply_axis_deadzone(deadzone, deadzone, anti_deadzone)), 0.0);
    assert_eq!(number(apply_axis_deadzone(single(1.0), deadzone, anti_deadzone)), 1.0);
}

#[test]
fn parts_of_the_shaping_are_those_of_the_machine() {
    let values = vec![-1.0f32, -0.75, -0.08, -0.0, 0.0, 1.0e-8, 0.08, 0.3, 0.9999999, 1.0];
    for (deadzone, anti_deadzone) in zones() {
        let (d, a) = (single(deadzone), single(anti_deadzone));
        for x in &values {
            assert!(same(apply_axis_deadzone(single(*x), d, a), machine_axis(*x, deadzone, anti_deadzone)));
            for y in &values {
                assert!(same(
                    apply_radial_axis(single(*x), single(*y), d, a),
                    machine_radial_axis(*x, *y, deadzone, anti_deadzone)
                ));
                let (sx, sy) = circle_to_square(single(*x), single(*y));
                let (tx, ty) = machine_square(*x, *y);
                assert!(same(sx, tx) && same(sy, ty), "{x} {y}");
                let (sx, sy) = apply_ds4windows_radial_deadzone(single(*x), single(*y), d, a);
                let (tx, ty) = machine_radial(*x, *y, deadzone, anti_deadzone);
                assert!(same(sx, tx) && same(sy, ty), "{x} {y} {deadzone} {anti_deadzone}");
            }
        }
    }
}

#[test]
fn axes_are_converted_as_the_machine_converts_them() {
    let mut values: Vec<i32> = (-300..=600).collect();
    values.push(i32::MIN);
    values.push(i32::MAX);
    for value in values {
        assert!(same(raw_255_to_unit(value), machine_raw_to_unit(value)), "{value}");
        let shown = machine_unit_to_i16(machine_raw_to_unit(value));
        assert_eq!(passthrough_stick(Stick2 { x: value, y: 128 }), Stick2 { x: shown, y: 0 });
    }
    for value in sample_numbers() {
        assert_eq!(unit_to_i16(single(value)), machine_unit_to_i16(value), "{value}");
    }
    assert_eq!(unit_to_i16(single(0.5)), 16384);
    assert_eq!(unit_to_i16(single(-0.5)), -16384);
    assert_eq!(unit_to_i16(single(f32::NAN)), 0);
}

#[test]
fn unshaped_axes_reach_both_ends_and_rest_at_zero() {
    assert_eq!(passthrough_stick(Stick2 { x: 0, y: 255 }), Stick2 { x: -32768, y: 32767 });
    assert_eq!(passthrough_stick(Stick2 { x: 128, y: 128 }), Stick2 { x: 0, y: 0 });
    assert_eq!(passthrough_stick(Stick2 { x: 129, y: 127 }), Stick2 { x: 258, y: -256 });
    assert_eq!(passthrough_stick(Stick2 { x: -5, y: 9999 }), Stick2 { x: -32768, y: 32767 });
    for value in 0..255 {
        let here = passthrough_stick(Stick2 { x: value, y: 0 }).x;
        let next = passthrough_stick(Stick2 { x: value + 1, y: 0 }).x;
        assert!(here < next);
        let offset = value - 128;
        let expected =
            if offset >= 0 { (2 * offset * 32767 + 127) / 254 } else { offset * 256 };
        assert_eq!(here, expected);
    }
}

fn sample_numbers() -> Vec<f32> {
    let mut numbers = vec![
        0.0,
        f32::from_bits(1),
        f32::from_bits(2),
        f32::from_bits(3),
        f32::from_bits(0x007f_ffff),
        f32::MIN_POSITIVE,
        1.0e-30,
        1.0e-8,
        f32::EPSILON,
        0.08,
        1.0 / 3.0,
        0.5,
        0.99,
        1.0 - f32::EPSILON / 2.0,
        1.0,
        1.0 + f32::EPSILON,
        1.5,
        3.0,
        127.0,
        32767.0,
        16777215.0,
        16777216.0,
        1.0e20,
        1.7e38,
        f32::MAX,
        f32::INFINITY,
        f32::NAN,
    ];
    let negative: Vec<f32> = numbers.iter().map(|number| -number).collect();
    numbers.extend(negative);
    numbers
}

fn compare_operations(a: f32, b: f32) {
    let (x, y) = (single(a), single(b));
    assert!(same(x.plus(y), a + b), "{a:e} + {b:e}");
    assert!(same(x.minus(y), a - b), "{a:e} - {b:e}");
    assert!(same(x.times(y), a * b), "{a:e} * {b:e}");
    assert!(same(x.over(y), a / b), "{a:e} / {b:e}");
    assert_eq!(x.is_at_most(y), a <= b, "{a:e} <= {b:e}");
}

#[test]
fn operations_are_those_of_the_machine() {
    for a in sample_numbers() {
        for b in sample_numbers() {
            compare_operations(a, b);
        }
        assert!(same(single(a).abs(), a.abs()));
        assert!(same(single(a).negate(), -a));
        assert!(same(single(a).signum(), a.signum()));
        for b in vec![f32::EPSILON, 1.0] {
            assert!(same(single(a).abs().min(single(b)), a.abs().min(b)));
            assert!(same(single(a).abs().max(single(b)), a.abs().max(b)));
        }
    }
}

#[test]
fn operations_on_scattered_numbers_are_those_of_the_machine() {
    let mut seed: u64 = 0x9e37_79b9_7f4a_7c15;
    let mut next = || {
        seed ^= seed << 13;
        seed ^= seed >> 7;
        seed ^= seed << 17;
        seed
    };
    for _ in 0..20000 {
        let bits = next();
        compare_operations(f32::from_bits(bits as u32), f32::from_bits((bits >> 32) as u32));
        // Close exponents, so that digits cancel and ties occur.
        let near = next();
        let a = f32::from_bits(0x3f00_0000 + (near as u32 & 0x01ff_ffff));
        let b = f32::from_bits(0x3e80_0000 + ((near >> 32) as u32 & 0x01ff_ffff));
        compare_operations(a, b);
        compare_operations(a, -b);
    }
}

#[test]
fn integers_are_converted_as_the_machine_converts_them() {
    for n in vec![0i64, 1, -1, 7, 255, -32768, 16777216, 16777217, 16777219, -16777217, 4294967295, i64::MAX, i64::MIN] {
        assert!(same(Single::from_integer(n), n as f32), "{n}");
    }
    for number in vec![0.0f32, -0.0, 0.49999997, 0.5, -0.5, 1.4999999, 1.5, -2.5, 300.25, 32767.5, -32767.998, 32768.0, -32768.0, f32::NAN] {
        assert_eq!(single(number).to_integer(), number.round() as i32, "{number}");
    }
}

#[test]
fn constants_are_those_of_the_machine() {
    assert_eq!(EPSILON_BITS, f32::EPSILON.to_bits());
    assert_eq!(MINUS_ONE_BITS, (-1.0f32).to_bits());
    assert_eq!(INFINITY_BITS, f32::INFINITY.to_bits());
    assert_eq!(LARGEST_WHOLE_BITS, 32768.0f32.to_bits());
    assert_eq!(UPPER_HALF_BITS, 127.0f32.to_bits());
    assert_eq!(LOWER_HALF_BITS, 128.0f32.to_bits());
    assert_eq!(UPPER_RANGE_BITS, 32767.0f32.to_bits());
    assert_eq!(LOWER_RANGE_BITS, 32768.0f32.to_bits());
}

#[test]
fn axes_are_bounded() {
    assert_eq!(stick_axis_for_xbox(40000), 32767);
    assert_eq!(stick_axis_for_xbox(-40000), -32768);
    assert_eq!(stick_axis_for_xbox(-7), -7);
    assert_eq!(clamp(300, 0, 255), 255);
    assert_eq!(clamp(-1, 0, 255), 0);
}

#[test]
fn sample_starts_at_zero() {
    let sample = ControllerSample::default();
    assert_eq!(sample.left, Stick2 { x: 0, y: 0 });
    assert_eq!(sample.right, Stick2 { x: 0, y: 0 });
    assert_eq!((sample.l2, sample.r2, sample.hat_x, sample.hat_y), (0, 0, 0, 0));
}

fn sane_zones() -> Vec<(f32, f32)> {
    vec![(0.0, 0.0), (0.08, 0.0), (0.08, 0.35), (0.5, 0.25), (0.99, 1.0)]
}

fn stick_with(zones: (f32, f32), shape: DeadzoneShape, square: bool) -> StickProfile {
    StickProfile {
        deadzone: single(zones.0),
        anti_deadzone: single(zones.1),
        deadzone_shape: shape,
        square,
        ..StickProfile::default()
    }
}

#[test]
fn squares_reach_as_far_as_the_stick_does() {
    for zones in sane_zones() {
        for shape in [DeadzoneShape::Radial, DeadzoneShape::Axial] {
            for x in (0..=255).step_by(5) {
                for y in (0..=255).step_by(5) {
                    let raw = Stick2 { x, y };
                    let n = transform_stick(raw, &stick_with(zones, shape, false), true);
                    let s = transform_stick(raw, &stick_with(zones, shape, true), true);
                    assert!(s.x * n.x >= 0 && s.y * n.y >= 0);
                    let far = s.x.abs().max(s.y.abs()) as f64;
                    let distance = (n.x as f64).hypot(n.y as f64).min(32767.0);
                    assert!((far - distance).abs() <= 3.0, "{zones:?} {raw:?} {n:?} {s:?}");
                }
            }
        }
    }
}

#[test]
fn circles_are_stretched_by_one_factor() {
    for (x, y) in [(0.6f32, 0.8f32), (-0.3, 0.4), (0.7, -0.7), (0.5, 0.0), (-0.01, -1.0)] {
        let radius = x.hypot(y);
        let (u, v) = circle_to_square(single(x), single(y));
        let (u, v) = (number(u), number(v));
        assert!((u.abs().max(v.abs()) - radius).abs() <= radius / 4194304.0);
        let factor = radius / x.abs().max(y.abs());
        assert!((u - x * factor).abs() <= 1.0e-6);
        assert!((v - y * factor).abs() <= 1.0e-6);
    }
    assert_eq!(circle_to_square(single(1.0), single(0.0)), (single(1.0), single(0.0)));
}

#[test]
fn sticks_without_zones_are_not_shaped() {
    for shape in [DeadzoneShape::Radial, DeadzoneShape::Axial] {
        let stick = stick_with((0.0, 0.0), shape, false);
        for x in 0..=255 {
            for y in (0..=255).step_by(15) {
                let raw = Stick2 { x, y };
                assert_eq!(transform_stick(raw, &stick, true), passthrough_stick(raw));
            }
        }
    }
}

#[test]
fn pushed_sticks_are_shown_at_the_end() {
    for zones in sane_zones() {
        assert_eq!(number(apply_axis_deadzone(single(1.0), single(zones.0), single(zones.1))), 1.0);
        for (shape, square) in [
            (DeadzoneShape::Radial, false),
            (DeadzoneShape::Radial, true),
            (DeadzoneShape::Axial, false),
            (DeadzoneShape::Axial, true),
        ] {
            let stick = stick_with(zones, shape, square);
            for (raw, end) in [(0, -32768), (255, 32767)] {
                assert_eq!(
                    transform_stick(Stick2 { x: raw, y: 128 }, &stick, true),
                    Stick2 { x: end, y: 0 }
                );
                assert_eq!(
                    transform_stick(Stick2 { x: 128, y: raw }, &stick, true),
                    Stick2 { x: 0, y: end }
                );
            }
        }
    }
}

#[test]
fn exchanged_axes_are_shown_exchanged() {
    for zones in sane_zones() {
        for shape in [DeadzoneShape::Radial, DeadzoneShape::Axial] {
            for square in [false, true] {
                let stick = stick_with(zones, shape, square);
                for (x, y) in [(0, 255), (200, 131), (128, 17), (40, 41), (255, 255)] {
                    let one_way = transform_stick(Stick2 { x, y }, &stick, true);
                    let other_way = transform_stick(Stick2 { x: y, y: x }, &stick, true);
                    assert_eq!(other_way, Stick2 { x: one_way.y, y: one_way.x });
                }
            }
        }
    }
}

#[test]
fn shaped_axes_grow_with_the_motion() {
    for (deadzone, anti_deadzone) in sane_zones() {
        let mut last = -2.0f32;
        for n in -1000..=1000 {
            let value = single(n as f32 / 1000.0);
            let shaped =
                number(apply_axis_deadzone(value, single(deadzone), single(anti_deadzone)));
            assert!(last <= shaped);
            last = shaped;
        }
        assert_eq!(last, 1.0);
    }
}

#[test]
fn both_dead_zones_agree_along_an_axis() {
    for (deadzone, anti_deadzone) in sane_zones() {
        let (deadzone, anti_deadzone) = (single(deadzone), single(anti_deadzone));
        for raw in 0..=255 {
            let x = raw_255_to_unit(raw);
            let radial =
                apply_ds4windows_radial_deadzone(x, single(0.0), deadzone, anti_deadzone);
            assert_eq!(radial.0, apply_axis_deadzone(x, deadzone, anti_deadzone));
            assert_eq!(radial.1, single(0.0));
        }
    }
}

#[test]
fn radial_motion_starts_at_its_part_of_the_anti_deadzone() {
    let (deadzone, anti_deadzone) = (single(0.25), single(0.4));
    for (magnitude, ratio) in [(0.16f32, 0.6f32), (0.2001, 0.8), (0.5, 1.0), (0.01, 0.03)] {
        let shaped = apply_radial_axis(single(magnitude), single(ratio), deadzone, anti_deadzone);
        assert!(number(shaped) >= ratio * 0.4);
        assert!(number(shaped) <= 1.0);
    }
    assert_eq!(number(apply_radial_axis(single(0.1), single(0.5), deadzone, anti_deadzone)), 0.2);
}

#[test]
fn radial_axes_do_not_fall_back() {
    for (deadzone, anti_deadzone) in sane_zones() {
        for ratio in [0.1f32, 0.6, 0.8, 1.0] {
            let mut last = -1.0f32;
            for n in 0..=1000 {
                let magnitude = single(n as f32 / 1000.0);
                let shaped = number(apply_radial_axis(
                    magnitude,
                    single(ratio),
                    single(deadzone),
                    single(anti_deadzone),
                ));
                assert!(last <= shaped);
                last = shaped;
            }
        }
    }
}

#[test]
fn diagonals_are_kept() {
    for zones in sane_zones() {
        let (x, y) = (single(0.625), single(-0.625));
        let (u, v) = apply_ds4windows_radial_deadzone(x, y, single(zones.0), single(zones.1));
        assert_eq!(number(u), -number(v));
        let (u, v) = circle_to_square(x, y);
        assert_eq!(number(u), -number(v));
        assert!((number(u) - 0.625f32.hypot(0.625)).abs() <= 2.4e-7);
    }
}

#[test]
fn distances_are_those_of_the_machine() {
    for x in 0..=255 {
        for y in 0..=255 {
            let (u, v) = (raw_255_to_unit(x), raw_255_to_unit(y));
            let (a, b) = (number(u) as f64, number(v) as f64);
            assert_eq!(number(u.hypot(v)), (a * a + b * b).sqrt() as f32, "{x} {y}");
            assert_eq!(number(u.hypot(v)), number(u).hypot(number(v)), "{x} {y}");
        }
    }
    for a in sample_numbers() {
        for b in sample_numbers() {
            let ours = single(a).hypot(single(b));
            assert_eq!(ours.bits, single(b).hypot(single(a)).bits);
            let theirs = a.hypot(b);
            if theirs.is_nan() {
                assert!(ours.not_a_number(), "{a} {b}");
            } else {
                assert!(ours.bits.abs_diff(theirs.to_bits()) <= 1, "{a} {b}");
            }
        }
    }
}

#[test]
fn distances_are_exact_where_they_can_be() {
    for (x, y, distance) in [
        (3.0f32, 4.0f32, 5.0f32),
        (-0.6875, 1.65, 1.7875),
        (0.0, -0.25, 0.25),
        (0.0, 0.0, 0.0),
        (1.0e-45, 0.0, 1.0e-45),
        (1.0e-45, 1.0e-45, 1.0e-45),
        (3.0e38, 3.0e38, f32::INFINITY),
        (1.0, 1.0e-10, 1.0),
        (f32::INFINITY, f32::NAN, f32::INFINITY),
    ] {
        assert!(same(single(x).hypot(single(y)), distance), "{x} {y}");
    }
    assert!(single(1.0).hypot(single(f32::NAN)).not_a_number());
    assert_eq!(single(1.0).hypot(single(1.0)).bits, 2.0f32.sqrt().to_bits());
}
