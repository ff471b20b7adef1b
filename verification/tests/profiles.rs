use ds4linux::profile::polling_override;
use ds4linux::{DeadzoneShape, Profile, ProfilePatch, Single, StickProfile};

fn single(number: f32) -> Single {
    Single::from_bits(number.to_bits())
}

fn wild_stick() -> StickProfile {
    StickProfile {
        deadzone: single(7.5),
        anti_deadzone: single(-0.5),
        deadzone_shape: DeadzoneShape::Axial,
        square: true,
    }
}

#[test]
fn defaults_are_the_documented_ones() {
    let profile = Profile::default();
    assert!(profile.enabled);
    assert_eq!(profile.selected_device_path, None);
    assert_eq!(profile.left_stick.deadzone.bits, 0.08f32.to_bits());
    assert_eq!(profile.left_stick.anti_deadzone.bits, 0.08f32.to_bits());
    assert_eq!(profile.left_stick.deadzone_shape, DeadzoneShape::Radial);
    assert!(profile.left_stick.square);
    assert!(!profile.right_stick.square);
    assert_eq!(profile.right_stick, StickProfile::default());
    assert!(profile.hide_physical);
    assert!(!profile.disable_controller_audio);
    assert_eq!(profile.polling_binterval, 4);
}

#[test]
fn sanitizing_brings_numbers_into_range() {
    let mut stick = wild_stick();
    stick.sanitize();
    assert_eq!(stick.deadzone.bits, 0.99f32.to_bits());
    assert_eq!(stick.anti_deadzone.bits, 0.0f32.to_bits());
    assert_eq!(stick.deadzone_shape, DeadzoneShape::Axial);
    assert!(stick.square);

    let mut low = StickProfile {
        deadzone: single(-3.0),
        anti_deadzone: single(1.25),
        ..StickProfile::default()
    };
    low.sanitize();
    assert_eq!(low.deadzone.bits, 0.0f32.to_bits());
    assert_eq!(low.anti_deadzone.bits, 1.0f32.to_bits());

    for (binterval, expected) in vec![(0u8, 1u8), (1, 1), (9, 9), (16, 16), (17, 16), (255, 16)] {
        let mut profile = Profile { polling_binterval: binterval, ..Profile::default() };
        profile.sanitize();
        assert_eq!(profile.polling_binterval, expected);
    }
}

#[test]
fn what_is_no_number_stays() {
    let mut stick = StickProfile { deadzone: single(f32::NAN), ..StickProfile::default() };
    stick.sanitize();
    assert!(stick.deadzone.not_a_number());
}

#[test]
fn sanitizing_twice_is_sanitizing_once() {
    let mut profile = Profile {
        left_stick: wild_stick(),
        right_stick: wild_stick(),
        polling_binterval: 200,
        ..Profile::default()
    };
    profile.sanitize();
    let once = profile.clone();
    profile.sanitize();
    assert_eq!(profile, once);
    let mut default = Profile::default();
    default.sanitize();
    assert_eq!(default, Profile::default());
}

#[test]
fn override_names_the_dualsense() {
    assert_eq!(Profile::default().polling_override_value(), "054c:0ce6:4");
    assert_eq!(polling_override("045e", "028e", 16), "045e:028e:16");
}

#[test]
fn patch_changes_what_it_names() {
    let mut profile = Profile {
        selected_device_path: Some("/dev/input/event3".to_string()),
        ..Profile::default()
    };
    ProfilePatch {
        enabled: Some(false),
        selected_device_path: Some(None),
        left_stick: Some(wild_stick()),
        polling_binterval: Some(0),
        ..ProfilePatch::default()
    }
    .apply_to(&mut profile);
    assert!(!profile.enabled);
    assert_eq!(profile.selected_device_path, None);
    assert_eq!(profile.left_stick.deadzone.bits, 0.99f32.to_bits());
    assert_eq!(profile.right_stick, StickProfile::default());
    assert!(profile.hide_physical);
    assert_eq!(profile.polling_binterval, 1);

    ProfilePatch {
        selected_device_path: Some(Some("/dev/input/event9".to_string())),
        right_stick: Some(wild_stick()),
        hide_physical: Some(false),
        disable_controller_audio: Some(true),
        ..ProfilePatch::default()
    }
    .apply_to(&mut profile);
    assert_eq!(profile.selected_device_path, Some("/dev/input/event9".to_string()));
    assert!(profile.right_stick.square);
    assert!(!profile.hide_physical);
    assert!(profile.disable_controller_audio);
}

#[test]
fn patching_twice_changes_nothing_more() {
    let patch = ProfilePatch {
        left_stick: Some(wild_stick()),
        polling_binterval: Some(99),
        ..ProfilePatch::default()
    };
    let mut profile = Profile::default();
    patch.clone().apply_to(&mut profile);
    let once = profile.clone();
    patch.apply_to(&mut profile);
    assert_eq!(profile, once);
    ProfilePatch::default().apply_to(&mut profile);
    assert_eq!(profile, once);
}
