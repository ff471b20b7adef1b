//! What holds of profiles: how they are brought into range, and what a patch changes.
use vstd::prelude::*;

#[allow(unused_imports)]
use crate::number::decimal;
#[allow(unused_imports)]
use crate::profile::{
    override_text, sanitized_anti_deadzone, sanitized_deadzone, DeadzoneShape, Profile,
    ProfilePatch, StickProfile,
};
#[allow(unused_imports)]
use crate::single::{bounded_binterval, order_is_order_of_values, Single};

verus! {

/// A number is bounded by the nearer of its bounds: by their values, it is the low bound below it,
/// the high bound above it, and itself between them. What is no number stays as it is.
pub proof fn numbers_are_bounded_by_their_values(x: Single, low: Single, high: Single)
    requires
        !low.is_nan(),
        !high.is_nan(),
        low.scaled() <= high.scaled(),
    ensures
        x.is_nan() ==> x.clamped(low, high) == x,
        !x.is_nan() && x.scaled() < low.scaled() ==> x.clamped(low, high) == low,
        !x.is_nan() && x.scaled() > high.scaled() ==> x.clamped(low, high) == high,
        low.scaled() <= x.scaled() <= high.scaled() ==> x.clamped(low, high) == x,
{
    order_is_order_of_values(x, low);
    order_is_order_of_values(high, x);
}

/// One number is below another where both are numbers and the value of the one is less.
pub proof fn numbers_are_ordered_by_their_values(x: Single, y: Single)
    ensures
        x.below(y) <==> !x.is_nan() && !y.is_nan() && x.scaled() < y.scaled(),
{
    order_is_order_of_values(x, y);
}

/// A dead zone below zero becomes zero, and one above 0.99 becomes 0.99; an output at which motion
/// starts lies between zero and one in the same way. Zones in range stay, and so does what is no
/// number.
pub proof fn zones_are_brought_to_the_nearer_bound(zone: Single)
    ensures
        ({
            let nothing = Single { bits: 0 };
            let most = Single { bits: 0x3f7d_70a4 };
            let all = Single { bits: 0x3f80_0000 };
            let deadzone = sanitized_deadzone(zone);
            let anti_deadzone = sanitized_anti_deadzone(zone);
            &&& zone.is_nan() ==> deadzone == zone && anti_deadzone == zone
            &&& !zone.is_nan() && zone.scaled() < 0 ==> deadzone == nothing && anti_deadzone
                == nothing
            &&& 0 <= zone.scaled() <= most.scaled() ==> deadzone == zone
            &&& !zone.is_nan() && zone.scaled() > most.scaled() ==> deadzone == most
            &&& 0 <= zone.scaled() <= all.scaled() ==> anti_deadzone == zone
            &&& !zone.is_nan() && zone.scaled() > all.scaled() ==> anti_deadzone == all
        }),
{
    let nothing = Single { bits: 0 };
    let most = Single { bits: 0x3f7d_70a4 };
    let all = Single { bits: 0x3f80_0000 };
    assert(nothing.scaled() == 0);
    order_is_order_of_values(nothing, most);
    order_is_order_of_values(nothing, all);
    numbers_are_bounded_by_their_values(zone, nothing, most);
    numbers_are_bounded_by_their_values(zone, nothing, all);
}

/// Polling interval exponents lie between one and sixteen.
pub proof fn intervals_are_brought_to_the_nearer_bound(binterval: u8)
    ensures
        binterval == 0 ==> bounded_binterval(binterval) == 1,
        1 <= binterval <= 16 ==> bounded_binterval(binterval) == binterval,
        binterval > 16 ==> bounded_binterval(binterval) == 16,
{
}

/// Bringing a profile into range changes the zones of each stick and the polling interval, each by
/// itself, and nothing else.
pub proof fn sanitizing_changes_numbers_alone(profile: Profile)
    ensures
        ({
            let sane = profile.sanitized();
            &&& sane.enabled == profile.enabled
            &&& sane.selected_device_path == profile.selected_device_path
            &&& sane.hide_physical == profile.hide_physical
            &&& sane.disable_controller_audio == profile.disable_controller_audio
            &&& sane.polling_binterval == bounded_binterval(profile.polling_binterval)
            &&& sane.left_stick.deadzone == sanitized_deadzone(profile.left_stick.deadzone)
            &&& sane.left_stick.anti_deadzone == sanitized_anti_deadzone(
                profile.left_stick.anti_deadzone,
            )
            &&& sane.left_stick.deadzone_shape == profile.left_stick.deadzone_shape
            &&& sane.left_stick.square == profile.left_stick.square
            &&& sane.right_stick.deadzone == sanitized_deadzone(profile.right_stick.deadzone)
            &&& sane.right_stick.anti_deadzone == sanitized_anti_deadzone(
                profile.right_stick.anti_deadzone,
            )
            &&& sane.right_stick.deadzone_shape == profile.right_stick.deadzone_shape
            &&& sane.right_stick.square == profile.right_stick.square
        }),
{
}

/// A profile is in range exactly where the values of its numbers are: dead zones from zero to 0.99,
/// outputs at which motion starts from zero to one, the polling interval from one to sixteen.
pub proof fn sane_profiles_are_in_range(profile: Profile)
    ensures
        profile.is_sane() <==> {
            let most = Single { bits: 0x3f7d_70a4 }.scaled();
            let all = Single { bits: 0x3f80_0000 }.scaled();
            let (left, right) = (profile.left_stick, profile.right_stick);
            &&& left.deadzone.is_nan() || 0 <= left.deadzone.scaled() <= most
            &&& left.anti_deadzone.is_nan() || 0 <= left.anti_deadzone.scaled() <= all
            &&& right.deadzone.is_nan() || 0 <= right.deadzone.scaled() <= most
            &&& right.anti_deadzone.is_nan() || 0 <= right.anti_deadzone.scaled() <= all
            &&& 1 <= profile.polling_binterval <= 16
        },
{
    let nothing = Single { bits: 0 };
    let most = Single { bits: 0x3f7d_70a4 };
    let all = Single { bits: 0x3f80_0000 };
    assert(nothing.scaled() == 0 && nothing.rank() == 0);
    let (left, right) = (profile.left_stick, profile.right_stick);
    order_is_order_of_values(left.deadzone, nothing);
    order_is_order_of_values(left.anti_deadzone, nothing);
    order_is_order_of_values(right.deadzone, nothing);
    order_is_order_of_values(right.anti_deadzone, nothing);
    order_is_order_of_values(most, left.deadzone);
    order_is_order_of_values(all, left.anti_deadzone);
    order_is_order_of_values(most, right.deadzone);
    order_is_order_of_values(all, right.anti_deadzone);
}

/// A patch sets what it holds, whatever stood there before, and leaves alone what it does not hold.
pub proof fn patches_set_what_they_hold(patch: ProfilePatch, profile: Profile)
    ensures
        ({
            let applied = patch.applied_to(profile);
            &&& patch.enabled matches Some(value) ==> applied.enabled == value
            &&& patch.enabled is None ==> applied.enabled == profile.enabled
            &&& patch.selected_device_path matches Some(value) ==> applied.selected_device_path
                == value
            &&& patch.selected_device_path is None ==> applied.selected_device_path
                == profile.selected_device_path
            &&& patch.hide_physical matches Some(value) ==> applied.hide_physical == value
            &&& patch.hide_physical is None ==> applied.hide_physical == profile.hide_physical
            &&& patch.disable_controller_audio matches Some(value)
                ==> applied.disable_controller_audio == value
            &&& patch.disable_controller_audio is None ==> applied.disable_controller_audio
                == profile.disable_controller_audio
        }),
{
}

/// A patch sets the shape of each stick that it holds, brought into range, and leaves the other
/// alone but for bringing it into range; and likewise for the polling interval.
pub proof fn patches_set_the_numbers_they_hold(patch: ProfilePatch, profile: Profile)
    ensures
        ({
            let applied = patch.applied_to(profile);
            &&& patch.left_stick matches Some(stick) ==> {
                &&& applied.left_stick.deadzone == sanitized_deadzone(stick.deadzone)
                &&& applied.left_stick.anti_deadzone == sanitized_anti_deadzone(stick.anti_deadzone)
                &&& applied.left_stick.deadzone_shape == stick.deadzone_shape
                &&& applied.left_stick.square == stick.square
            }
            &&& patch.right_stick matches Some(stick) ==> {
                &&& applied.right_stick.deadzone == sanitized_deadzone(stick.deadzone)
                &&& applied.right_stick.anti_deadzone == sanitized_anti_deadzone(
                    stick.anti_deadzone,
                )
                &&& applied.right_stick.deadzone_shape == stick.deadzone_shape
                &&& applied.right_stick.square == stick.square
            }
            &&& patch.left_stick is None && profile.is_sane() ==> applied.left_stick
                == profile.left_stick
            &&& patch.right_stick is None && profile.is_sane() ==> applied.right_stick
                == profile.right_stick
            &&& patch.left_stick is None ==> applied.left_stick == profile.sanitized().left_stick
            &&& patch.right_stick is None ==> applied.right_stick == profile.sanitized().right_stick
            &&& patch.polling_binterval matches Some(value) ==> applied.polling_binterval
                == if value == 0 {
                1
            } else if value > 16 {
                16
            } else {
                value
            }
            &&& patch.polling_binterval is None && 1 <= profile.polling_binterval <= 16
                ==> applied.polling_binterval == profile.polling_binterval
            &&& patch.polling_binterval is None ==> applied.polling_binterval
                == profile.sanitized().polling_binterval
        }),
{
}

/// The patch that changes nothing holds nothing.
pub proof fn empty_patch_holds_nothing(patch: ProfilePatch)
    ensures
        patch == ProfilePatch::nothing() <==> {
            &&& patch.enabled is None
            &&& patch.selected_device_path is None
            &&& patch.left_stick is None
            &&& patch.right_stick is None
            &&& patch.hide_physical is None
            &&& patch.disable_controller_audio is None
            &&& patch.polling_binterval is None
        },
{
}

/// By default the sticks are shaped and the left one is squared, the controller is hidden with its
/// audio on, and it reports a thousand times a second.
pub proof fn default_profile_holds(profile: Profile)
    requires
        profile == Profile::defaults(),
    ensures
        profile.enabled,
        profile.selected_device_path is None,
        profile.hide_physical,
        !profile.disable_controller_audio,
        profile.polling_binterval == 4,
        profile.left_stick.square,
        !profile.right_stick.square,
        profile.left_stick.deadzone_shape == DeadzoneShape::Radial,
        profile.right_stick.deadzone_shape == DeadzoneShape::Radial,
        profile.left_stick.deadzone.bits == 0x3da3_d70a,
        profile.left_stick.anti_deadzone.bits == 0x3da3_d70a,
        profile.right_stick.deadzone.bits == 0x3da3_d70a,
        profile.right_stick.anti_deadzone.bits == 0x3da3_d70a,
        profile.right_stick == StickProfile::defaults(),
{
}

/// An override starts with the vendor, a colon, the product and a colon, and ends with the interval
/// in decimal notation; so overrides for different controllers differ, and so do overrides for
/// different intervals.
pub proof fn overrides_tell_controllers_apart(
    vid: Seq<char>,
    pid: Seq<char>,
    binterval: u8,
    other_vid: Seq<char>,
    other_pid: Seq<char>,
)
    requires
        vid.len() == other_vid.len(),
        pid.len() == other_pid.len(),
        vid != other_vid || pid != other_pid,
    ensures
        override_text(vid, pid, binterval) == vid + seq![':'] + pid + seq![':'] + decimal(
            binterval as nat,
        ),
        override_text(vid, pid, binterval) != override_text(other_vid, other_pid, binterval),
{
    reveal_strlit(":");
    let text = override_text(vid, pid, binterval);
    let other = override_text(other_vid, other_pid, binterval);
    assert(":"@ =~= seq![':']);
    assert(text.subrange(0, vid.len() as int) =~= vid);
    assert(other.subrange(0, vid.len() as int) =~= other_vid);
    let start = vid.len() as int + 1;
    assert(text.subrange(start, start + pid.len()) =~= pid);
    assert(other.subrange(start, start + pid.len()) =~= other_pid);
}

} // verus!
