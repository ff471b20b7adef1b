//! Profiles: how each stick is shaped and how the controller is set up.
use vstd::prelude::*;

use crate::number::{decimal, decimal_text};
use crate::single::{bounded_binterval, clamp_binterval, Single, ONE_BITS};

verus! {

/// Where the daemon listens.
pub const DEFAULT_SOCKET_PATH: &'static str = "/run/ds4linux/ds4linux.sock";

/// The parameter of the kernel module that overrides the polling interval.
pub const USB_OC_PARAMETER: &'static str = "/sys/module/usb_oc/parameters/interrupt_interval_override";

/// The USB vendor of a DualSense controller.
pub const DUALSENSE_VID: &'static str = "054c";

/// The USB product of a DualSense controller.
pub const DUALSENSE_PID: &'static str = "0ce6";

/// The USB vendor that the virtual controller shows.
pub const VIRTUAL_XBOX360_VID: u16 = 0x045e;

/// The USB product that the virtual controller shows.
pub const VIRTUAL_XBOX360_PID: u16 = 0x028e;

/// The name that the virtual controller shows.
pub const VIRTUAL_XBOX360_NAME: &'static str = "DS4Linux Virtual Xbox 360 Controller";

/// The name that earlier virtual controllers showed.
pub const VIRTUAL_LEGACY_NAME: &'static str = "DS4Linux Virtual Controller";

/// The bits of the single precision number next to 0.08.
pub const DEFAULT_DEADZONE_BITS: u32 = 0x3da3_d70a;

/// The bits of the single precision number next to 0.99.
pub const LARGEST_DEADZONE_BITS: u32 = 0x3f7d_70a4;

/// How a dead zone is measured.
#[derive(Debug, Clone, Copy, PartialEq, Eq, Structural)]
pub enum DeadzoneShape {
    /// By the distance from the centre.
    Radial,
    /// On each axis for itself.
    Axial,
}

/// How one stick is shaped.
#[derive(Debug, Clone, Copy, PartialEq)]
pub struct StickProfile {
    /// The part of the range, from the centre, that counts as no motion.
    pub deadzone: Single,
    /// The output at which motion starts.
    pub anti_deadzone: Single,
    /// How the dead zone is measured.
    pub deadzone_shape: DeadzoneShape,
    /// Whether the output fills a square.
    pub square: bool,
}

/// How the controller is set up.
#[derive(Debug, PartialEq)]
pub struct Profile {
    /// Whether the sticks are shaped at all.
    pub enabled: bool,
    /// The device that the user chose.
    pub selected_device_path: Option<String>,
    /// The left stick.
    pub left_stick: StickProfile,
    /// The right stick.
    pub right_stick: StickProfile,
    /// Whether the physical controller is hidden from other programs.
    pub hide_physical: bool,
    /// Whether the audio interface of the controller is switched off.
    pub disable_controller_audio: bool,
    /// The polling interval exponent.
    pub polling_binterval: u8,
}

/// Changes to a profile; what is missing stays.
#[derive(Debug, PartialEq)]
pub struct ProfilePatch {
    /// See [`Profile`].
    pub enabled: Option<bool>,
    /// See [`Profile`].
    pub selected_device_path: Option<Option<String>>,
    /// See [`Profile`].
    pub left_stick: Option<StickProfile>,
    /// See [`Profile`].
    pub right_stick: Option<StickProfile>,
    /// See [`Profile`].
    pub hide_physical: Option<bool>,
    /// See [`Profile`].
    pub disable_controller_audio: Option<bool>,
    /// See [`Profile`].
    pub polling_binterval: Option<u8>,
}

/// `deadzone` brought into the range from 0 to 0.99.
pub open spec fn sanitized_deadzone(deadzone: Single) -> Single {
    deadzone.clamped(Single { bits: 0 }, Single { bits: LARGEST_DEADZONE_BITS })
}

/// `anti_deadzone` brought into the range from 0 to 1.
pub open spec fn sanitized_anti_deadzone(anti_deadzone: Single) -> Single {
    anti_deadzone.clamped(Single { bits: 0 }, Single { bits: ONE_BITS })
}

/// The new value where there is one, else the value before.
pub open spec fn patched<T>(new: Option<T>, before: T) -> T {
    match new {
        Some(value) => value,
        None => before,
    }
}

/// `vid:pid:binterval`, as the kernel module takes it.
pub open spec fn override_text(vid: Seq<char>, pid: Seq<char>, binterval: u8) -> Seq<char> {
    vid + ":"@ + pid + ":"@ + decimal(binterval as nat)
}

impl StickProfile {
    /// The default shape of a stick.
    pub open spec fn defaults() -> StickProfile {
        StickProfile {
            deadzone: Single { bits: DEFAULT_DEADZONE_BITS },
            anti_deadzone: Single { bits: DEFAULT_DEADZONE_BITS },
            deadzone_shape: DeadzoneShape::Radial,
            square: false,
        }
    }

    /// The shape with its zones brought into range.
    pub open spec fn sanitized(self) -> StickProfile {
        StickProfile {
            deadzone: sanitized_deadzone(self.deadzone),
            anti_deadzone: sanitized_anti_deadzone(self.anti_deadzone),
            ..self
        }
    }

    /// The zones are in range, where they are numbers.
    pub open spec fn is_sane(self) -> bool {
        &&& self.deadzone.is_nan() || 0 <= self.deadzone.rank() <= LARGEST_DEADZONE_BITS
        &&& self.anti_deadzone.is_nan() || 0 <= self.anti_deadzone.rank() <= ONE_BITS
    }

    /// Brings the zones into range.
    pub fn sanitize(&mut self)
        ensures
            *final(self) == old(self).sanitized(),
    {
        self.deadzone = self.deadzone.clamp(
            Single::from_bits(0),
            Single::from_bits(LARGEST_DEADZONE_BITS),
        );
        self.anti_deadzone = self.anti_deadzone.clamp(
            Single::from_bits(0),
            Single::from_bits(ONE_BITS),
        );
    }
}

impl Default for StickProfile {
    fn default() -> (r: StickProfile)
        ensures
            r == StickProfile::defaults(),
    {
        StickProfile {
            deadzone: Single::from_bits(DEFAULT_DEADZONE_BITS),
            anti_deadzone: Single::from_bits(DEFAULT_DEADZONE_BITS),
            deadzone_shape: DeadzoneShape::Radial,
            square: false,
        }
    }
}

impl Clone for Profile {
    fn clone(&self) -> (r: Profile)
        ensures
            r == *self,
    {
        Profile {
            enabled: self.enabled,
            selected_device_path: self.selected_device_path.clone(),
            left_stick: self.left_stick,
            right_stick: self.right_stick,
            hide_physical: self.hide_physical,
            disable_controller_audio: self.disable_controller_audio,
            polling_binterval: self.polling_binterval,
        }
    }
}

impl Default for Profile {
    fn default() -> (r: Profile)
        ensures
            r == Profile::defaults(),
    {
        Profile {
            enabled: true,
            selected_device_path: None,
            left_stick: StickProfile { square: true, ..StickProfile::default() },
            right_stick: StickProfile::default(),
            hide_physical: true,
            disable_controller_audio: false,
            polling_binterval: 4,
        }
    }
}

impl Profile {
    /// The default profile: a squared left stick, a hidden controller, 1000 reports a second.
    pub open spec fn defaults() -> Profile {
        Profile {
            enabled: true,
            selected_device_path: None,
            left_stick: StickProfile { square: true, ..StickProfile::defaults() },
            right_stick: StickProfile::defaults(),
            hide_physical: true,
            disable_controller_audio: false,
            polling_binterval: 4,
        }
    }

    /// The profile with its numbers brought into range.
    pub open spec fn sanitized(self) -> Profile {
        Profile {
            left_stick: self.left_stick.sanitized(),
            right_stick: self.right_stick.sanitized(),
            polling_binterval: bounded_binterval(self.polling_binterval),
            ..self
        }
    }

    /// The numbers of the profile are in range.
    pub open spec fn is_sane(self) -> bool {
        &&& self.left_stick.is_sane()
        &&& self.right_stick.is_sane()
        &&& 1 <= self.polling_binterval <= 16
    }

    /// Brings the numbers of the profile into range.
    pub fn sanitize(&mut self)
        ensures
            *final(self) == old(self).sanitized(),
    {
        self.left_stick.sanitize();
        self.right_stick.sanitize();
        self.polling_binterval = clamp_binterval(self.polling_binterval);
    }

    /// The polling override for a DualSense controller.
    pub fn polling_override_value(&self) -> (r: String)
        ensures
            r@ == override_text(DUALSENSE_VID@, DUALSENSE_PID@, self.polling_binterval),
            r@ == "054c"@ + ":"@ + "0ce6"@ + ":"@ + decimal(self.polling_binterval as nat),
    {
        polling_override(DUALSENSE_VID, DUALSENSE_PID, self.polling_binterval)
    }
}

/// The polling override for the controller `vid:pid`.
pub fn polling_override(vid: &str, pid: &str, binterval: u8) -> (r: String)
    ensures
        r@ == override_text(vid@, pid@, binterval),
        r@ == vid@ + ":"@ + pid@ + ":"@ + decimal(binterval as nat),
{
    let mut r = vid.to_owned();
    r.append(":");
    r.append(pid);
    r.append(":");
    r.append(decimal_text(binterval).as_str());
    r
}

impl Default for ProfilePatch {
    fn default() -> (r: ProfilePatch)
        ensures
            r == ProfilePatch::nothing(),
    {
        ProfilePatch {
            enabled: None,
            selected_device_path: None,
            left_stick: None,
            right_stick: None,
            hide_physical: None,
            disable_controller_audio: None,
            polling_binterval: None,
        }
    }
}

impl Clone for ProfilePatch {
    fn clone(&self) -> (r: ProfilePatch)
        ensures
            r == *self,
    {
        ProfilePatch {
            enabled: self.enabled,
            selected_device_path: self.selected_device_path.clone(),
            left_stick: self.left_stick,
            right_stick: self.right_stick,
            hide_physical: self.hide_physical,
            disable_controller_audio: self.disable_controller_audio,
            polling_binterval: self.polling_binterval,
        }
    }
}

impl ProfilePatch {
    /// The patch that changes nothing.
    pub open spec fn nothing() -> ProfilePatch {
        ProfilePatch {
            enabled: None,
            selected_device_path: None,
            left_stick: None,
            right_stick: None,
            hide_physical: None,
            disable_controller_audio: None,
            polling_binterval: None,
        }
    }

    /// `profile` with the changes of the patch, brought into range.
    pub open spec fn applied_to(self, profile: Profile) -> Profile {
        Profile {
            enabled: patched(self.enabled, profile.enabled),
            selected_device_path: patched(self.selected_device_path, profile.selected_device_path),
            left_stick: patched(self.left_stick, profile.left_stick),
            right_stick: patched(self.right_stick, profile.right_stick),
            hide_physical: patched(self.hide_physical, profile.hide_physical),
            disable_controller_audio: patched(
                self.disable_controller_audio,
                profile.disable_controller_audio,
            ),
            polling_binterval: patched(self.polling_binterval, profile.polling_binterval),
        }.sanitized()
    }

    /// Changes `profile` and brings it into range.
    pub fn apply_to(self, profile: &mut Profile)
        ensures
            *final(profile) == self.applied_to(*old(profile)),
            final(profile).enabled == match self.enabled {
                Some(value) => value,
                None => old(profile).enabled,
            },
            final(profile).selected_device_path == match self.selected_device_path {
                Some(value) => value,
                None => old(profile).selected_device_path,
            },
            final(profile).left_stick == match self.left_stick {
                Some(value) => value.sanitized(),
                None => old(profile).left_stick.sanitized(),
            },
            final(profile).right_stick == match self.right_stick {
                Some(value) => value.sanitized(),
                None => old(profile).right_stick.sanitized(),
            },
            final(profile).hide_physical == match self.hide_physical {
                Some(value) => value,
                None => old(profile).hide_physical,
            },
            final(profile).disable_controller_audio == match self.disable_controller_audio {
                Some(value) => value,
                None => old(profile).disable_controller_audio,
            },
            final(profile).polling_binterval == match self.polling_binterval {
                Some(value) => bounded_binterval(value),
                None => bounded_binterval(old(profile).polling_binterval),
            },
    {
        if let Some(value) = self.enabled {
            profile.enabled = value;
        }
        if let Some(value) = self.selected_device_path {
            profile.selected_device_path = value;
        }
        if let Some(value) = self.left_stick {
            profile.left_stick = value;
        }
        if let Some(value) = self.right_stick {
            profile.right_stick = value;
        }
        if let Some(value) = self.hide_physical {
            profile.hide_physical = value;
        }
        if let Some(value) = self.disable_controller_audio {
            profile.disable_controller_audio = value;
        }
        if let Some(value) = self.polling_binterval {
            profile.polling_binterval = value;
        }
        profile.sanitize();
    }
}

/// Sanitizing puts a profile in range, and does so once and for all.
pub proof fn sanitizing_puts_in_range(profile: Profile)
    ensures
        profile.sanitized().is_sane(),
        profile.sanitized().sanitized() == profile.sanitized(),
{
}

/// A profile in range is left alone by sanitizing.
pub proof fn sane_profiles_stay(profile: Profile)
    requires
        profile.is_sane(),
    ensures
        profile.sanitized() == profile,
{
}

/// The default profile is in range.
pub proof fn default_profile_is_sane()
    ensures
        Profile::defaults().is_sane(),
{
}

/// A patched profile is in range, whatever the patch and the profile hold.
pub proof fn patched_profiles_are_sane(patch: ProfilePatch, profile: Profile)
    ensures
        patch.applied_to(profile).is_sane(),
{
}

/// Applying a patch twice is applying it once.
pub proof fn patching_twice_is_patching_once(patch: ProfilePatch, profile: Profile)
    ensures
        patch.applied_to(patch.applied_to(profile)) == patch.applied_to(profile),
{
}

/// The empty patch leaves a profile in range alone.
pub proof fn empty_patch_changes_nothing(profile: Profile)
    requires
        profile.is_sane(),
    ensures
        ProfilePatch::nothing().applied_to(profile) == profile,
{
}

} // verus!
