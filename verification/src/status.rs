//! What the daemon tells about itself.
use vstd::prelude::*;

use crate::device::InputDeviceInfo;
use crate::profile::Profile;
use crate::single::Single;
use crate::stick::ControllerSample;

verus! {

/// How the daemon is doing.
#[derive(Debug, PartialEq)]
pub struct Metrics {
    /// Reports a second from the physical controller.
    pub input_hz: Single,
    /// Reports a second to the virtual controller.
    pub output_hz: Single,
    /// Raw reports a second.
    pub hidraw_hz: Single,
    /// Reports a second that the polling interval allows.
    pub configured_polling_hz: Option<Single>,
    /// The polling interval in milliseconds.
    pub configured_polling_ms: Option<Single>,
    /// The node of the physical controller.
    pub physical_path: Option<String>,
    /// The node of the virtual controller.
    pub virtual_path: Option<String>,
    /// The raw HID node of the physical controller.
    pub hidraw_path: Option<String>,
    /// What went wrong last.
    pub last_error: Option<String>,
    /// The value of the polling override.
    pub usb_oc_value: Option<String>,
    /// Whether the polling override is available.
    pub usb_oc_loaded: bool,
    /// Whether the polling override is set up for every boot.
    pub usb_oc_persistent: bool,
    /// Whether the physical controller is hidden.
    pub physical_hidden: bool,
    /// Whether the audio of the controller is switched off.
    pub controller_audio_disabled: bool,
    /// Whether the remapper runs.
    pub running: bool,
}

impl Metrics {
    /// The metrics of a daemon that has done nothing yet.
    pub open spec fn nothing() -> Metrics {
        Metrics {
            input_hz: Single { bits: 0 },
            output_hz: Single { bits: 0 },
            hidraw_hz: Single { bits: 0 },
            configured_polling_hz: None,
            configured_polling_ms: None,
            physical_path: None,
            virtual_path: None,
            hidraw_path: None,
            last_error: None,
            usb_oc_value: None,
            usb_oc_loaded: false,
            usb_oc_persistent: false,
            physical_hidden: false,
            controller_audio_disabled: false,
            running: false,
        }
    }
}

impl Default for Metrics {
    fn default() -> (r: Metrics)
        ensures
            r == Metrics::nothing(),
    {
        Metrics {
            input_hz: Single::from_bits(0),
            output_hz: Single::from_bits(0),
            hidraw_hz: Single::from_bits(0),
            configured_polling_hz: None,
            configured_polling_ms: None,
            physical_path: None,
            virtual_path: None,
            hidraw_path: None,
            last_error: None,
            usb_oc_value: None,
            usb_oc_loaded: false,
            usb_oc_persistent: false,
            physical_hidden: false,
            controller_audio_disabled: false,
            running: false,
        }
    }
}

impl Clone for Metrics {
    fn clone(&self) -> (r: Metrics)
        ensures
            r == *self,
    {
        Metrics {
            input_hz: self.input_hz,
            output_hz: self.output_hz,
            hidraw_hz: self.hidraw_hz,
            configured_polling_hz: self.configured_polling_hz,
            configured_polling_ms: self.configured_polling_ms,
            physical_path: self.physical_path.clone(),
            virtual_path: self.virtual_path.clone(),
            hidraw_path: self.hidraw_path.clone(),
            last_error: self.last_error.clone(),
            usb_oc_value: self.usb_oc_value.clone(),
            usb_oc_loaded: self.usb_oc_loaded,
            usb_oc_persistent: self.usb_oc_persistent,
            physical_hidden: self.physical_hidden,
            controller_audio_disabled: self.controller_audio_disabled,
            running: self.running,
        }
    }
}

/// Everything that the daemon tells about itself.
#[derive(Debug, PartialEq)]
pub struct StatusSnapshot {
    /// The profile in use.
    pub profile: Profile,
    /// The controllers.
    pub devices: Vec<InputDeviceInfo>,
    /// What the physical controller reported last.
    pub raw: ControllerSample,
    /// What the virtual controller reported last.
    pub output: ControllerSample,
    /// How the daemon is doing.
    pub metrics: Metrics,
}

impl StatusSnapshot {
    /// The snapshot holds these values.
    pub open spec fn holds(
        self,
        profile: Profile,
        devices: Seq<InputDeviceInfo>,
        raw: ControllerSample,
        output: ControllerSample,
        metrics: Metrics,
    ) -> bool {
        &&& self.profile == profile
        &&& self.devices@ == devices
        &&& self.raw == raw
        &&& self.output == output
        &&& self.metrics == metrics
    }
}

impl Default for StatusSnapshot {
    fn default() -> (r: StatusSnapshot)
        ensures
            r.holds(
                Profile::defaults(),
                Seq::empty(),
                ControllerSample::zero(),
                ControllerSample::zero(),
                Metrics::nothing(),
            ),
    {
        StatusSnapshot {
            profile: Profile::default(),
            devices: Vec::new(),
            raw: ControllerSample::default(),
            output: ControllerSample::default(),
            metrics: Metrics::default(),
        }
    }
}

impl Clone for StatusSnapshot {
    fn clone(&self) -> (r: StatusSnapshot)
        ensures
            r.holds(self.profile, self.devices@, self.raw, self.output, self.metrics),
    {
        StatusSnapshot {
            profile: self.profile.clone(),
            devices: self.devices.clone(),
            raw: self.raw,
            output: self.output,
            metrics: self.metrics.clone(),
        }
    }
}

} // verus!
