//! The logic of a controller remapper for Linux.
//!
//! A daemon reads a physical game controller, shapes its sticks, and shows the result as a virtual
//! Xbox 360 controller. On request it hides the physical controller from other programs, switches
//! its audio interface off, and overrides its USB polling interval.
//!
//! The library decides; it touches neither files nor devices. What has to be done to the system
//! comes back as values: see [`daemon`] for requests, [`remap`] for input events, [`meter`] for the
//! rate of reports, [`system`] for the steps that change the system, [`udev`] and [`device`] for the
//! choice among device nodes, and [`ui`] for the desktop program.
//!
//! The modules whose names end in `_laws` state what holds of all this: what comes out, in terms of
//! what goes in.
use vstd::prelude::*;

pub mod arithmetic;
pub mod bytes;
pub mod config;
pub mod daemon;
pub mod daemon_laws;
pub mod device;
pub mod device_laws;
pub mod distance;
pub mod formula_laws;
pub mod input;
pub mod input_laws;
pub mod meter;
pub mod number;
pub mod order;
pub mod polling;
pub mod profile;
pub mod profile_laws;
pub mod protocol;
pub mod remap;
pub mod rounding;
pub mod shape;
pub mod shape_laws;
pub mod single;
pub mod square_laws;
pub mod status;
pub mod stick;
pub mod system;
pub mod system_laws;
pub mod text;
pub mod text_laws;
pub mod udev;
pub mod ui;
pub mod zone_laws;

pub use crate::device::InputDeviceInfo;
pub use crate::profile::{
    DeadzoneShape, Profile, ProfilePatch, StickProfile, DEFAULT_SOCKET_PATH, DUALSENSE_PID,
    DUALSENSE_VID, USB_OC_PARAMETER, VIRTUAL_LEGACY_NAME, VIRTUAL_XBOX360_NAME,
    VIRTUAL_XBOX360_PID, VIRTUAL_XBOX360_VID,
};
pub use crate::protocol::{DaemonRequest, DaemonResponse};
pub use crate::shape::{
    passthrough_stick, raw_255_to_unit, transform_left_stick, transform_right_stick,
    transform_stick, unit_to_i16,
};
pub use crate::single::{
    high_speed_hz_from_binterval, high_speed_interval_ms_from_binterval, Single,
};
pub use crate::status::{Metrics, StatusSnapshot};
pub use crate::stick::{ControllerSample, Stick2};

verus! {

} // verus!
