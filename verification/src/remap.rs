//! The remapper: from the events of the physical controller to those of the virtual one.
use vstd::prelude::*;

use crate::daemon::{Setting, SettingContext, SharedState};
#[allow(unused_imports)]
use crate::daemon::selected_path;
use crate::device::{selected_device_for_profile, InputDeviceInfo};
#[allow(unused_imports)]
use crate::device::selected_device;
use crate::input::{
    abs_event, destructure, is_gamepad_button, output_key_for_xbox, EventSummary, InputEvent,
    ABS_HAT0X, ABS_HAT0Y, ABS_RX, ABS_RY, ABS_RZ, ABS_X, ABS_Y, ABS_Z, EV_ABS, EV_KEY, SYN_DROPPED,
    SYN_REPORT,
};
#[allow(unused_imports)]
use crate::input::{axis_setups, gamepad_buttons, is_offered, shown_buttons_are_offered, summary_of, xbox_key};
#[allow(unused_imports)]
use crate::arithmetic::integer;
use crate::profile::Profile;
use crate::shape::{transform_left_stick, transform_right_stick};
#[allow(unused_imports)]
use crate::shape::{shaped, unshaped};
#[allow(unused_imports)]
use crate::shape_laws::sticks_are_shown_within_the_range;
use crate::single::Single;
use crate::status::Metrics;
use crate::stick::{clamp, stick_axis_for_xbox, ControllerSample, Stick2};
#[allow(unused_imports)]
use crate::stick::bounded;
use crate::text::same_optional;
#[allow(unused_imports)]
use crate::text::text_of;

verus! {

/// How long the remapper works on without looking at the configuration, in milliseconds.
pub const CONTROL_SYNC_MS: u64 = 10;

/// How long the remapper waits between two looks for controllers, in milliseconds.
pub const DEVICE_SCAN_MS: u64 = 1000;

/// How long the remapper counts reports, in milliseconds.
pub const RATE_TICK_MS: u64 = 1000;

/// How long the remapper works on without telling its state, in milliseconds.
pub const STATUS_PUBLISH_MS: u64 = 16;

/// How long the remapper rests while no controller is open, in milliseconds.
pub const IDLE_MS: u64 = 250;

/// How long the remapper waits for input of an open controller, in milliseconds.
pub const INPUT_WAIT_MS: i32 = 2;

/// Whether it is time to look at the configuration.
pub fn control_sync_due(since_sync_ms: u64) -> (r: bool)
    ensures
        r == (since_sync_ms >= 10),
{
    since_sync_ms >= CONTROL_SYNC_MS
}

/// Whether it is time to tell the reports a second.
pub fn rate_tick_due(since_tick_ms: u64) -> (r: bool)
    ensures
        r == (since_tick_ms >= 1000),
{
    since_tick_ms >= RATE_TICK_MS
}

/// Whether it is time to tell the state.
pub fn status_publish_due(since_publish_ms: u64) -> (r: bool)
    ensures
        r == (since_publish_ms >= 16),
{
    since_publish_ms >= STATUS_PUBLISH_MS
}

/// The settings that are made for a controller that has been opened, in this order.
pub open spec fn opening_settings() -> Seq<Setting> {
    seq![Setting::Polling, Setting::Hide, Setting::Audio]
}

/// What a failure to make a setting is called.
pub open spec fn opening_failure(setting: Setting) -> Seq<char> {
    match setting {
        Setting::Polling => "apply polling override failed: "@,
        Setting::Hide => "apply physical hide setting failed: "@,
        Setting::Audio => "apply controller audio setting failed: "@,
    }
}

/// The making of the settings for a controller that has been opened. A setting that cannot be made
/// keeps none of the others from being made, nor the controller from being used.
#[derive(Debug, PartialEq)]
pub struct OpeningRun {
    /// The settings.
    pub settings: Vec<Setting>,
    /// How many of them have been tried.
    pub tried: usize,
}

impl OpeningRun {
    /// The settings are those for a controller that has been opened.
    pub open spec fn well_formed(self) -> bool {
        self.settings@ == opening_settings() && self.tried <= self.settings@.len()
    }

    /// The setting that is tried next.
    pub open spec fn pending(self) -> Option<Setting> {
        if self.tried < self.settings@.len() {
            Some(self.settings@[self.tried as int])
        } else {
            None
        }
    }

    /// Nothing has been tried yet.
    pub fn new() -> (r: OpeningRun)
        ensures
            r.well_formed(),
            r.tried == 0,
    {
        OpeningRun { settings: vec![Setting::Polling, Setting::Hide, Setting::Audio], tried: 0 }
    }

    /// The setting that is tried next.
    pub fn next_setting(&self) -> (r: Option<Setting>)
        requires
            self.well_formed(),
        ensures
            r == self.pending(),
    {
        if self.tried < self.settings.len() {
            Some(self.settings[self.tried])
        } else {
            None
        }
    }

    /// Takes in how the making of the next setting went, and goes on to the one behind it. Gives a
    /// warning where the setting could not be made.
    pub fn record(&mut self, outcome: Result<(), String>) -> (warning: Option<String>)
        requires
            old(self).well_formed(),
            old(self).pending() is Some,
        ensures
            final(self).well_formed(),
            final(self).tried == old(self).tried + 1,
            warning is Some <==> outcome is Err,
            outcome matches Err(message) ==> text_of(warning) == Some(
                opening_failure(old(self).pending()->0) + message@,
            ),
    {
        let setting = self.settings[self.tried];
        self.tried = self.tried + 1;
        match outcome {
            Ok(_) => None,
            Err(message) => {
                let mut warning = match setting {
                    Setting::Polling => "apply polling override failed: ".to_owned(),
                    Setting::Hide => "apply physical hide setting failed: ".to_owned(),
                    Setting::Audio => "apply controller audio setting failed: ".to_owned(),
                };
                warning.append(message.as_str());
                Some(warning)
            },
        }
    }
}

/// One of the two sticks.
#[derive(Debug, Clone, Copy, PartialEq, Eq, Structural)]
pub enum Side {
    /// The left one.
    Left,
    /// The right one.
    Right,
}

/// The stick that `axis` belongs to.
pub open spec fn side_of(axis: u16) -> Option<Side> {
    if axis == ABS_X || axis == ABS_Y {
        Some(Side::Left)
    } else if axis == ABS_RX || axis == ABS_RY {
        Some(Side::Right)
    } else {
        None
    }
}

/// What the physical controller shows once `axis` is at `value`. Triggers and directional pad
/// stay in their ranges.
pub open spec fn moved(raw: ControllerSample, axis: u16, value: i32) -> ControllerSample {
    if axis == ABS_X {
        ControllerSample { left: Stick2 { x: value, y: raw.left.y }, ..raw }
    } else if axis == ABS_Y {
        ControllerSample { left: Stick2 { x: raw.left.x, y: value }, ..raw }
    } else if axis == ABS_RX {
        ControllerSample { right: Stick2 { x: value, y: raw.right.y }, ..raw }
    } else if axis == ABS_RY {
        ControllerSample { right: Stick2 { x: raw.right.x, y: value }, ..raw }
    } else if axis == ABS_Z {
        ControllerSample { l2: bounded(value as int, 0, 255) as i32, ..raw }
    } else if axis == ABS_RZ {
        ControllerSample { r2: bounded(value as int, 0, 255) as i32, ..raw }
    } else if axis == ABS_HAT0X {
        ControllerSample { hat_x: bounded(value as int, -1, 1) as i32, ..raw }
    } else if axis == ABS_HAT0Y {
        ControllerSample { hat_y: bounded(value as int, -1, 1) as i32, ..raw }
    } else {
        raw
    }
}

/// Where the stick `side` stands.
pub open spec fn stick_of(sample: ControllerSample, side: Side) -> Stick2<i32> {
    match side {
        Side::Left => sample.left,
        Side::Right => sample.right,
    }
}

/// The sample with the stick `side` at `position`.
pub open spec fn with_stick(
    sample: ControllerSample,
    side: Side,
    position: Stick2<i32>,
) -> ControllerSample {
    match side {
        Side::Left => ControllerSample { left: position, ..sample },
        Side::Right => ControllerSample { right: position, ..sample },
    }
}

/// Where the virtual controller shows the stick `side` that stands at `raw`.
pub open spec fn side_shaped(profile: Profile, side: Side, raw: Stick2<i32>) -> Stick2<i32> {
    match side {
        Side::Left => shaped(raw, profile.left_stick, profile.enabled),
        Side::Right => shaped(raw, profile.right_stick, profile.enabled),
    }
}

/// The event that moves `axis` to `value`.
pub open spec fn axis_event(axis: u16, value: int) -> InputEvent {
    InputEvent { event_type: EV_ABS, code: axis, value: value as i32 }
}

/// The events that move the stick `side` to `position`: both axes, within their range.
pub open spec fn stick_events(side: Side, position: Stick2<i32>) -> Seq<InputEvent> {
    let x = bounded(position.x as int, -32768, 32767);
    let y = bounded(position.y as int, -32768, 32767);
    match side {
        Side::Left => seq![axis_event(ABS_X, x), axis_event(ABS_Y, y)],
        Side::Right => seq![axis_event(ABS_RX, x), axis_event(ABS_RY, y)],
    }
}

/// What the virtual controller shows once `axis` has moved: the stick that it belongs to where that
/// is shaped to, a trigger or the pad where it is.
pub open spec fn output_behind(
    output: ControllerSample,
    axis: u16,
    raw: ControllerSample,
    profile: Profile,
) -> ControllerSample {
    match side_of(axis) {
        Some(side) => with_stick(output, side, side_shaped(profile, side, stick_of(raw, side))),
        None => if axis == ABS_Z {
            ControllerSample { l2: raw.l2, ..output }
        } else if axis == ABS_RZ {
            ControllerSample { r2: raw.r2, ..output }
        } else if axis == ABS_HAT0X {
            ControllerSample { hat_x: raw.hat_x, ..output }
        } else if axis == ABS_HAT0Y {
            ControllerSample { hat_y: raw.hat_y, ..output }
        } else {
            output
        },
    }
}

/// The events that tell that `axis` has moved: both axes of a stick, or the one of a trigger or the
/// pad.
pub open spec fn events_behind(axis: u16, raw: ControllerSample, profile: Profile) -> Seq<
    InputEvent,
> {
    match side_of(axis) {
        Some(side) => stick_events(side, side_shaped(profile, side, stick_of(raw, side))),
        None => if axis == ABS_Z {
            seq![axis_event(axis, raw.l2 as int)]
        } else if axis == ABS_RZ {
            seq![axis_event(axis, raw.r2 as int)]
        } else if axis == ABS_HAT0X {
            seq![axis_event(axis, raw.hat_x as int)]
        } else if axis == ABS_HAT0Y {
            seq![axis_event(axis, raw.hat_y as int)]
        } else {
            Seq::empty()
        },
    }
}

/// Takes in that `axis` is at `value`.
pub fn update_axis(
    axis: u16,
    value: i32,
    raw: &mut ControllerSample,
    output: &mut ControllerSample,
    profile: &Profile,
    pending_events: &mut Vec<InputEvent>,
)
    ensures
        *final(raw) == moved(*old(raw), axis, value),
        *final(output) == output_behind(*old(output), axis, *final(raw), *profile),
        final(pending_events)@ == old(pending_events)@ + events_behind(
            axis,
            *final(raw),
            *profile,
        ),
        axis == ABS_X || axis == ABS_Y ==> *final(output) == (ControllerSample {
            left: shaped(final(raw).left, profile.left_stick, profile.enabled),
            ..*old(output)
        }),
        axis == ABS_RX || axis == ABS_RY ==> *final(output) == (ControllerSample {
            right: shaped(final(raw).right, profile.right_stick, profile.enabled),
            ..*old(output)
        }),
{
    let ghost events = pending_events@;
    if axis == ABS_X || axis == ABS_Y {
        if axis == ABS_X {
            raw.left.x = value;
        } else {
            raw.left.y = value;
        }
        let left = transform_left_stick(raw.left, profile);
        output.left = left;
        pending_events.push(abs_event(ABS_X, stick_axis_for_xbox(left.x)));
        pending_events.push(abs_event(ABS_Y, stick_axis_for_xbox(left.y)));
    } else if axis == ABS_RX || axis == ABS_RY {
        if axis == ABS_RX {
            raw.right.x = value;
        } else {
            raw.right.y = value;
        }
        let right = transform_right_stick(raw.right, profile);
        output.right = right;
        pending_events.push(abs_event(ABS_RX, stick_axis_for_xbox(right.x)));
        pending_events.push(abs_event(ABS_RY, stick_axis_for_xbox(right.y)));
    } else if axis == ABS_Z {
        raw.l2 = clamp(value, 0, 255);
        output.l2 = raw.l2;
        pending_events.push(abs_event(ABS_Z, output.l2));
    } else if axis == ABS_RZ {
        raw.r2 = clamp(value, 0, 255);
        output.r2 = raw.r2;
        pending_events.push(abs_event(ABS_RZ, output.r2));
    } else if axis == ABS_HAT0X {
        raw.hat_x = clamp(value, -1, 1);
        output.hat_x = raw.hat_x;
        pending_events.push(abs_event(ABS_HAT0X, output.hat_x));
    } else if axis == ABS_HAT0Y {
        raw.hat_y = clamp(value, -1, 1);
        output.hat_y = raw.hat_y;
        pending_events.push(abs_event(ABS_HAT0Y, output.hat_y));
    }
    assert(pending_events@ =~= events + events_behind(axis, *raw, *profile));
}

/// What an event calls for.
#[derive(Debug, Clone, Copy, PartialEq, Eq, Structural)]
pub enum EventStep {
    /// Nothing.
    Nothing,
    /// Sending the pending events.
    Emit,
    /// A word about lost events.
    Dropped,
}

/// The moving part of the remapper.
#[verifier::ext_equal]
pub struct Progress {
    /// What the physical controller reported last.
    pub raw: ControllerSample,
    /// What the virtual controller reported last.
    pub output: ControllerSample,
    /// Events that wait for the end of the report.
    pub pending: Seq<InputEvent>,
    /// Reports from the physical controller.
    pub input_count: int,
    /// Reports to the virtual controller.
    pub output_count: int,
}

/// The event is the end of a report.
pub open spec fn ends_a_report(summary: EventSummary) -> bool {
    summary matches EventSummary::Synchronization(code, _) && code == SYN_REPORT
}

impl Progress {
    /// The events that wait, behind those that wait already, once an event about `summary` is taken
    /// in; the end of a report and lost events make none wait.
    pub open spec fn queued(self, profile: Profile, summary: EventSummary) -> Seq<InputEvent> {
        match summary {
            EventSummary::AbsoluteAxis(axis, value) => events_behind(
                axis,
                moved(self.raw, axis, value),
                profile,
            ),
            EventSummary::Key(key, value) => if gamepad_buttons().contains(key) {
                seq![InputEvent { event_type: EV_KEY, code: xbox_key(key), value }]
            } else {
                Seq::empty()
            },
            _ => Seq::empty(),
        }
    }

    /// Behind an event about `summary`, and what the event calls for.
    pub open spec fn step(self, profile: Profile, summary: EventSummary) -> (Progress, EventStep) {
        let pending = self.pending + self.queued(profile, summary);
        match summary {
            EventSummary::AbsoluteAxis(axis, value) => {
                let raw = moved(self.raw, axis, value);
                let output = output_behind(self.output, axis, raw, profile);
                (Progress { raw, output, pending, ..self }, EventStep::Nothing)
            },
            EventSummary::Key(_, _) => (Progress { pending, ..self }, EventStep::Nothing),
            EventSummary::Synchronization(code, _) => if code == SYN_REPORT {
                (
                    Progress { input_count: self.input_count + 1, ..self },
                    if self.pending.len() > 0 {
                        EventStep::Emit
                    } else {
                        EventStep::Nothing
                    },
                )
            } else if code == SYN_DROPPED {
                (Progress { pending: Seq::empty(), ..self }, EventStep::Dropped)
            } else {
                (self, EventStep::Nothing)
            },
            EventSummary::Other => (self, EventStep::Nothing),
        }
    }

    /// Behind the sending of the pending events.
    pub open spec fn emitted(self) -> Progress {
        Progress { pending: Seq::empty(), output_count: self.output_count + 1, ..self }
    }

    /// Triggers and directional pads are in range, both controllers agree on them, and the
    /// virtual controller can send every pending event.
    pub open spec fn is_sound(self) -> bool {
        &&& 0 <= self.raw.l2 <= 255
        &&& 0 <= self.raw.r2 <= 255
        &&& -1 <= self.raw.hat_x <= 1
        &&& -1 <= self.raw.hat_y <= 1
        &&& self.output.l2 == self.raw.l2
        &&& self.output.r2 == self.raw.r2
        &&& self.output.hat_x == self.raw.hat_x
        &&& self.output.hat_y == self.raw.hat_y
        &&& forall|i: int| 0 <= i < self.pending.len() ==> is_offered(#[trigger] self.pending[i])
    }
}

/// What the choice of a controller calls for.
#[derive(Debug, PartialEq)]
pub enum Selection {
    /// Nothing: the controller in use is the one to use.
    Unchanged,
    /// Letting go of the controller in use; there is no other.
    Gone,
    /// Letting go of the controller in use, and opening another, for which these settings are
    /// made.
    Open(SettingContext),
}

/// The remapper.
#[derive(Debug, PartialEq)]
pub struct Remapper {
    /// The profile, as last looked at.
    pub profile: Profile,
    /// The user who uses the controller, as last looked at.
    pub target_user: String,
    /// What the physical controller reported last.
    pub raw: ControllerSample,
    /// What the virtual controller reported last.
    pub output: ControllerSample,
    /// The node of the controller in use.
    pub current_path: Option<String>,
    /// Whether the controller in use is open.
    pub device_open: bool,
    /// The node of the virtual controller.
    pub virtual_path: Option<String>,
    /// The controllers.
    pub devices: Vec<InputDeviceInfo>,
    /// Reports from the physical controller since the last tick.
    pub input_count: u32,
    /// Reports to the virtual controller since the last tick.
    pub output_count: u32,
    /// Events that wait for the end of the report.
    pub pending: Vec<InputEvent>,
}

impl Remapper {
    /// The moving part.
    pub open spec fn progress(self) -> Progress {
        Progress {
            raw: self.raw,
            output: self.output,
            pending: self.pending@,
            input_count: self.input_count as int,
            output_count: self.output_count as int,
        }
    }

    /// The moving part is sound, and only a controller in use is open.
    pub open spec fn well_formed(self) -> bool {
        &&& self.progress().is_sound()
        &&& self.device_open ==> self.current_path is Some
    }

    /// Apart from the moving part the two are the same.
    pub open spec fn same_setup(self, other: Remapper) -> bool {
        &&& self.profile == other.profile
        &&& self.target_user == other.target_user
        &&& self.current_path == other.current_path
        &&& self.device_open == other.device_open
        &&& self.virtual_path == other.virtual_path
        &&& self.devices == other.devices
    }

    /// A remapper that has seen nothing yet.
    pub fn new(profile: Profile, target_user: String, virtual_path: Option<String>) -> (r: Remapper)
        ensures
            r.well_formed(),
            r.profile == profile,
            r.target_user == target_user,
            r.virtual_path == virtual_path,
            r.current_path is None,
            !r.device_open,
            r.devices@ == Seq::<InputDeviceInfo>::empty(),
            r.progress() == (Progress {
                raw: ControllerSample::zero(),
                output: ControllerSample::zero(),
                pending: Seq::empty(),
                input_count: 0,
                output_count: 0,
            }),
    {
        Remapper {
            profile,
            target_user,
            raw: ControllerSample::default(),
            output: ControllerSample::default(),
            current_path: None,
            device_open: false,
            virtual_path,
            devices: Vec::new(),
            input_count: 0,
            output_count: 0,
            pending: Vec::new(),
        }
    }

    /// Looks at the configuration.
    pub fn sync(&mut self, state: &SharedState)
        requires
            old(self).well_formed(),
        ensures
            final(self).well_formed(),
            final(self).progress() == old(self).progress(),
            final(self).same_setup(
                Remapper {
                    profile: state.config.profile,
                    target_user: state.config.target_user,
                    ..*old(self)
                },
            ),
    {
        self.profile = state.config.profile.clone();
        self.target_user = state.config.target_user.clone();
    }

    /// Whether it is time to look for controllers: none is open, and either none is known or the
    /// last look is long enough ago.
    pub fn scan_due(&self, since_scan_ms: u64) -> (r: bool)
        ensures
            r == (!self.device_open && (self.devices@.len() == 0 || since_scan_ms >= 1000)),
    {
        !self.device_open && (self.devices.is_empty() || since_scan_ms >= DEVICE_SCAN_MS)
    }

    /// How long to rest before going on, in milliseconds: not at all while a controller is open.
    pub fn pause_ms(&self) -> (r: u64)
        ensures
            r == if self.device_open {
                0u64
            } else {
                250u64
            },
    {
        if self.device_open {
            0
        } else {
            IDLE_MS
        }
    }

    /// Takes in the controllers that were found.
    pub fn scanned(&mut self, devices: Vec<InputDeviceInfo>)
        requires
            old(self).well_formed(),
        ensures
            final(self).well_formed(),
            final(self).progress() == old(self).progress(),
            final(self).same_setup(Remapper { devices, ..*old(self) }),
    {
        self.devices = devices;
    }

    /// The path of the controller to use.
    pub open spec fn wanted(self) -> Option<Seq<char>> {
        selected_path(self.profile, self.devices@)
    }

    /// Chooses the controller to use. Where it is another than the one in use, that one is let
    /// go, and what it reported but did not complete is forgotten.
    pub fn select(&mut self) -> (r: Selection)
        requires
            old(self).well_formed(),
        ensures
            final(self).well_formed(),
            old(self).wanted() == text_of(old(self).current_path) ==> r is Unchanged
                && *final(self) == *old(self),
            old(self).wanted() != text_of(old(self).current_path) ==> {
                &&& text_of(final(self).current_path) == old(self).wanted()
                &&& !final(self).device_open
                &&& final(self).progress() == (Progress {
                    pending: Seq::empty(),
                    ..old(self).progress()
                })
                &&& final(self).same_setup(
                    Remapper {
                        current_path: final(self).current_path,
                        device_open: false,
                        ..*old(self)
                    },
                )
                &&& old(self).wanted() is None ==> r is Gone
                &&& old(self).wanted() is Some ==> (r matches Selection::Open(context)
                    && context.profile == old(self).profile && context.target_user == old(
                    self,
                ).target_user && context.selected is Some && context.selected == selected_device(
                    text_of(old(self).profile.selected_device_path),
                    old(self).devices@,
                ))
            },
    {
        let selected = selected_device_for_profile(&self.profile, self.devices.as_slice());
        let wanted = match &selected {
            Some(device) => Some(device.path.clone()),
            None => None,
        };
        assert(text_of(wanted) == self.wanted());
        if same_optional(&wanted, &self.current_path) {
            return Selection::Unchanged;
        }
        self.device_open = false;
        self.pending.clear();
        self.current_path = wanted;
        match selected {
            Some(device) => Selection::Open(
                SettingContext {
                    profile: self.profile.clone(),
                    selected: Some(device),
                    target_user: self.target_user.clone(),
                },
            ),
            None => Selection::Gone,
        }
    }

    /// Takes in that the controller to use is open.
    pub fn opened(&mut self)
        requires
            old(self).well_formed(),
            old(self).current_path is Some,
        ensures
            final(self).well_formed(),
            final(self).progress() == old(self).progress(),
            final(self).same_setup(Remapper { device_open: true, ..*old(self) }),
    {
        self.device_open = true;
    }

    /// Takes in an event of the controller in use.
    pub fn handle_event(&mut self, event_type: u16, code: u16, value: i32) -> (r: EventStep)
        requires
            old(self).well_formed(),
            ends_a_report(summary_of(event_type, code, value)) ==> old(self).input_count
                < u32::MAX,
        ensures
            final(self).well_formed(),
            (final(self).progress(), r) == old(self).progress().step(
                old(self).profile,
                summary_of(event_type, code, value),
            ),
            final(self).same_setup(*old(self)),
    {
        let ghost before = self.progress();
        let summary = destructure(event_type, code, value);
        proof {
            lemma_steps_stay_sound(before, self.profile, summary);
        }
        let step = match summary {
            EventSummary::AbsoluteAxis(axis, value) => {
                update_axis(
                    axis,
                    value,
                    &mut self.raw,
                    &mut self.output,
                    &self.profile,
                    &mut self.pending,
                );
                EventStep::Nothing
            },
            EventSummary::Key(key, value) => {
                if is_gamepad_button(key) {
                    self.pending.push(
                        InputEvent { event_type: EV_KEY, code: output_key_for_xbox(key), value },
                    );
                }
                EventStep::Nothing
            },
            EventSummary::Synchronization(code, _) => {
                if code == SYN_REPORT {
                    self.input_count = self.input_count + 1;
                    if self.pending.is_empty() {
                        EventStep::Nothing
                    } else {
                        EventStep::Emit
                    }
                } else if code == SYN_DROPPED {
                    self.pending.clear();
                    EventStep::Dropped
                } else {
                    EventStep::Nothing
                }
            },
            EventSummary::Other => EventStep::Nothing,
        };
        assert(self.progress() =~= before.step(self.profile, summary).0);
        step
    }

    /// Takes in that the pending events were sent.
    pub fn events_emitted(&mut self)
        requires
            old(self).well_formed(),
            old(self).output_count < u32::MAX,
        ensures
            final(self).well_formed(),
            final(self).progress() == old(self).progress().emitted(),
            final(self).same_setup(*old(self)),
    {
        self.pending.clear();
        self.output_count = self.output_count + 1;
    }

    /// Takes in that the controller in use cannot be read any more; tells what went wrong.
    pub fn read_failed(&mut self, error: &str) -> (message: String)
        requires
            old(self).well_formed(),
        ensures
            final(self).well_formed(),
            final(self).progress() == old(self).progress(),
            final(self).same_setup(
                Remapper { current_path: None, device_open: false, ..*old(self) },
            ),
            message@ == "read "@ + (match old(self).current_path {
                Some(path) => path@,
                None => "?"@,
            }) + " failed: "@ + error@,
    {
        let mut message = "read ".to_owned();
        match &self.current_path {
            Some(path) => {
                message.append(path.as_str());
            },
            None => {
                message.append("?");
            },
        }
        message.append(" failed: ");
        message.append(error);
        self.device_open = false;
        self.current_path = None;
        message
    }

    /// The reports a second in the `elapsed` seconds since the last tick, from the physical
    /// controller and to the virtual one; the counting starts again.
    pub fn take_rates(&mut self, elapsed: Single) -> (r: (Single, Single))
        requires
            old(self).well_formed(),
        ensures
            final(self).well_formed(),
            r.0 == integer(old(self).input_count as int).quotient(elapsed),
            r.1 == integer(old(self).output_count as int).quotient(elapsed),
            final(self).progress() == (Progress {
                input_count: 0,
                output_count: 0,
                ..old(self).progress()
            }),
            final(self).same_setup(*old(self)),
    {
        let input_hz = Single::from_integer(self.input_count as i64).over(elapsed);
        let output_hz = Single::from_integer(self.output_count as i64).over(elapsed);
        self.input_count = 0;
        self.output_count = 0;
        (input_hz, output_hz)
    }

    /// Takes in the node of the virtual controller, once it is known.
    pub fn virtual_device_at(&mut self, virtual_path: Option<String>)
        requires
            old(self).well_formed(),
        ensures
            final(self).well_formed(),
            final(self).progress() == old(self).progress(),
            final(self).same_setup(Remapper { virtual_path, ..*old(self) }),
    {
        self.virtual_path = virtual_path;
    }

    /// Tells the state: what both controllers reported last, and how they are set up.
    pub fn publish_status(&self, state: &mut SharedState)
        ensures
            final(state).config == old(state).config,
            final(state).devices == old(state).devices,
            final(state).raw == self.raw,
            final(state).output == self.output,
            final(state).metrics == (Metrics {
                virtual_path: self.virtual_path,
                physical_hidden: self.profile.hide_physical,
                controller_audio_disabled: self.profile.disable_controller_audio,
                ..old(state).metrics
            }),
    {
        state.raw = self.raw;
        state.output = self.output;
        state.metrics.virtual_path = self.virtual_path.clone();
        state.metrics.physical_hidden = self.profile.hide_physical;
        state.metrics.controller_audio_disabled = self.profile.disable_controller_audio;
    }

    /// Tells that the controller at `path` is open.
    pub fn publish_opened(&self, metrics: &mut Metrics, path: String, hidraw_path: Option<String>)
        ensures
            *final(metrics) == (Metrics {
                physical_path: Some(path),
                hidraw_path,
                virtual_path: self.virtual_path,
                physical_hidden: self.profile.hide_physical,
                controller_audio_disabled: self.profile.disable_controller_audio,
                last_error: None,
                ..*old(metrics)
            }),
    {
        metrics.physical_path = Some(path);
        metrics.hidraw_path = hidraw_path;
        metrics.virtual_path = self.virtual_path.clone();
        metrics.physical_hidden = self.profile.hide_physical;
        metrics.controller_audio_disabled = self.profile.disable_controller_audio;
        metrics.last_error = None;
    }
}

/// Tells that there is no controller.
pub fn publish_gone(metrics: &mut Metrics)
    ensures
        *final(metrics) == (Metrics { physical_path: None, hidraw_path: None, ..*old(metrics) }),
{
    metrics.physical_path = None;
    metrics.hidraw_path = None;
}

/// Tells that the controller cannot be opened.
pub fn publish_open_failed(metrics: &mut Metrics, message: String)
    ensures
        *final(metrics) == (Metrics {
            physical_path: None,
            hidraw_path: None,
            last_error: Some(message),
            ..*old(metrics)
        }),
{
    metrics.physical_path = None;
    metrics.hidraw_path = None;
    metrics.last_error = Some(message);
}

/// Tells that the controller cannot be read.
pub fn publish_read_failed(metrics: &mut Metrics, message: String)
    ensures
        *final(metrics) == (Metrics { last_error: Some(message), ..*old(metrics) }),
{
    metrics.last_error = Some(message);
}

/// Tells the reports a second; whoever counts them runs.
pub fn publish_rates(metrics: &mut Metrics, input_hz: Single, output_hz: Single)
    ensures
        *final(metrics) == (Metrics { input_hz, output_hz, running: true, ..*old(metrics) }),
{
    metrics.input_hz = input_hz;
    metrics.output_hz = output_hz;
    metrics.running = true;
}

/// The virtual controller can send what moves a stick.
proof fn lemma_stick_events_offered(side: Side, position: Stick2<i32>)
    ensures
        forall|i: int|
            0 <= i < stick_events(side, position).len() ==> is_offered(
                #[trigger] stick_events(side, position)[i],
            ),
{
    assert(axis_setups()[0].axis == ABS_X);
    assert(axis_setups()[1].axis == ABS_Y);
    assert(axis_setups()[2].axis == ABS_RX);
    assert(axis_setups()[3].axis == ABS_RY);
}

/// The virtual controller can send what an event makes wait.
proof fn lemma_queued_offered(progress: Progress, profile: Profile, summary: EventSummary)
    requires
        progress.is_sound(),
    ensures
        forall|i: int|
            0 <= i < progress.queued(profile, summary).len() ==> is_offered(
                #[trigger] progress.queued(profile, summary)[i],
            ),
{
    match summary {
        EventSummary::AbsoluteAxis(axis, value) => {
            let raw = moved(progress.raw, axis, value);
            if let Some(side) = side_of(axis) {
                lemma_stick_events_offered(side, side_shaped(profile, side, stick_of(raw, side)));
            } else {
                assert(axis_setups()[4].axis == ABS_Z);
                assert(axis_setups()[5].axis == ABS_RZ);
                assert(axis_setups()[6].axis == ABS_HAT0X);
                assert(axis_setups()[7].axis == ABS_HAT0Y);
            }
        },
        EventSummary::Key(key, value) => {
            shown_buttons_are_offered(key, key);
        },
        _ => {},
    }
}

/// Every event keeps the moving part sound.
pub proof fn lemma_steps_stay_sound(progress: Progress, profile: Profile, summary: EventSummary)
    requires
        progress.is_sound(),
    ensures
        progress.step(profile, summary).0.is_sound(),
{
    let after = progress.step(profile, summary).0;
    let more = progress.queued(profile, summary);
    lemma_queued_offered(progress, profile, summary);
    assert forall|i: int| 0 <= i < after.pending.len() implies is_offered(
        #[trigger] after.pending[i],
    ) by {
        if i < progress.pending.len() {
            assert(after.pending[i] == progress.pending[i]);
        } else {
            assert(after.pending[i] == more[i - progress.pending.len()]);
        }
    }
}

/// What an event called for is done.
pub open spec fn settled(progress: Progress, step: EventStep) -> Progress {
    match step {
        EventStep::Emit => progress.emitted(),
        _ => progress,
    }
}

/// Behind one event after the other, with all that they call for done.
pub open spec fn run_events(
    progress: Progress,
    profile: Profile,
    events: Seq<EventSummary>,
) -> Progress
    decreases events.len(),
{
    if events.len() == 0 {
        progress
    } else {
        let (next, step) = progress.step(profile, events[0]);
        run_events(settled(next, step), profile, events.drop_first())
    }
}

/// The reports that are sent to the virtual controller behind one event after the other.
pub open spec fn reports_sent(
    progress: Progress,
    profile: Profile,
    events: Seq<EventSummary>,
) -> Seq<Seq<InputEvent>>
    decreases events.len(),
{
    if events.len() == 0 {
        Seq::empty()
    } else {
        let (next, step) = progress.step(profile, events[0]);
        let later = reports_sent(settled(next, step), profile, events.drop_first());
        if step == EventStep::Emit {
            seq![next.pending] + later
        } else {
            later
        }
    }
}

/// All that one event after the other makes wait, in the order of the events.
pub open spec fn queued_by(
    progress: Progress,
    profile: Profile,
    events: Seq<EventSummary>,
) -> Seq<InputEvent>
    decreases events.len(),
{
    if events.len() == 0 {
        Seq::empty()
    } else {
        progress.queued(profile, events[0]) + queued_by(
            progress.step(profile, events[0]).0,
            profile,
            events.drop_first(),
        )
    }
}

/// However a controller is moved, the virtual controller is only ever given events that it can
/// send, and both agree on triggers and directional pad.
pub proof fn every_run_stays_sound(
    progress: Progress,
    profile: Profile,
    events: Seq<EventSummary>,
)
    requires
        progress.is_sound(),
    ensures
        run_events(progress, profile, events).is_sound(),
    decreases events.len(),
{
    if events.len() > 0 {
        let (next, step) = progress.step(profile, events[0]);
        lemma_steps_stay_sound(progress, profile, events[0]);
        every_run_stays_sound(settled(next, step), profile, events.drop_first());
    }
}

/// The event neither ends a report nor tells that events were lost.
pub open spec fn is_within_a_report(summary: EventSummary) -> bool {
    summary matches EventSummary::Synchronization(code, _) ==> code != SYN_REPORT && code
        != SYN_DROPPED
}

/// Events within a report make wait what each of them does, in their order, and nothing is sent.
pub proof fn events_wait_in_their_order(
    progress: Progress,
    profile: Profile,
    events: Seq<EventSummary>,
)
    requires
        forall|i: int| 0 <= i < events.len() ==> is_within_a_report(#[trigger] events[i]),
    ensures
        run_events(progress, profile, events).pending == progress.pending + queued_by(
            progress,
            profile,
            events,
        ),
        reports_sent(progress, profile, events) == Seq::<Seq<InputEvent>>::empty(),
    decreases events.len(),
{
    if events.len() > 0 {
        assert(is_within_a_report(events[0]));
        let (next, step) = progress.step(profile, events[0]);
        let rest = events.drop_first();
        assert forall|i: int| 0 <= i < rest.len() implies is_within_a_report(#[trigger] rest[i]) by {
            assert(rest[i] == events[i + 1]);
        }
        events_wait_in_their_order(next, profile, rest);
        assert(next.pending =~= progress.pending + progress.queued(profile, events[0]));
    }
    assert(run_events(progress, profile, events).pending =~= progress.pending + queued_by(
        progress,
        profile,
        events,
    ));
}

/// The end of a report sends all that waits as one report, in the order in which it came, or
/// nothing where nothing waits; lost events take all that waits with them. Behind both nothing
/// waits.
pub proof fn reports_are_sent_whole(
    progress: Progress,
    profile: Profile,
    events: Seq<EventSummary>,
    value: i32,
)
    requires
        forall|i: int| 0 <= i < events.len() ==> is_within_a_report(#[trigger] events[i]),
    ensures
        ({
            let end = events.push(EventSummary::Synchronization(SYN_REPORT, value));
            let waiting = progress.pending + queued_by(progress, profile, events);
            &&& reports_sent(progress, profile, end) == if waiting.len() > 0 {
                seq![waiting]
            } else {
                Seq::empty()
            }
            &&& run_events(progress, profile, end).pending.len() == 0
        }),
        ({
            let end = events.push(EventSummary::Synchronization(SYN_DROPPED, value));
            &&& reports_sent(progress, profile, end) == Seq::<Seq<InputEvent>>::empty()
            &&& run_events(progress, profile, end).pending.len() == 0
        }),
{
    events_wait_in_their_order(progress, profile, events);
    let (report, lost) = (
        EventSummary::Synchronization(SYN_REPORT, value),
        EventSummary::Synchronization(SYN_DROPPED, value),
    );
    lemma_last_event(progress, profile, events, report);
    lemma_last_event(progress, profile, events, lost);
}

/// A run is what is in front of its last event, and that event.
proof fn lemma_last_event(
    progress: Progress,
    profile: Profile,
    events: Seq<EventSummary>,
    last: EventSummary,
)
    ensures
        ({
            let before = run_events(progress, profile, events);
            let (next, step) = before.step(profile, last);
            &&& run_events(progress, profile, events.push(last)) == settled(next, step)
            &&& reports_sent(progress, profile, events.push(last)) == reports_sent(
                progress,
                profile,
                events,
            ) + if step == EventStep::Emit {
                seq![next.pending]
            } else {
                Seq::empty()
            }
        }),
    decreases events.len(),
{
    let all = events.push(last);
    if events.len() == 0 {
        assert(all.drop_first() =~= Seq::<EventSummary>::empty());
        let (next, step) = progress.step(profile, last);
        reveal_with_fuel(run_events, 2);
        reveal_with_fuel(reports_sent, 2);
        assert(all[0] == last);
        assert(seq![next.pending] + Seq::<Seq<InputEvent>>::empty() =~= seq![next.pending]);
        assert(Seq::<Seq<InputEvent>>::empty() + seq![next.pending] =~= seq![next.pending]);
        assert(Seq::<Seq<InputEvent>>::empty() + Seq::<Seq<InputEvent>>::empty() =~= Seq::<
            Seq<InputEvent>,
        >::empty());
    } else {
        assert(all.drop_first() =~= events.drop_first().push(last));
        assert(all[0] == events[0]);
        let (next, step) = progress.step(profile, events[0]);
        lemma_last_event(settled(next, step), profile, events.drop_first(), last);
        let before = run_events(progress, profile, events);
        let (after, last_step) = before.step(profile, last);
        let tail = if last_step == EventStep::Emit {
            seq![after.pending]
        } else {
            Seq::<Seq<InputEvent>>::empty()
        };
        let later = reports_sent(settled(next, step), profile, events.drop_first());
        assert((seq![next.pending] + later) + tail =~= seq![next.pending] + (later + tail));
    }
}

/// With shaping switched off, moving a stick shows it where it is.
pub proof fn unshaped_sticks_pass_through(
    progress: Progress,
    profile: Profile,
    axis: u16,
    value: i32,
)
    requires
        !profile.enabled,
        side_of(axis) is Some,
    ensures
        ({
            let next = progress.step(profile, EventSummary::AbsoluteAxis(axis, value)).0;
            let side = side_of(axis)->0;
            &&& stick_of(next.output, side) == unshaped(stick_of(next.raw, side))
            &&& next.raw == moved(progress.raw, axis, value)
        }),
{
}

/// A stick moves on its own: the other stick, the triggers and the pad stay. Both its axes are
/// sent, at the values at which it is shown.
pub proof fn sticks_move_on_their_own(
    progress: Progress,
    profile: Profile,
    axis: u16,
    value: i32,
)
    requires
        side_of(axis) is Some,
    ensures
        ({
            let side = side_of(axis)->0;
            let next = progress.step(profile, EventSummary::AbsoluteAxis(axis, value)).0;
            let shown = stick_of(next.output, side);
            &&& next.output == with_stick(progress.output, side, shown)
            &&& next.raw == moved(progress.raw, axis, value)
            &&& next.pending == progress.pending + stick_events(side, shown)
            &&& -32768 <= shown.x <= 32767
            &&& -32768 <= shown.y <= 32767
        }),
{
    let side = side_of(axis)->0;
    let raw = stick_of(moved(progress.raw, axis, value), side);
    let stick = match side {
        Side::Left => profile.left_stick,
        Side::Right => profile.right_stick,
    };
    sticks_are_shown_within_the_range(raw, stick, profile.enabled);
}

} // verus!
