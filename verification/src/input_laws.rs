//! What holds of the way from the events of the physical controller to those of the virtual one.
use vstd::prelude::*;

#[allow(unused_imports)]
use crate::daemon::Setting;
#[allow(unused_imports)]
use crate::input::{
    axis_setups, gamepad_buttons, is_offered, summary_of, xbox_key, EventSummary, InputEvent,
};
#[allow(unused_imports)]
use crate::profile::Profile;
#[allow(unused_imports)]
use crate::remap::{
    ends_a_report, is_within_a_report, opening_failure, opening_settings, settled, EventStep,
    OpeningRun, Progress, Remapper,
};
#[allow(unused_imports)]
use crate::shape::shaped;
#[allow(unused_imports)]
use crate::shape_laws::sticks_are_shown_within_the_range;
#[allow(unused_imports)]
use crate::stick::{bounded, ControllerSample, Stick2};

verus! {

/// Only the upper and the left button of the right hand change places; every other button is shown
/// as itself.
pub proof fn other_buttons_are_shown_as_themselves(key: u16)
    ensures
        key != 0x133 && key != 0x134 ==> xbox_key(key) == key,
        xbox_key(0x133) == 0x134,
        xbox_key(0x134) == 0x133,
{
}

/// The buttons of a game pad are those of the right hand, the shoulders, the triggers, the middle
/// and the sticks.
pub proof fn buttons_have_their_codes(key: u16)
    ensures
        gamepad_buttons().contains(key) <==> {
            ||| key == 0x130 || key == 0x131 || key == 0x133 || key == 0x134
            ||| 0x136 <= key <= 0x13e
        },
        gamepad_buttons().no_duplicates(),
{
    let buttons = gamepad_buttons();
    assert(buttons[0] == 0x130 && buttons[1] == 0x131 && buttons[2] == 0x133 && buttons[3]
        == 0x134);
    assert(buttons[4] == 0x136 && buttons[5] == 0x137 && buttons[6] == 0x138 && buttons[7]
        == 0x139);
    assert(buttons[8] == 0x13a && buttons[9] == 0x13b && buttons[10] == 0x13c);
    assert(buttons[11] == 0x13d && buttons[12] == 0x13e);
}

/// The event moves an axis of the virtual controller within its range: a stick from -32768 to
/// 32767, a trigger from 0 to 255, a directional pad from -1 to 1.
pub open spec fn moves_within_range(event: InputEvent) -> bool {
    ||| (event.code == 0 || event.code == 1 || event.code == 3 || event.code == 4) && -32768
        <= event.value <= 32767
    ||| (event.code == 2 || event.code == 5) && 0 <= event.value <= 255
    ||| (event.code == 16 || event.code == 17) && -1 <= event.value <= 1
}

/// The virtual controller can send the buttons of a game pad, and its axes within their ranges, and
/// nothing else.
pub proof fn offered_events_are_buttons_and_axes_in_range(event: InputEvent)
    ensures
        is_offered(event) <==> {
            ||| event.event_type == 1 && gamepad_buttons().contains(event.code)
            ||| event.event_type == 3 && moves_within_range(event)
        },
{
    let axes = axis_setups();
    assert(axes[0].axis == 0 && axes[0].minimum == -32768 && axes[0].maximum == 32767);
    assert(axes[1].axis == 1 && axes[1].minimum == -32768 && axes[1].maximum == 32767);
    assert(axes[2].axis == 3 && axes[2].minimum == -32768 && axes[2].maximum == 32767);
    assert(axes[3].axis == 4 && axes[3].minimum == -32768 && axes[3].maximum == 32767);
    assert(axes[4].axis == 2 && axes[4].minimum == 0 && axes[4].maximum == 255);
    assert(axes[5].axis == 5 && axes[5].minimum == 0 && axes[5].maximum == 255);
    assert(axes[6].axis == 16 && axes[6].minimum == -1 && axes[6].maximum == 1);
    assert(axes[7].axis == 17 && axes[7].minimum == -1 && axes[7].maximum == 1);
}

/// The virtual controller has eight axes, each once. All rest at zero, and none is filtered, flat or
/// scaled.
pub proof fn axes_rest_at_zero(i: int)
    requires
        0 <= i < axis_setups().len(),
    ensures
        axis_setups().len() == 8,
        axis_setups()[i].value == 0,
        axis_setups()[i].fuzz == 0,
        axis_setups()[i].flat == 0,
        axis_setups()[i].resolution == 0,
        forall|j: int|
            0 <= j < 8 && #[trigger] axis_setups()[j].axis == axis_setups()[i].axis ==> i == j,
{
}

/// Events are told apart by their types: 0 ends or interrupts a report, 1 is a key, 3 an axis.
pub proof fn events_are_told_apart_by_their_types(event_type: u16, code: u16, value: i32)
    ensures
        ({
            let summary = summary_of(event_type, code, value);
            &&& summary == EventSummary::Synchronization(code, value) <==> event_type == 0
            &&& summary == EventSummary::Key(code, value) <==> event_type == 1
            &&& summary == EventSummary::AbsoluteAxis(code, value) <==> event_type == 3
            &&& summary == EventSummary::Other <==> event_type != 0 && event_type != 1 && event_type
                != 3
        }),
{
}

/// Moving an axis of a stick moves that stick of the physical controller along that axis, and
/// nothing else of it.
pub proof fn sticks_follow_their_axes(progress: Progress, profile: Profile, axis: u16, value: i32)
    ensures
        ({
            let before = progress.raw;
            let raw = progress.step(profile, EventSummary::AbsoluteAxis(axis, value)).0.raw;
            &&& axis == 0 ==> raw == ControllerSample {
                left: Stick2 { x: value, y: before.left.y },
                ..before
            }
            &&& axis == 1 ==> raw == ControllerSample {
                left: Stick2 { x: before.left.x, y: value },
                ..before
            }
            &&& axis == 3 ==> raw == ControllerSample {
                right: Stick2 { x: value, y: before.right.y },
                ..before
            }
            &&& axis == 4 ==> raw == ControllerSample {
                right: Stick2 { x: before.right.x, y: value },
                ..before
            }
        }),
{
}

/// Each stick is shaped by its own settings: behind an event of the left stick, that stick is shown
/// where its own settings shape it to, both its axes are sent, and nothing else is shown otherwise;
/// and likewise for the right stick.
pub proof fn sticks_are_shaped_by_their_own_settings(
    progress: Progress,
    profile: Profile,
    axis: u16,
    value: i32,
)
    ensures
        ({
            let (next, step) = progress.step(profile, EventSummary::AbsoluteAxis(axis, value));
            let left = shaped(next.raw.left, profile.left_stick, profile.enabled);
            let right = shaped(next.raw.right, profile.right_stick, profile.enabled);
            &&& step is Nothing
            &&& axis == 0 || axis == 1 ==> {
                &&& next.output == ControllerSample { left, ..progress.output }
                &&& next.pending == progress.pending.push(
                    InputEvent { event_type: 3, code: 0, value: left.x },
                ).push(InputEvent { event_type: 3, code: 1, value: left.y })
            }
            &&& axis == 3 || axis == 4 ==> {
                &&& next.output == ControllerSample { right, ..progress.output }
                &&& next.pending == progress.pending.push(
                    InputEvent { event_type: 3, code: 3, value: right.x },
                ).push(InputEvent { event_type: 3, code: 4, value: right.y })
            }
        }),
{
    let next = progress.step(profile, EventSummary::AbsoluteAxis(axis, value)).0;
    let left = shaped(next.raw.left, profile.left_stick, profile.enabled);
    let right = shaped(next.raw.right, profile.right_stick, profile.enabled);
    sticks_are_shown_within_the_range(next.raw.left, profile.left_stick, profile.enabled);
    sticks_are_shown_within_the_range(next.raw.right, profile.right_stick, profile.enabled);
    if axis == 0 || axis == 1 {
        assert(next.pending =~= progress.pending.push(
            InputEvent { event_type: 3, code: 0, value: left.x },
        ).push(InputEvent { event_type: 3, code: 1, value: left.y }));
    }
    if axis == 3 || axis == 4 {
        assert(next.pending =~= progress.pending.push(
            InputEvent { event_type: 3, code: 3, value: right.x },
        ).push(InputEvent { event_type: 3, code: 4, value: right.y }));
    }
}

/// The settings of one stick make no difference to the other.
pub proof fn sticks_do_not_share_settings(
    progress: Progress,
    one: Profile,
    other: Profile,
    axis: u16,
    value: i32,
)
    requires
        one.enabled == other.enabled,
        axis == 0 || axis == 1 ==> one.left_stick == other.left_stick,
        axis == 3 || axis == 4 ==> one.right_stick == other.right_stick,
    ensures
        progress.step(one, EventSummary::AbsoluteAxis(axis, value)) == progress.step(
            other,
            EventSummary::AbsoluteAxis(axis, value),
        ),
{
}

/// Triggers and directional pad are shown where they are, bounded by their ranges, and each of them
/// is sent and changes alone.
pub proof fn triggers_and_pads_are_shown_where_they_are(
    progress: Progress,
    profile: Profile,
    axis: u16,
    value: i32,
)
    ensures
        ({
            let next = progress.step(profile, EventSummary::AbsoluteAxis(axis, value)).0;
            let trigger = if value < 0 {
                0i32
            } else if value > 255 {
                255i32
            } else {
                value
            };
            let pad = if value < -1 {
                -1i32
            } else if value > 1 {
                1i32
            } else {
                value
            };
            &&& axis == 2 ==> {
                &&& next.raw == ControllerSample { l2: trigger, ..progress.raw }
                &&& next.output == ControllerSample { l2: trigger, ..progress.output }
            }
            &&& axis == 5 ==> {
                &&& next.raw == ControllerSample { r2: trigger, ..progress.raw }
                &&& next.output == ControllerSample { r2: trigger, ..progress.output }
            }
            &&& axis == 16 ==> {
                &&& next.raw == ControllerSample { hat_x: pad, ..progress.raw }
                &&& next.output == ControllerSample { hat_x: pad, ..progress.output }
            }
            &&& axis == 17 ==> {
                &&& next.raw == ControllerSample { hat_y: pad, ..progress.raw }
                &&& next.output == ControllerSample { hat_y: pad, ..progress.output }
            }
            &&& axis == 2 || axis == 5 ==> next.pending == progress.pending.push(
                InputEvent { event_type: 3, code: axis, value: trigger },
            )
            &&& axis == 16 || axis == 17 ==> next.pending == progress.pending.push(
                InputEvent { event_type: 3, code: axis, value: pad },
            )
        }),
{
    let next = progress.step(profile, EventSummary::AbsoluteAxis(axis, value)).0;
    if axis == 2 || axis == 5 {
        assert(next.pending =~= progress.pending.push(
            InputEvent {
                event_type: 3,
                code: axis,
                value: if value < 0 {
                    0i32
                } else if value > 255 {
                    255i32
                } else {
                    value
                },
            },
        ));
    }
    if axis == 16 || axis == 17 {
        assert(next.pending =~= progress.pending.push(
            InputEvent {
                event_type: 3,
                code: axis,
                value: if value < -1 {
                    -1i32
                } else if value > 1 {
                    1i32
                } else {
                    value
                },
            },
        ));
    }
}

/// Axes that a game pad does not have change nothing.
pub proof fn unknown_axes_change_nothing(
    progress: Progress,
    profile: Profile,
    axis: u16,
    value: i32,
)
    requires
        axis > 5,
        axis != 16 && axis != 17,
    ensures
        progress.step(profile, EventSummary::AbsoluteAxis(axis, value)) == (
            progress,
            EventStep::Nothing,
        ),
{
    let next = progress.step(profile, EventSummary::AbsoluteAxis(axis, value)).0;
    assert(next.pending =~= progress.pending);
}

/// A button is sent with the state that it has, as the button that it is shown as; other keys are
/// not sent. No key moves anything.
pub proof fn buttons_are_sent_as_they_are_shown(
    progress: Progress,
    profile: Profile,
    key: u16,
    value: i32,
)
    ensures
        ({
            let (next, step) = progress.step(profile, EventSummary::Key(key, value));
            let shown = if key == 0x133 {
                0x134u16
            } else if key == 0x134 {
                0x133u16
            } else {
                key
            };
            &&& step is Nothing
            &&& next == Progress { pending: next.pending, ..progress }
            &&& gamepad_buttons().contains(key) ==> next.pending == progress.pending.push(
                InputEvent { event_type: 1, code: shown, value },
            )
            &&& !gamepad_buttons().contains(key) ==> next.pending == progress.pending
        }),
{
    let next = progress.step(profile, EventSummary::Key(key, value)).0;
    let shown = if key == 0x133 {
        0x134u16
    } else if key == 0x134 {
        0x133u16
    } else {
        key
    };
    if gamepad_buttons().contains(key) {
        assert(next.pending =~= progress.pending.push(
            InputEvent { event_type: 1, code: shown, value },
        ));
    } else {
        assert(next.pending =~= progress.pending);
    }
}

/// The end of a report counts it and has what waits sent; lost events take what waits with them;
/// nothing else that synchronizes does anything, nor does any event of another type.
pub proof fn reports_end_and_get_lost(
    progress: Progress,
    profile: Profile,
    code: u16,
    value: i32,
)
    ensures
        ({
            let (next, step) = progress.step(profile, EventSummary::Synchronization(code, value));
            &&& code == 0 ==> {
                &&& next == Progress { input_count: progress.input_count + 1, ..progress }
                &&& step == EventStep::Emit <==> progress.pending.len() > 0
                &&& step == EventStep::Nothing <==> progress.pending.len() == 0
            }
            &&& code == 3 ==> {
                &&& next == Progress { pending: Seq::empty(), ..progress }
                &&& step == EventStep::Dropped
            }
            &&& code != 0 && code != 3 ==> next == progress && step == EventStep::Nothing
        }),
        progress.step(profile, EventSummary::Other) == (progress, EventStep::Nothing),
        progress.emitted() == (Progress {
            pending: Seq::empty(),
            output_count: progress.output_count + 1,
            ..progress
        }),
        settled(progress, EventStep::Emit) == progress.emitted(),
        settled(progress, EventStep::Nothing) == progress,
        settled(progress, EventStep::Dropped) == progress,
{
}

/// A report is ended by a synchronization with the code 0; the code 3 tells of lost events; whatever
/// is neither stands within a report.
pub proof fn reports_are_ended_by_their_codes(summary: EventSummary)
    ensures
        ends_a_report(summary) <==> (summary matches EventSummary::Synchronization(code, _) && code
            == 0),
        is_within_a_report(summary) <==> !(summary matches EventSummary::Synchronization(code, _)
            && (code == 0 || code == 3)),
{
}

/// What moves in a remapper is what its fields hold.
pub proof fn progress_is_what_the_remapper_holds(remapper: Remapper, other: Remapper)
    ensures
        ({
            let progress = remapper.progress();
            &&& progress.raw == remapper.raw
            &&& progress.output == remapper.output
            &&& progress.pending == remapper.pending@
            &&& progress.input_count == remapper.input_count
            &&& progress.output_count == remapper.output_count
        }),
        remapper.same_setup(other) <==> {
            &&& remapper.profile == other.profile
            &&& remapper.target_user == other.target_user
            &&& remapper.current_path == other.current_path
            &&& remapper.device_open == other.device_open
            &&& remapper.virtual_path == other.virtual_path
            &&& remapper.devices == other.devices
        },
        remapper.well_formed() && remapper.device_open ==> remapper.current_path is Some,
{
}

/// While the moving part is sound, both controllers agree on triggers and directional pad, these are
/// in range, and what waits can be sent.
pub proof fn sound_progress_agrees(progress: Progress, i: int)
    requires
        progress.is_sound(),
    ensures
        progress.output.l2 == progress.raw.l2 && 0 <= progress.raw.l2 <= 255,
        progress.output.r2 == progress.raw.r2 && 0 <= progress.raw.r2 <= 255,
        progress.output.hat_x == progress.raw.hat_x && -1 <= progress.raw.hat_x <= 1,
        progress.output.hat_y == progress.raw.hat_y && -1 <= progress.raw.hat_y <= 1,
        0 <= i < progress.pending.len() ==> {
            let event = progress.pending[i];
            ||| event.event_type == 1 && gamepad_buttons().contains(event.code)
            ||| event.event_type == 3 && moves_within_range(event)
        },
{
    if 0 <= i < progress.pending.len() {
        offered_events_are_buttons_and_axes_in_range(progress.pending[i]);
    }
}

/// For a controller that has been opened the polling interval, the hiding and the audio are set, in
/// this order, and each failure is called by what failed.
pub proof fn opened_controllers_are_set_up(run: OpeningRun)
    requires
        run.well_formed(),
    ensures
        run.settings@.len() == 3,
        run.settings@[0] == Setting::Polling,
        run.settings@[1] == Setting::Hide,
        run.settings@[2] == Setting::Audio,
        run.pending() == (if run.tried < 3 {
            Some(run.settings@[run.tried as int])
        } else {
            None::<Setting>
        }),
        opening_settings() == run.settings@,
        opening_failure(Setting::Polling) == "apply polling override failed: "@,
        opening_failure(Setting::Hide) == "apply physical hide setting failed: "@,
        opening_failure(Setting::Audio) == "apply controller audio setting failed: "@,
{
}

/// A bounded value is the value within the bounds, and the nearer bound outside them. At rest
/// everything is at zero.
pub proof fn values_are_bounded_by_the_nearer_bound(value: int, low: int, high: int)
    requires
        low <= high,
    ensures
        low <= value <= high ==> bounded(value, low, high) == value,
        value < low ==> bounded(value, low, high) == low,
        value > high ==> bounded(value, low, high) == high,
        ({
            let rest = ControllerSample::zero();
            &&& rest.left.x == 0 && rest.left.y == 0 && rest.right.x == 0 && rest.right.y == 0
            &&& rest.l2 == 0 && rest.r2 == 0 && rest.hat_x == 0 && rest.hat_y == 0
        }),
{
}

} // verus!
