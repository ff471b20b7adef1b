//! What holds of requests, of the configuration, and of what is told about polling.
use vstd::prelude::*;
#[allow(unused_imports)]
use vstd::utf8::{decode_utf8, valid_utf8};

#[allow(unused_imports)]
use crate::config::{
    fallback_group, fallback_user, replied_group, unless_blank, variable_value, DaemonConfig,
    Environment, GroupReply,
};
#[allow(unused_imports)]
use crate::daemon::{
    change_effects, hide_patch, is_change, is_optional, is_state_behind, next_profile,
    polling_patch, request_effects, selected_path, Effect, RequestPlan, RequestRun, Setting,
    SettingContext, SharedState,
};
#[allow(unused_imports)]
use crate::device::{selected_device, InputDeviceInfo};
#[allow(unused_imports)]
use crate::meter::{drained, gives_a_report, interval_in_force, wanted_node, DrainStep, ReadResult};
#[allow(unused_imports)]
use crate::number::byte_value;
#[allow(unused_imports)]
use crate::polling::{file_has_line, file_has_text, set_binterval};
#[allow(unused_imports)]
use crate::profile::{Profile, ProfilePatch};
#[allow(unused_imports)]
use crate::protocol::{DaemonRequest, DaemonResponse};
#[allow(unused_imports)]
use crate::remap::Remapper;
#[allow(unused_imports)]
use crate::status::{Metrics, StatusSnapshot};
#[allow(unused_imports)]
use crate::stick::ControllerSample;
#[allow(unused_imports)]
use crate::system::{
    audio_off_actions, audio_on_actions, hide_actions, polling_actions, show_actions,
};
#[allow(unused_imports)]
use crate::text::{has_part, lines_of, text_of, trimmed, white_space};
#[allow(unused_imports)]
use crate::text_laws::{
    behind_the_last_is_what_holds_none, trimmed_lines_are_searched,
    trimming_takes_white_space_at_both_ends,
};
#[allow(unused_imports)]
use crate::ui::service_command;

verus! {

/// A profile that is set is used, brought into range; a patch is applied to the profile in use; and
/// a change of the polling interval or of the hiding changes these alone.
pub proof fn requests_change_what_they_name(profile: Profile, request: DaemonRequest)
    ensures
        ({
            let after = next_profile(profile, request);
            &&& request matches DaemonRequest::SetProfile { profile: new } ==> after
                == new.sanitized()
            &&& request matches DaemonRequest::PatchProfile { patch } ==> after
                == patch.applied_to(profile)
            &&& request matches DaemonRequest::ApplyPolling { binterval } ==> after == (Profile {
                polling_binterval: if binterval == 0 {
                    1
                } else if binterval > 16 {
                    16
                } else {
                    binterval
                },
                ..profile.sanitized()
            })
            &&& request matches DaemonRequest::SetHidePhysical { enabled } ==> after == (Profile {
                hide_physical: enabled,
                ..profile.sanitized()
            })
            &&& request is GetStatus || request is SaveProfile || request is Stop ==> after
                == profile
        }),
{
}

/// A change is saved. Then the settings that it changes are made: the polling interval where it
/// changes, hiding where it changes or another device is chosen, and so for the audio.
pub proof fn changes_take_the_settings_they_change(before: Profile, after: Profile)
    ensures
        ({
            let effects = change_effects(before, after);
            let elsewhere = text_of(before.selected_device_path) != text_of(
                after.selected_device_path,
            );
            &&& effects.len() > 0 && effects[0] == Effect::SaveConfig
            &&& effects.contains(Effect::Apply(Setting::Polling)) <==> before.polling_binterval
                != after.polling_binterval
            &&& effects.contains(Effect::Apply(Setting::Hide)) <==> elsewhere
                || before.hide_physical != after.hide_physical
            &&& effects.contains(Effect::Apply(Setting::Audio)) <==> elsewhere
                || before.disable_controller_audio != after.disable_controller_audio
            &&& effects.no_duplicates()
            &&& forall|i: int, j: int|
                0 <= i < j < effects.len() ==> place(#[trigger] effects[i]) < place(
                    #[trigger] effects[j],
                )
        }),
{
    let effects = change_effects(before, after);
    let elsewhere = text_of(before.selected_device_path) != text_of(after.selected_device_path);
    let (p, h, a) = (
        before.polling_binterval != after.polling_binterval,
        elsewhere || before.hide_physical != after.hide_physical,
        elsewhere || before.disable_controller_audio != after.disable_controller_audio,
    );
    let hide_at: int = if p {
        2
    } else {
        1
    };
    let audio_at: int = if h {
        hide_at + 1
    } else {
        hide_at
    };
    if p {
        assert(effects[1] == Effect::Apply(Setting::Polling));
    }
    if h {
        assert(effects[hide_at] == Effect::Apply(Setting::Hide));
    }
    if a {
        assert(effects[audio_at] == Effect::Apply(Setting::Audio));
    }
}

/// The place of an effect among those that a request takes.
pub open spec fn place(effect: Effect) -> int {
    match effect {
        Effect::SaveConfig => 0,
        Effect::Apply(Setting::Polling) => 1,
        Effect::Apply(Setting::Hide) => 2,
        Effect::Apply(Setting::Audio) => 3,
    }
}

/// A profile that is set takes everything; saving takes just that; asking and stopping take nothing;
/// and any other request takes what the change that it makes takes.
pub proof fn requests_take_what_they_change(profile: Profile, request: DaemonRequest)
    ensures
        ({
            let effects = request_effects(profile, request);
            &&& request is SetProfile ==> effects.len() == 4 && forall|i: int|
                0 <= i < 4 ==> place(#[trigger] effects[i]) == i
            &&& request is SaveProfile ==> effects.len() == 1 && effects[0] == Effect::SaveConfig
            &&& request is GetStatus || request is Stop ==> effects.len() == 0
            &&& request is PatchProfile || request is ApplyPolling || request is SetHidePhysical
                ==> effects == change_effects(profile, next_profile(profile, request))
        }),
        is_change(request) <==> !(request is GetStatus || request is SaveProfile
            || request is Stop),
{
}

/// Only the profile changes with a request: no other part of the configuration, nor what is known of
/// the controllers.
pub proof fn requests_change_nothing_but_the_profile(
    after: SharedState,
    before: SharedState,
    request: DaemonRequest,
)
    requires
        is_state_behind(after, before, request),
    ensures
        after.config.profile == next_profile(before.config.profile, request),
        after.config.socket_path == before.config.socket_path,
        after.config.target_user == before.config.target_user,
        after.config.socket_group == before.config.socket_group,
        after.devices == before.devices,
        after.raw == before.raw,
        after.output == before.output,
        after.metrics == before.metrics,
{
}

/// What a request takes is made for the profile behind it, for the device that this profile selects
/// and for the user of the configuration. Only a request to stop ends the daemon.
pub proof fn plans_are_made_for_the_new_profile(
    plan: RequestPlan,
    request: DaemonRequest,
    before: SharedState,
)
    requires
        plan.is_for(request, before),
    ensures
        plan.effects@ == request_effects(before.config.profile, request),
        plan.stop <==> request is Stop,
        request is SetProfile || request is PatchProfile || request is ApplyPolling
            || request is SetHidePhysical ==> plan.context is Some,
        plan.context matches Some(context) ==> {
            let profile = next_profile(before.config.profile, request);
            &&& context.profile == profile
            &&& context.selected == selected_device(
                text_of(profile.selected_device_path),
                before.devices@,
            )
            &&& context.target_user == before.config.target_user
        },
        !(request is GetStatus) ==> plan.response is Done,
{
}

/// The status tells the profile in use, the controllers, what they reported last, and how the daemon
/// is doing.
pub proof fn status_tells_the_state(plan: RequestPlan, before: SharedState)
    requires
        plan.is_for(DaemonRequest::GetStatus, before),
    ensures
        plan.response is Status,
        ({
            let status = plan.response->status;
            &&& status.profile == before.config.profile
            &&& status.devices@ == before.devices@
            &&& status.raw == before.raw
            &&& status.output == before.output
            &&& status.metrics == before.metrics
        }),
{
}

/// A snapshot holds what it is a snapshot of.
pub proof fn snapshots_hold_what_they_show(
    snapshot: StatusSnapshot,
    profile: Profile,
    devices: Seq<InputDeviceInfo>,
    raw: ControllerSample,
    output: ControllerSample,
    metrics: Metrics,
)
    ensures
        snapshot.holds(profile, devices, raw, output, metrics) <==> {
            &&& snapshot.profile == profile
            &&& snapshot.devices@ == devices
            &&& snapshot.raw == raw
            &&& snapshot.output == output
            &&& snapshot.metrics == metrics
        },
{
}

/// A daemon that has done nothing has counted and found nothing.
pub proof fn new_metrics_are_empty(metrics: Metrics)
    requires
        metrics == Metrics::nothing(),
    ensures
        metrics.input_hz.bits == 0,
        metrics.output_hz.bits == 0,
        metrics.hidraw_hz.bits == 0,
        metrics.configured_polling_hz is None,
        metrics.configured_polling_ms is None,
        metrics.physical_path is None,
        metrics.virtual_path is None,
        metrics.hidraw_path is None,
        metrics.last_error is None,
        metrics.usb_oc_value is None,
        !metrics.usb_oc_loaded,
        !metrics.usb_oc_persistent,
        !metrics.physical_hidden,
        !metrics.controller_audio_disabled,
        !metrics.running,
{
}

/// Hiding and silencing need a controller to be done to; undoing them does not, nor does polling.
pub proof fn settings_need_a_controller(context: SettingContext)
    ensures
        !context.refuses(Setting::Polling),
        context.refuses(Setting::Hide) <==> context.profile.hide_physical && context.selected
            is None,
        context.refuses(Setting::Audio) <==> context.profile.disable_controller_audio
            && context.selected is None,
        context.refusal(Setting::Hide) == "no selected physical controller to hide"@,
        context.refusal(Setting::Audio) == "no selected physical controller for audio"@,
{
}

/// Settings are made for the controller that is selected, by the vendor and the product that it
/// tells, and for the user of the configuration, as the profile has them.
pub proof fn settings_are_made_for_the_selected_controller(
    context: SettingContext,
    vid: Seq<char>,
    pid: Seq<char>,
)
    requires
        match context.selected {
            Some(device) => {
                &&& vid == match device.vendor_id {
                    Some(vendor) => vendor@,
                    None => "054c"@,
                }
                &&& pid == match device.product_id {
                    Some(product) => product@,
                    None => "0ce6"@,
                }
            },
            None => vid == "054c"@ && pid == "0ce6"@,
        },
    ensures
        ({
            let user = context.target_user@;
            let profile = context.profile;
            &&& context.steps(Setting::Polling) == polling_actions(
                vid,
                pid,
                profile.polling_binterval,
            )
            &&& profile.hide_physical ==> context.steps(Setting::Hide) == hide_actions(
                vid,
                pid,
                user,
            )
            &&& !profile.hide_physical ==> context.steps(Setting::Hide) == show_actions(
                vid,
                pid,
                user,
            )
            &&& profile.disable_controller_audio ==> context.steps(Setting::Audio)
                == audio_off_actions(vid, pid, user)
            &&& !profile.disable_controller_audio ==> context.steps(Setting::Audio)
                == audio_on_actions(vid, pid, user)
        }),
{
}

/// Effects are done in their order, one after the other, until one fails that others wait for; only
/// the polling interval is not waited for. The first failure, if there is one, is the answer.
pub proof fn effects_are_done_in_their_order(run: RequestRun, message: String)
    requires
        run.well_formed(),
    ensures
        run.pending() == (if !run.stopped && run.done < run.effects@.len() {
            Some(run.effects@[run.done as int])
        } else {
            None::<Effect>
        }),
        run.pending() is Some ==> {
            let done = run.behind(Ok(()));
            &&& done.done == run.done + 1
            &&& done.stopped == run.stopped && done.failure == run.failure
            &&& done.effects == run.effects && done.response == run.response
            &&& run.behind(Err(message)).effects == run.effects
            &&& run.behind(Err(message)).response == run.response
            &&& run.failure is None ==> run.behind(Err(message)).failure == Some(message)
            &&& run.failure is Some ==> run.behind(Err(message)).failure == run.failure
        },
        run.failure is None ==> run.reply() == run.response,
        run.failure matches Some(first) ==> run.reply() == (DaemonResponse::Error {
            message: first,
        }),
        forall|effect: Effect| #[trigger]
            is_optional(effect) <==> effect == Effect::Apply(Setting::Polling),
{
    if run.pending() is Some {
        assert(run.done < run.effects.len());
    }
}

/// The path of the selected device is that of the device that the profile selects, and it is the one
/// that the remapper wants.
pub proof fn selected_paths_are_those_of_selected_devices(
    profile: Profile,
    devices: Seq<InputDeviceInfo>,
    remapper: Remapper,
)
    ensures
        match selected_device(text_of(profile.selected_device_path), devices) {
            Some(device) => selected_path(profile, devices) == Some(device.path@),
            None => selected_path(profile, devices) is None,
        },
        remapper.wanted() == selected_path(remapper.profile, remapper.devices@),
{
}

/// A variable counts with the white space around it taken away, and only where something is left.
pub proof fn blank_variables_are_not_set(
    head: Seq<char>,
    name: Seq<char>,
    tail: Seq<char>,
    variable: Option<String>,
)
    requires
        forall|i: int| 0 <= i < head.len() ==> white_space(#[trigger] head[i]),
        forall|i: int| 0 <= i < tail.len() ==> white_space(#[trigger] tail[i]),
        name.len() > 0 ==> !white_space(name[0]) && !white_space(name[name.len() - 1]),
    ensures
        name.len() > 0 ==> unless_blank(head + name + tail) == Some(name),
        name.len() == 0 ==> unless_blank(head + name + tail) is None,
        variable matches Some(text) ==> variable_value(variable) == unless_blank(text@),
        variable is None ==> variable_value(variable) is None,
{
    trimming_takes_white_space_at_both_ends(head, name, tail);
}

/// The user is the one named for this purpose; where none is, the one who became root, unless that
/// was root; where there is none, the current one; and root where nothing is known.
pub proof fn users_are_tried_in_turn(env: Environment)
    ensures
        ({
            let named = variable_value(env.target_user);
            let became = variable_value(env.sudo_user);
            let current = variable_value(env.user);
            let user = fallback_user(env);
            &&& named matches Some(name) ==> user == name
            &&& named is None ==> (became matches Some(name) ==> (name != "root"@ ==> user == name))
            &&& named is None && (became is None || became == Some("root"@)) ==> (current
                matches Some(name) ==> user == name)
            &&& named is None && (became is None || became == Some("root"@)) && current is None
                ==> user == "root"@
        }),
{
}

/// The group is the one that the environment names; where it names none, that of the user; and
/// `users` where nothing is known.
pub proof fn groups_are_tried_in_turn(variable: Option<String>, primary: Option<Seq<char>>)
    ensures
        variable_value(variable) matches Some(group) ==> fallback_group(variable, primary) == group,
        variable_value(variable) is None ==> (primary matches Some(group) ==> fallback_group(
            variable,
            primary,
        ) == group),
        variable_value(variable) is None && primary is None ==> fallback_group(variable, primary)
            == "users"@,
{
}

/// A reply names a group where the program succeeded and printed a text that is not blank, and where
/// there was a user to ask about.
pub proof fn replies_name_a_group(user: Seq<char>, reply: GroupReply)
    ensures
        replied_group(user, None) is None,
        replied_group(user, Some(reply)) matches Some(group) ==> {
            &&& reply.success
            &&& valid_utf8(reply.stdout@)
            &&& trimmed(user).len() > 0
            &&& group == trimmed(decode_utf8(reply.stdout@))
            &&& group.len() > 0
        },
        reply.success && valid_utf8(reply.stdout@) && trimmed(user).len() > 0 && trimmed(
            decode_utf8(reply.stdout@),
        ).len() > 0 ==> replied_group(user, Some(reply)) is Some,
{
}

/// A configuration is complete where its profile is in range and it names a user and a group.
pub proof fn complete_configurations_name_user_and_group(config: DaemonConfig)
    ensures
        config.is_complete() <==> {
            &&& config.profile.is_sane()
            &&& trimmed(config.target_user@).len() > 0
            &&& trimmed(config.socket_group@).len() > 0
        },
{
}

/// A read that gives bytes is a report and is followed by another; nothing to read ends the reading,
/// and so does a failure, which is told apart.
pub proof fn reads_count_one_report_each(count: int, n: usize)
    ensures
        n > 0 ==> drained(count, ReadResult::Bytes(n)) == (count + 1, DrainStep::ReadOn),
        drained(count, ReadResult::Bytes(0)) == (count, DrainStep::Done),
        drained(count, ReadResult::WouldBlock) == (count, DrainStep::Done),
        drained(count, ReadResult::Failed) == (count, DrainStep::Failed),
        gives_a_report(ReadResult::Bytes(n)) <==> n > 0,
        !gives_a_report(ReadResult::WouldBlock) && !gives_a_report(ReadResult::Failed),
{
}

/// The meter wants the raw HID node that the daemon tells.
pub proof fn meters_want_the_node_that_is_told(state: SharedState)
    ensures
        wanted_node(Some(&state)) == text_of(state.metrics.hidraw_path),
        wanted_node(None) is None,
{
}

/// The interval in force is the one that the parameter sets, where it is there and sets one, and that
/// of the profile otherwise.
pub proof fn parameters_win_over_profiles(text: Seq<char>, binterval: u8)
    ensures
        set_binterval(text) matches Some(set) ==> interval_in_force(Some(text), binterval) == set,
        set_binterval(text) is None ==> interval_in_force(Some(text), binterval) == binterval,
        interval_in_force(None, binterval) == binterval,
{
}

/// A parameter sets the byte behind its last colon, or the one that it is without a colon; white
/// space around it makes no difference.
pub proof fn parameters_set_what_stands_behind_the_last_colon(
    head: Seq<char>,
    last: Seq<char>,
    space: Seq<char>,
    more: Seq<char>,
)
    requires
        !last.contains(':'),
        forall|i: int| 0 <= i < space.len() ==> white_space(#[trigger] space[i]),
        forall|i: int| 0 <= i < more.len() ==> white_space(#[trigger] more[i]),
        last.len() > 0 ==> !white_space(last[0]) && !white_space(last[last.len() - 1]),
        head.len() > 0 ==> !white_space(head[0]),
    ensures
        set_binterval(space + last + more) == byte_value(last),
        set_binterval(space + (head + seq![':'] + last) + more) == byte_value(last),
{
    trimming_takes_white_space_at_both_ends(space, last, more);
    behind_the_last_is_what_holds_none(head, ':', last);
    let s = head + seq![':'] + last;
    assert(s[0] == if head.len() > 0 {
        head[0]
    } else {
        ':'
    });
    assert(s[s.len() - 1] == if last.len() > 0 {
        last[last.len() - 1]
    } else {
        ':'
    });
    trimming_takes_white_space_at_both_ends(space, s, more);
}

/// A file that could be read has a line where one of its lines, without the white space around it,
/// is that line, and a text where that is a part of it; one that could not be read has nothing.
pub proof fn files_have_what_they_hold(text: Seq<char>, wanted: Seq<char>)
    ensures
        file_has_line(Some(text), wanted) <==> exists|line: Seq<char>| #[trigger]
            lines_of(text).contains(line) && trimmed(line) == wanted,
        file_has_text(Some(text), wanted) <==> has_part(text, wanted),
        !file_has_line(None, wanted),
        !file_has_text(None, wanted),
{
    trimmed_lines_are_searched(text, wanted);
}

/// The service is started, stopped and restarted by name, and enabled and disabled at once; nothing
/// else is done to it.
pub proof fn services_are_controlled_by_name(action: Seq<char>)
    ensures
        ({
            let plain = action == "start"@ || action == "stop"@ || action == "restart"@;
            let lasting = action == "enable"@ || action == "disable"@;
            &&& plain ==> service_command(action) == Some(
                seq!["systemctl"@, action, "ds4linuxd.service"@],
            )
            &&& lasting ==> service_command(action) == Some(
                seq!["systemctl"@, action, "--now"@, "ds4linuxd.service"@],
            )
            &&& !plain && !lasting ==> service_command(action) is None
        }),
{
    reveal_strlit("start");
    reveal_strlit("stop");
    reveal_strlit("restart");
    reveal_strlit("enable");
    reveal_strlit("disable");
    assert("start"@.len() == 5 && "stop"@.len() == 4 && "restart"@.len() == 7);
    assert("enable"@.len() == 6 && "disable"@.len() == 7);
    assert("restart"@[0] == 'r' && "disable"@[0] == 'd');
}

/// The patches that single changes stand for hold just that change.
pub proof fn single_patches_hold_one_change(binterval: u8, enabled: bool)
    ensures
        polling_patch(binterval).polling_binterval == Some(binterval),
        hide_patch(enabled).hide_physical == Some(enabled),
        polling_patch(binterval) == (ProfilePatch {
            polling_binterval: Some(binterval),
            ..ProfilePatch::nothing()
        }),
        hide_patch(enabled) == (ProfilePatch {
            hide_physical: Some(enabled),
            ..ProfilePatch::nothing()
        }),
{
}

} // verus!
