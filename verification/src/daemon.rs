//! What the daemon does with a request.
//!
//! [`handle_request`] changes the state and says what has to be done; a [`RequestRun`] keeps
//! track of the doing and knows the response.
use vstd::prelude::*;

use crate::config::DaemonConfig;
use crate::device::{mark_selected, selected_device_for_profile, InputDeviceInfo};
#[allow(unused_imports)]
use crate::device::{marked, selected_device};
use crate::profile::{Profile, ProfilePatch};
use crate::protocol::{response_of, DaemonRequest, DaemonResponse};
use crate::status::{Metrics, StatusSnapshot};
use crate::stick::ControllerSample;
use crate::system::{
    apply_controller_audio_disable, apply_hide_for_device, apply_polling_for_device, SystemAction,
};
#[allow(unused_imports)]
use crate::system::{
    action_views, audio_off_actions, audio_on_actions, hide_actions, polling_actions, show_actions,
    ActionView,
};
use crate::text::same_optional;
#[allow(unused_imports)]
use crate::text::text_of;
#[allow(unused_imports)]
use crate::udev::{product_of, vendor_of};

verus! {

/// What the parts of the daemon share.
#[derive(Debug, PartialEq)]
pub struct SharedState {
    /// The configuration.
    pub config: DaemonConfig,
    /// The controllers.
    pub devices: Vec<InputDeviceInfo>,
    /// What the physical controller reported last.
    pub raw: ControllerSample,
    /// What the virtual controller reported last.
    pub output: ControllerSample,
    /// How the daemon is doing.
    pub metrics: Metrics,
}

impl SharedState {
    /// The state of a daemon that starts with `config`.
    pub fn new(config: DaemonConfig) -> (r: SharedState)
        ensures
            r.config == config,
            r.devices@ == Seq::<InputDeviceInfo>::empty(),
            r.raw == ControllerSample::zero(),
            r.output == ControllerSample::zero(),
            r.metrics == Metrics::nothing(),
    {
        SharedState {
            config,
            devices: Vec::new(),
            raw: ControllerSample::default(),
            output: ControllerSample::default(),
            metrics: Metrics::default(),
        }
    }

    /// A snapshot of the state.
    pub fn snapshot(&self) -> (r: StatusSnapshot)
        ensures
            r.holds(self.config.profile, self.devices@, self.raw, self.output, self.metrics),
    {
        StatusSnapshot {
            profile: self.config.profile.clone(),
            devices: self.devices.clone(),
            raw: self.raw,
            output: self.output,
            metrics: self.metrics.clone(),
        }
    }
}

/// The path of the device that `profile` selects among `devices`.
pub open spec fn selected_path(profile: Profile, devices: Seq<InputDeviceInfo>) -> Option<Seq<char>> {
    match selected_device(text_of(profile.selected_device_path), devices) {
        Some(device) => Some(device.path@),
        None => None,
    }
}

/// Makes `devices` known, with the one that `profile` selects marked.
pub fn publish_devices(state: &mut SharedState, profile: &Profile, devices: &Vec<InputDeviceInfo>)
    ensures
        final(state).devices@ == devices@.map_values(
            |d: InputDeviceInfo| marked(d, selected_path(*profile, devices@)),
        ),
        final(state).config == old(state).config,
        final(state).raw == old(state).raw,
        final(state).output == old(state).output,
        final(state).metrics == old(state).metrics,
{
    let selected = selected_device_for_profile(profile, devices.as_slice());
    let path = match &selected {
        Some(device) => Some(device.path.as_str()),
        None => None,
    };
    assert(crate::text::str_text_of(path) == selected_path(*profile, devices@));
    state.devices = mark_selected(devices.clone(), path);
}

/// A setting that is made outside the daemon.
#[derive(Debug, Clone, Copy, PartialEq, Eq, Structural)]
pub enum Setting {
    /// The polling interval.
    Polling,
    /// Whether the physical controller is hidden.
    Hide,
    /// Whether the audio of the controller is off.
    Audio,
}

/// Something that a request takes, apart from the change of the state.
#[derive(Debug, Clone, Copy, PartialEq, Eq, Structural)]
pub enum Effect {
    /// Write the configuration to disk.
    SaveConfig,
    /// Make a setting.
    Apply(Setting),
}

/// What the settings are made for.
#[derive(Debug, PartialEq)]
pub struct SettingContext {
    /// The profile that has them.
    pub profile: Profile,
    /// The controller.
    pub selected: Option<InputDeviceInfo>,
    /// The user who uses it.
    pub target_user: String,
}

/// What a request takes.
#[derive(Debug, PartialEq)]
pub struct RequestPlan {
    /// What has to be done, in this order. See [`RequestRun`] for what a failure does.
    pub effects: Vec<Effect>,
    /// What the settings among the effects are made for.
    pub context: Option<SettingContext>,
    /// Whether the daemon comes to an end.
    pub stop: bool,
    /// The response if nothing fails.
    pub response: DaemonResponse,
}

/// The patch that changes the polling interval.
pub open spec fn polling_patch(binterval: u8) -> ProfilePatch {
    ProfilePatch { polling_binterval: Some(binterval), ..ProfilePatch::nothing() }
}

/// The patch that hides the physical controller, or shows it.
pub open spec fn hide_patch(enabled: bool) -> ProfilePatch {
    ProfilePatch { hide_physical: Some(enabled), ..ProfilePatch::nothing() }
}

/// The profile behind a request.
pub open spec fn next_profile(profile: Profile, request: DaemonRequest) -> Profile {
    match request {
        DaemonRequest::SetProfile { profile: new } => new.sanitized(),
        DaemonRequest::PatchProfile { patch } => patch.applied_to(profile),
        DaemonRequest::ApplyPolling { binterval } => polling_patch(binterval).applied_to(profile),
        DaemonRequest::SetHidePhysical { enabled } => hide_patch(enabled).applied_to(profile),
        _ => profile,
    }
}

/// What a change from `before` to `after` takes: saving, and the settings that change. Another
/// device is hidden anew and silenced anew.
pub open spec fn change_effects(before: Profile, after: Profile) -> Seq<Effect> {
    let other_device = text_of(before.selected_device_path) != text_of(after.selected_device_path);
    seq![Effect::SaveConfig] + (if before.polling_binterval != after.polling_binterval {
        seq![Effect::Apply(Setting::Polling)]
    } else {
        Seq::empty()
    }) + (if before.hide_physical != after.hide_physical || other_device {
        seq![Effect::Apply(Setting::Hide)]
    } else {
        Seq::empty()
    }) + (if before.disable_controller_audio != after.disable_controller_audio || other_device {
        seq![Effect::Apply(Setting::Audio)]
    } else {
        Seq::empty()
    })
}

/// What has to be done for a request.
pub open spec fn request_effects(profile: Profile, request: DaemonRequest) -> Seq<Effect> {
    match request {
        DaemonRequest::GetStatus => Seq::empty(),
        DaemonRequest::SetProfile { profile: _ } => seq![
            Effect::SaveConfig,
            Effect::Apply(Setting::Polling),
            Effect::Apply(Setting::Hide),
            Effect::Apply(Setting::Audio),
        ],
        DaemonRequest::SaveProfile => seq![Effect::SaveConfig],
        DaemonRequest::Stop => Seq::empty(),
        _ => change_effects(profile, next_profile(profile, request)),
    }
}

/// The request changes the profile.
pub open spec fn is_change(request: DaemonRequest) -> bool {
    match request {
        DaemonRequest::SetProfile { profile: _ } => true,
        DaemonRequest::PatchProfile { patch: _ } => true,
        DaemonRequest::ApplyPolling { binterval: _ } => true,
        DaemonRequest::SetHidePhysical { enabled: _ } => true,
        _ => false,
    }
}

impl RequestPlan {
    /// The plan is what `request` takes in the state `before`.
    pub open spec fn is_for(self, request: DaemonRequest, before: SharedState) -> bool {
        let profile = next_profile(before.config.profile, request);
        &&& self.effects@ =~= request_effects(before.config.profile, request)
        &&& self.context is Some <==> is_change(request)
        &&& self.context matches Some(context) ==> {
            &&& context.profile == profile
            &&& context.selected == selected_device(
                text_of(profile.selected_device_path),
                before.devices@,
            )
            &&& context.target_user == before.config.target_user
        }
        &&& self.stop <==> request is Stop
        &&& request is GetStatus ==> (self.response matches DaemonResponse::Status { status }
            && status.holds(
            before.config.profile,
            before.devices@,
            before.raw,
            before.output,
            before.metrics,
        ))
        &&& !(request is GetStatus) ==> self.response is Done
    }
}

/// The state behind a request: only the profile has changed.
pub open spec fn is_state_behind(
    after: SharedState,
    before: SharedState,
    request: DaemonRequest,
) -> bool {
    &&& after.config == DaemonConfig {
        profile: next_profile(before.config.profile, request),
        ..before.config
    }
    &&& after.devices == before.devices
    &&& after.raw == before.raw
    &&& after.output == before.output
    &&& after.metrics == before.metrics
}

/// Changes the state as `request` asks, and says what else has to be done.
pub fn handle_request(request: DaemonRequest, state: &mut SharedState) -> (plan: RequestPlan)
    ensures
        is_state_behind(*final(state), *old(state), request),
        plan.is_for(request, *old(state)),
{
    match request {
        DaemonRequest::GetStatus => RequestPlan {
            effects: Vec::new(),
            context: None,
            stop: false,
            response: DaemonResponse::Status { status: state.snapshot() },
        },
        DaemonRequest::SetProfile { profile } => {
            let mut profile = profile;
            profile.sanitize();
            let context = use_profile(profile, state);
            RequestPlan {
                effects: vec![
                    Effect::SaveConfig,
                    Effect::Apply(Setting::Polling),
                    Effect::Apply(Setting::Hide),
                    Effect::Apply(Setting::Audio),
                ],
                context: Some(context),
                stop: false,
                response: DaemonResponse::Done,
            }
        },
        DaemonRequest::PatchProfile { patch } => patch_profile(patch, state),
        DaemonRequest::SaveProfile => RequestPlan {
            effects: vec![Effect::SaveConfig],
            context: None,
            stop: false,
            response: DaemonResponse::Done,
        },
        DaemonRequest::ApplyPolling { binterval } => {
            let mut patch = ProfilePatch::default();
            patch.polling_binterval = Some(binterval);
            patch_profile(patch, state)
        },
        DaemonRequest::SetHidePhysical { enabled } => {
            let mut patch = ProfilePatch::default();
            patch.hide_physical = Some(enabled);
            patch_profile(patch, state)
        },
        DaemonRequest::Stop => RequestPlan {
            effects: Vec::new(),
            context: None,
            stop: true,
            response: DaemonResponse::Done,
        },
    }
}

/// Puts `profile` in use.
fn use_profile(profile: Profile, state: &mut SharedState) -> (r: SettingContext)
    ensures
        final(state).config == (DaemonConfig { profile, ..old(state).config }),
        final(state).devices == old(state).devices,
        final(state).raw == old(state).raw,
        final(state).output == old(state).output,
        final(state).metrics == old(state).metrics,
        r.profile == profile,
        r.selected == selected_device(text_of(profile.selected_device_path), old(state).devices@),
        r.target_user == old(state).config.target_user,
{
    let selected = selected_device_for_profile(&profile, state.devices.as_slice());
    let target_user = state.config.target_user.clone();
    state.config.profile = profile.clone();
    SettingContext { profile, selected, target_user }
}

/// Changes the profile in use.
fn patch_profile(patch: ProfilePatch, state: &mut SharedState) -> (plan: RequestPlan)
    ensures
        is_state_behind(*final(state), *old(state), DaemonRequest::PatchProfile { patch }),
        plan.is_for(DaemonRequest::PatchProfile { patch }, *old(state)),
{
    let before = state.config.profile.clone();
    let mut after = before.clone();
    patch.apply_to(&mut after);
    let effects = effects_of_change(&before, &after);
    let context = use_profile(after, state);
    RequestPlan { effects, context: Some(context), stop: false, response: DaemonResponse::Done }
}

/// What a change from `before` to `after` takes.
fn effects_of_change(before: &Profile, after: &Profile) -> (r: Vec<Effect>)
    ensures
        r@ == change_effects(*before, *after),
{
    let other_device = !same_optional(&before.selected_device_path, &after.selected_device_path);
    let mut effects: Vec<Effect> = vec![Effect::SaveConfig];
    if before.polling_binterval != after.polling_binterval {
        effects.push(Effect::Apply(Setting::Polling));
    }
    if before.hide_physical != after.hide_physical || other_device {
        effects.push(Effect::Apply(Setting::Hide));
    }
    if before.disable_controller_audio != after.disable_controller_audio || other_device {
        effects.push(Effect::Apply(Setting::Audio));
    }
    assert(effects@ =~= change_effects(*before, *after));
    effects
}

impl SettingContext {
    /// A setting cannot be made: there is nothing to hide and nothing to silence without a
    /// controller.
    pub open spec fn refuses(self, setting: Setting) -> bool {
        match setting {
            Setting::Polling => false,
            Setting::Hide => self.profile.hide_physical && self.selected is None,
            Setting::Audio => self.profile.disable_controller_audio && self.selected is None,
        }
    }

    /// Why a setting cannot be made.
    pub open spec fn refusal(self, setting: Setting) -> Seq<char> {
        match setting {
            Setting::Audio => "no selected physical controller for audio"@,
            _ => "no selected physical controller to hide"@,
        }
    }

    /// The steps that make a setting.
    pub open spec fn steps(self, setting: Setting) -> Seq<ActionView> {
        let vid = vendor_of(self.selected);
        let pid = product_of(self.selected);
        match setting {
            Setting::Polling => polling_actions(vid, pid, self.profile.polling_binterval),
            Setting::Hide => if self.profile.hide_physical {
                hide_actions(vid, pid, self.target_user@)
            } else {
                show_actions(vid, pid, self.target_user@)
            },
            Setting::Audio => if self.profile.disable_controller_audio {
                audio_off_actions(vid, pid, self.target_user@)
            } else {
                audio_on_actions(vid, pid, self.target_user@)
            },
        }
    }

    /// The steps that make a setting, or why it cannot be made.
    pub fn actions(&self, setting: Setting) -> (r: Result<Vec<SystemAction>, String>)
        ensures
            r is Err <==> self.refuses(setting),
            r matches Err(message) ==> message@ == self.refusal(setting),
            r matches Ok(actions) ==> action_views(actions@) == self.steps(setting),
    {
        let selected = self.selected.as_ref();
        match setting {
            Setting::Polling => Ok(apply_polling_for_device(&self.profile, selected)),
            Setting::Hide => apply_hide_for_device(
                self.profile.hide_physical,
                selected,
                self.target_user.as_str(),
            ),
            Setting::Audio => apply_controller_audio_disable(
                self.profile.disable_controller_audio,
                selected,
                self.target_user.as_str(),
            ),
        }
    }
}

/// The doing of what a request takes.
///
/// A polling interval that cannot be set keeps nothing else from being done: setting it takes a
/// kernel module that need not be there. Any other failure ends the doing. Either way, the request
/// is answered with the first failure.
#[derive(Debug, PartialEq)]
pub struct RequestRun {
    /// What has to be done, in this order.
    pub effects: Vec<Effect>,
    /// How much of it has been tried and is past.
    pub done: usize,
    /// Whether a failure has ended the doing.
    pub stopped: bool,
    /// What went wrong first, if anything did.
    pub failure: Option<String>,
    /// The response if nothing fails.
    pub response: DaemonResponse,
}

/// A failure of `effect` keeps nothing else from being done.
pub open spec fn is_optional(effect: Effect) -> bool {
    effect == Effect::Apply(Setting::Polling)
}

/// Whether a failure of `effect` keeps nothing else from being done.
fn optional(effect: Effect) -> (r: bool)
    ensures
        r == is_optional(effect),
{
    match effect {
        Effect::Apply(Setting::Polling) => true,
        _ => false,
    }
}

impl RequestRun {
    /// No more is past than there is to do.
    pub open spec fn well_formed(self) -> bool {
        self.done <= self.effects@.len()
    }

    /// What has to be done next.
    pub open spec fn pending(self) -> Option<Effect> {
        if !self.stopped && self.done < self.effects@.len() {
            Some(self.effects@[self.done as int])
        } else {
            None
        }
    }

    /// What went wrong first, where `message` went wrong last.
    pub open spec fn first_failure(self, message: String) -> String {
        match self.failure {
            Some(first) => first,
            None => message,
        }
    }

    /// The run behind the outcome of the next effect.
    pub open spec fn behind(self, outcome: Result<(), String>) -> RequestRun {
        match outcome {
            Ok(_) => RequestRun { done: (self.done + 1) as usize, ..self },
            Err(message) => {
                let failure = Some(self.first_failure(message));
                if is_optional(self.effects@[self.done as int]) {
                    RequestRun { done: (self.done + 1) as usize, failure, ..self }
                } else {
                    RequestRun { stopped: true, failure, ..self }
                }
            },
        }
    }

    /// The run behind the outcomes of the next effects, one after the other, as long as there is
    /// something to do.
    pub open spec fn behind_all(self, outcomes: Seq<Result<(), String>>) -> RequestRun
        decreases outcomes.len(),
    {
        if outcomes.len() == 0 || self.pending() is None {
            self
        } else {
            self.behind(outcomes[0]).behind_all(outcomes.drop_first())
        }
    }

    /// The response, once nothing is left to do.
    pub open spec fn reply(self) -> DaemonResponse {
        match self.failure {
            Some(message) => DaemonResponse::Error { message },
            None => self.response,
        }
    }

    /// Nothing has been done yet.
    pub fn new(effects: Vec<Effect>, response: DaemonResponse) -> (r: RequestRun)
        ensures
            r.well_formed(),
            r == (RequestRun { effects, done: 0, stopped: false, failure: None, response }),
    {
        RequestRun { effects, done: 0, stopped: false, failure: None, response }
    }

    /// What has to be done next: nothing, if everything is past or a failure ended the doing.
    pub fn next_effect(&self) -> (r: Option<Effect>)
        requires
            self.well_formed(),
        ensures
            r == self.pending(),
    {
        if !self.stopped && self.done < self.effects.len() {
            Some(self.effects[self.done])
        } else {
            None
        }
    }

    /// Takes in how the next effect went.
    pub fn record(&mut self, outcome: Result<(), String>)
        requires
            old(self).well_formed(),
            old(self).pending() is Some,
        ensures
            final(self).well_formed(),
            *final(self) == old(self).behind(outcome),
    {
        assert(self.done < self.effects.len());
        match outcome {
            Ok(_) => {
                self.done = self.done + 1;
            },
            Err(message) => {
                if self.failure.is_none() {
                    self.failure = Some(message);
                }
                if optional(self.effects[self.done]) {
                    self.done = self.done + 1;
                } else {
                    self.stopped = true;
                }
            },
        }
    }

    /// The response to the request: the first failure, if there was one.
    pub fn finish(self) -> (r: DaemonResponse)
        requires
            self.well_formed(),
            self.pending() is None,
        ensures
            r == self.reply(),
    {
        match self.failure {
            Some(message) => response_of(Err(message)),
            None => response_of(Ok(self.response)),
        }
    }
}

/// Where the polling interval cannot be set, what follows it is done next, if anything does, and
/// the request will be answered with that failure, unless something failed before.
pub proof fn nothing_waits_for_polling(run: RequestRun, message: String)
    requires
        run.well_formed(),
        run.pending() == Some(Effect::Apply(Setting::Polling)),
    ensures
        ({
            let next = run.behind(Err(message));
            &&& next.pending() == if run.done + 1 < run.effects@.len() {
                Some(run.effects@[run.done + 1])
            } else {
                None::<Effect>
            }
            &&& next.reply() == (DaemonResponse::Error { message: run.first_failure(message) })
        }),
{
    assert(run.done < run.effects.len());
}

/// Any failure other than that of the polling interval ends the doing, that of saving among them.
pub proof fn other_failures_end_the_doing(run: RequestRun, message: String)
    requires
        run.well_formed(),
        run.pending() is Some,
        run.pending() != Some(Effect::Apply(Setting::Polling)),
    ensures
        run.behind(Err(message)).pending() is None,
        run.behind(Err(message)).done == run.done,
        run.behind(Err(message)).reply() == (DaemonResponse::Error {
            message: run.first_failure(message),
        }),
{
}

/// A failure, once there is one, stays the answer.
proof fn lemma_failure_stays(run: RequestRun, outcomes: Seq<Result<(), String>>)
    requires
        run.well_formed(),
        run.failure is Some,
    ensures
        run.behind_all(outcomes).failure == run.failure,
    decreases outcomes.len(),
{
    if outcomes.len() > 0 && run.pending() is Some {
        assert(run.done < run.effects.len());
        lemma_failure_stays(run.behind(outcomes[0]), outcomes.drop_first());
    }
}

/// A request is answered with the first failure, whatever comes before it and behind it.
pub proof fn first_failure_is_the_answer(
    run: RequestRun,
    outcomes: Seq<Result<(), String>>,
    at: int,
)
    requires
        run.well_formed(),
        !run.stopped,
        run.failure is None,
        0 <= at < outcomes.len(),
        at < run.effects@.len() - run.done,
        forall|i: int| 0 <= i < at ==> (#[trigger] outcomes[i]) is Ok,
        outcomes[at] is Err,
    ensures
        run.behind_all(outcomes).reply() == (DaemonResponse::Error {
            message: outcomes[at]->Err_0,
        }),
        !is_optional(run.effects@[run.done + at]) ==> run.behind_all(outcomes).pending() is None
            && run.behind_all(outcomes).done == run.done + at,
    decreases outcomes.len(),
{
    let next = run.behind(outcomes[0]);
    let rest = outcomes.drop_first();
    assert(run.done < run.effects.len());
    if at > 0 {
        assert(outcomes[0] is Ok);
        assert forall|i: int| 0 <= i < at - 1 implies (#[trigger] rest[i]) is Ok by {
            assert(outcomes[i + 1] is Ok);
        }
        first_failure_is_the_answer(next, rest, at - 1);
    } else {
        lemma_failure_stays(next, rest);
        if next.stopped {
            assert(next.behind_all(rest) == next);
        }
    }
}

/// Where nothing fails but, perhaps, the polling interval, everything is done. Only the polling
/// interval depends on what it takes to set it.
pub proof fn everything_but_polling_is_done(run: RequestRun, outcomes: Seq<Result<(), String>>)
    requires
        run.well_formed(),
        !run.stopped,
        outcomes.len() == run.effects@.len() - run.done,
        forall|i: int|
            0 <= i < outcomes.len() ==> (#[trigger] outcomes[i]) is Ok || run.effects@[run.done + i]
                == Effect::Apply(Setting::Polling),
    ensures
        run.behind_all(outcomes).pending() is None,
        run.behind_all(outcomes).done == run.effects@.len(),
        !run.behind_all(outcomes).stopped,
    decreases outcomes.len(),
{
    if outcomes.len() > 0 {
        assert(run.done < run.effects.len());
        assert(outcomes[0] is Ok || is_optional(run.effects@[run.done + 0]));
        let next = run.behind(outcomes[0]);
        let rest = outcomes.drop_first();
        assert forall|i: int| 0 <= i < rest.len() implies (#[trigger] rest[i]) is Ok
            || next.effects@[next.done + i] == Effect::Apply(Setting::Polling) by {
            assert(outcomes[i + 1] is Ok || run.effects@[run.done + (i + 1)] == Effect::Apply(
                Setting::Polling,
            ));
        }
        everything_but_polling_is_done(next, rest);
    }
}

/// A request everything of which succeeds is answered as planned, and everything is done.
pub proof fn success_is_the_planned_answer(run: RequestRun, outcomes: Seq<Result<(), String>>)
    requires
        run.well_formed(),
        !run.stopped,
        run.failure is None,
        outcomes.len() == run.effects@.len() - run.done,
        forall|i: int| 0 <= i < outcomes.len() ==> (#[trigger] outcomes[i]) is Ok,
    ensures
        run.behind_all(outcomes).pending() is None,
        run.behind_all(outcomes).done == run.effects@.len(),
        run.behind_all(outcomes).reply() == run.response,
    decreases outcomes.len(),
{
    if outcomes.len() > 0 {
        assert(run.done < run.effects.len());
        assert(outcomes[0] is Ok);
        let rest = outcomes.drop_first();
        assert forall|i: int| 0 <= i < rest.len() implies (#[trigger] rest[i]) is Ok by {
            assert(outcomes[i + 1] is Ok);
        }
        success_is_the_planned_answer(run.behind(outcomes[0]), rest);
    }
}

/// A profile that is set without the kernel module for polling is saved, and hiding and audio are
/// set all the same; the request is answered with what went wrong with polling.
pub proof fn hiding_works_without_polling(
    run: RequestRun,
    before: SharedState,
    profile: Profile,
    message: String,
)
    requires
        run.effects@ == request_effects(
            before.config.profile,
            DaemonRequest::SetProfile { profile },
        ),
        run.done == 0,
        !run.stopped,
        run.failure is None,
    ensures
        ({
            let unpolled = run.behind(Ok(())).behind(Err(message));
            let hidden = unpolled.behind(Ok(()));
            let silenced = hidden.behind(Ok(()));
            &&& unpolled.pending() == Some(Effect::Apply(Setting::Hide))
            &&& hidden.pending() == Some(Effect::Apply(Setting::Audio))
            &&& silenced.pending() is None
            &&& silenced.reply() == (DaemonResponse::Error { message })
        }),
{
    assert(run.effects.len() == 4);
}

/// The profile in use stays in range, whatever is asked for.
pub proof fn profile_in_use_stays_sane(profile: Profile, request: DaemonRequest)
    requires
        profile.is_sane(),
    ensures
        next_profile(profile, request).is_sane(),
{
}

/// What is set is what the status tells from then on, brought into range; and asking for the
/// status changes nothing.
pub proof fn status_tells_what_was_set(
    before: SharedState,
    set: SharedState,
    asked: SharedState,
    profile: Profile,
    plan: RequestPlan,
)
    requires
        is_state_behind(set, before, DaemonRequest::SetProfile { profile }),
        is_state_behind(asked, set, DaemonRequest::GetStatus),
        plan.is_for(DaemonRequest::GetStatus, set),
    ensures
        asked == set,
        plan.effects@.len() == 0,
        plan.response matches DaemonResponse::Status { status } && status.profile
            == profile.sanitized() && status.devices@ == before.devices@,
{
}

/// Changing the polling interval, and hiding the controller, are patches.
pub proof fn single_changes_are_patches(profile: Profile, binterval: u8, enabled: bool)
    ensures
        ({
            let polling = DaemonRequest::ApplyPolling { binterval };
            let hiding = DaemonRequest::SetHidePhysical { enabled };
            let polling_as_patch = DaemonRequest::PatchProfile { patch: polling_patch(binterval) };
            let hiding_as_patch = DaemonRequest::PatchProfile { patch: hide_patch(enabled) };
            &&& next_profile(profile, polling) == next_profile(profile, polling_as_patch)
            &&& request_effects(profile, polling) == request_effects(profile, polling_as_patch)
            &&& next_profile(profile, hiding) == next_profile(profile, hiding_as_patch)
            &&& request_effects(profile, hiding) == request_effects(profile, hiding_as_patch)
        }),
{
}

/// A patch that leaves the settings of a profile in range alone is saved and takes nothing else.
pub proof fn shaping_sticks_is_only_saved(profile: Profile, patch: ProfilePatch)
    requires
        profile.is_sane(),
        patch.selected_device_path is None,
        patch.hide_physical is None,
        patch.disable_controller_audio is None,
        patch.polling_binterval is None,
    ensures
        request_effects(profile, DaemonRequest::PatchProfile { patch }) == seq![Effect::SaveConfig],
{
    assert(request_effects(profile, DaemonRequest::PatchProfile { patch }) =~= seq![
        Effect::SaveConfig,
    ]);
}

/// Hiding the controller, switching its audio off and changing its polling interval are apart from
/// each other: a change to one of them takes that setting and no other.
pub proof fn settings_are_apart(profile: Profile, binterval: u8, hide: bool, silent: bool)
    requires
        profile.is_sane(),
        1 <= binterval <= 16,
    ensures
        ({
            let silence = ProfilePatch {
                disable_controller_audio: Some(silent),
                ..ProfilePatch::nothing()
            };
            let polling = request_effects(profile, DaemonRequest::ApplyPolling { binterval });
            let hiding = request_effects(profile, DaemonRequest::SetHidePhysical { enabled: hide });
            let silencing = request_effects(profile, DaemonRequest::PatchProfile { patch: silence });
            &&& polling == if binterval == profile.polling_binterval {
                seq![Effect::SaveConfig]
            } else {
                seq![Effect::SaveConfig, Effect::Apply(Setting::Polling)]
            }
            &&& hiding == if hide == profile.hide_physical {
                seq![Effect::SaveConfig]
            } else {
                seq![Effect::SaveConfig, Effect::Apply(Setting::Hide)]
            }
            &&& silencing == if silent == profile.disable_controller_audio {
                seq![Effect::SaveConfig]
            } else {
                seq![Effect::SaveConfig, Effect::Apply(Setting::Audio)]
            }
        }),
{
    let silence = ProfilePatch { disable_controller_audio: Some(silent), ..ProfilePatch::nothing() };
    let polling = request_effects(profile, DaemonRequest::ApplyPolling { binterval });
    let hiding = request_effects(profile, DaemonRequest::SetHidePhysical { enabled: hide });
    let silencing = request_effects(profile, DaemonRequest::PatchProfile { patch: silence });
    assert(polling =~= if binterval == profile.polling_binterval {
        seq![Effect::SaveConfig]
    } else {
        seq![Effect::SaveConfig, Effect::Apply(Setting::Polling)]
    });
    assert(hiding =~= if hide == profile.hide_physical {
        seq![Effect::SaveConfig]
    } else {
        seq![Effect::SaveConfig, Effect::Apply(Setting::Hide)]
    });
    assert(silencing =~= if silent == profile.disable_controller_audio {
        seq![Effect::SaveConfig]
    } else {
        seq![Effect::SaveConfig, Effect::Apply(Setting::Audio)]
    });
}

/// Every change is saved before any setting is made, and nothing is done twice.
pub proof fn changes_are_saved_first(profile: Profile, request: DaemonRequest)
    requires
        is_change(request),
    ensures
        request_effects(profile, request).len() > 0,
        request_effects(profile, request)[0] == Effect::SaveConfig,
        request_effects(profile, request).no_duplicates(),
{
}

} // verus!
