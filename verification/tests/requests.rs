use ds4linux::config::{
    default_socket_group, default_target_user, env_value, fill_socket_group, primary_group_for_user,
    primary_group_query, sanitize_config, DaemonConfig, Environment, GroupReply,
};
use ds4linux::daemon::{
    handle_request, publish_devices, Effect, RequestRun, Setting, SettingContext, SharedState,
};
use ds4linux::protocol::{daemon_status, response_ok, response_of};
use ds4linux::system::SystemAction;
use ds4linux::{
    DaemonRequest, DaemonResponse, InputDeviceInfo, Metrics, Profile, ProfilePatch, Single,
    StatusSnapshot, StickProfile,
};

fn dualsense(path: &str) -> InputDeviceInfo {
    InputDeviceInfo {
        path: path.to_string(),
        name: "Wireless Controller".to_string(),
        vendor_id: Some("054c".to_string()),
        product_id: Some("0ce6".to_string()),
        is_selected: false,
        is_virtual: false,
    }
}

fn state() -> SharedState {
    let mut state = SharedState::new(DaemonConfig {
        socket_path: "/run/test.sock".to_string(),
        profile: Profile::default(),
        target_user: "player".to_string(),
        socket_group: "players".to_string(),
    });
    state.devices = vec![dualsense("/dev/input/event3"), dualsense("/dev/input/event5")];
    state
}

fn nowhere() -> Environment {
    Environment { target_user: None, sudo_user: None, user: None, socket_group: None }
}

fn set(text: &str) -> Option<String> {
    Some(text.to_string())
}

#[test]
fn a_new_state_knows_nothing() {
    let state = SharedState::new(DaemonConfig::unset());
    assert_eq!(state.devices, vec![]);
    assert_eq!(state.metrics, Metrics::default());
    assert!(!state.metrics.running);
    let snapshot = state.snapshot();
    assert_eq!(snapshot, StatusSnapshot::default());
}

#[test]
fn status_tells_the_state() {
    let mut state = state();
    state.metrics.last_error = set("oops");
    let plan = handle_request(DaemonRequest::GetStatus, &mut state);
    assert_eq!(plan.effects, vec![]);
    assert!(!plan.stop);
    let status = daemon_status(plan.response).unwrap();
    assert_eq!(status, state.snapshot());
    assert_eq!(status.devices.len(), 2);
    assert_eq!(status.metrics.last_error, set("oops"));
}

#[test]
fn a_set_profile_is_in_use_and_in_range() {
    let mut state = state();
    let profile = Profile {
        selected_device_path: set("/dev/input/event5"),
        polling_binterval: 40,
        disable_controller_audio: true,
        ..Profile::default()
    };
    let plan = handle_request(DaemonRequest::SetProfile { profile }, &mut state);
    assert_eq!(state.config.profile.polling_binterval, 16);
    assert_eq!(
        plan.effects,
        vec![
            Effect::SaveConfig,
            Effect::Apply(Setting::Polling),
            Effect::Apply(Setting::Hide),
            Effect::Apply(Setting::Audio),
        ]
    );
    let context = plan.context.unwrap();
    assert_eq!(context.profile, state.config.profile);
    assert_eq!(context.selected, Some(dualsense("/dev/input/event5")));
    assert_eq!(context.target_user, "player");
    assert_eq!(plan.response, DaemonResponse::Done);

    let plan = handle_request(DaemonRequest::GetStatus, &mut state);
    assert_eq!(daemon_status(plan.response).unwrap().profile, state.config.profile);
}

#[test]
fn patches_take_what_they_change() {
    let cases: Vec<(ProfilePatch, Vec<Effect>)> = vec![
        (ProfilePatch::default(), vec![Effect::SaveConfig]),
        (
            ProfilePatch { enabled: Some(false), ..ProfilePatch::default() },
            vec![Effect::SaveConfig],
        ),
        (
            ProfilePatch { left_stick: Some(StickProfile::default()), ..ProfilePatch::default() },
            vec![Effect::SaveConfig],
        ),
        (
            ProfilePatch { polling_binterval: Some(4), ..ProfilePatch::default() },
            vec![Effect::SaveConfig],
        ),
        (
            ProfilePatch { polling_binterval: Some(1), ..ProfilePatch::default() },
            vec![Effect::SaveConfig, Effect::Apply(Setting::Polling)],
        ),
        (
            ProfilePatch { hide_physical: Some(false), ..ProfilePatch::default() },
            vec![Effect::SaveConfig, Effect::Apply(Setting::Hide)],
        ),
        (
            ProfilePatch { hide_physical: Some(true), ..ProfilePatch::default() },
            vec![Effect::SaveConfig],
        ),
        (
            ProfilePatch { disable_controller_audio: Some(true), ..ProfilePatch::default() },
            vec![Effect::SaveConfig, Effect::Apply(Setting::Audio)],
        ),
        (
            ProfilePatch {
                selected_device_path: Some(set("/dev/input/event5")),
                ..ProfilePatch::default()
            },
            vec![
                Effect::SaveConfig,
                Effect::Apply(Setting::Hide),
                Effect::Apply(Setting::Audio),
            ],
        ),
    ];
    for (patch, effects) in cases {
        let mut state = state();
        let mut expected = state.config.profile.clone();
        patch.clone().apply_to(&mut expected);
        let plan = handle_request(DaemonRequest::PatchProfile { patch }, &mut state);
        assert_eq!(plan.effects, effects);
        assert_eq!(state.config.profile, expected);
        assert_eq!(plan.response, DaemonResponse::Done);
    }
}

#[test]
fn single_changes_are_patches_of_one_field() {
    let mut polled = state();
    let plan = handle_request(DaemonRequest::ApplyPolling { binterval: 0 }, &mut polled);
    assert_eq!(polled.config.profile.polling_binterval, 1);
    assert_eq!(plan.effects, vec![Effect::SaveConfig, Effect::Apply(Setting::Polling)]);
    let mut shown = state();
    let plan = handle_request(DaemonRequest::SetHidePhysical { enabled: false }, &mut shown);
    assert!(!shown.config.profile.hide_physical);
    assert_eq!(plan.effects, vec![Effect::SaveConfig, Effect::Apply(Setting::Hide)]);
}

#[test]
fn saving_saves_and_stopping_stops() {
    let mut state = state();
    let plan = handle_request(DaemonRequest::SaveProfile, &mut state);
    assert_eq!(plan.effects, vec![Effect::SaveConfig]);
    assert!(plan.context.is_none());
    assert!(!plan.stop);
    let plan = handle_request(DaemonRequest::Stop, &mut state);
    assert_eq!(plan.effects, vec![]);
    assert!(plan.stop);
    assert_eq!(plan.response, DaemonResponse::Done);
}

#[test]
fn settings_need_a_controller_to_hide_or_silence() {
    let context = SettingContext {
        profile: Profile { disable_controller_audio: true, ..Profile::default() },
        selected: None,
        target_user: "player".to_string(),
    };
    assert_eq!(
        context.actions(Setting::Hide),
        Err("no selected physical controller to hide".to_string())
    );
    assert_eq!(
        context.actions(Setting::Audio),
        Err("no selected physical controller for audio".to_string())
    );
    let polling = context.actions(Setting::Polling).unwrap();
    assert!(matches!(
        &polling[0],
        SystemAction::WriteFile { text, .. } if text == "054c:0ce6:4"
    ));
    let shown = SettingContext {
        profile: Profile { hide_physical: false, ..Profile::default() },
        selected: None,
        target_user: "player".to_string(),
    };
    assert_eq!(shown.actions(Setting::Hide).unwrap().len(), 6);
    assert_eq!(shown.actions(Setting::Audio).unwrap().len(), 6);
}

#[test]
fn a_run_without_failure_gives_the_planned_response() {
    let mut run = RequestRun::new(
        vec![Effect::SaveConfig, Effect::Apply(Setting::Hide)],
        DaemonResponse::Done,
    );
    assert_eq!(run.next_effect(), Some(Effect::SaveConfig));
    run.record(Ok(()));
    assert_eq!(run.next_effect(), Some(Effect::Apply(Setting::Hide)));
    run.record(Ok(()));
    assert_eq!(run.next_effect(), None);
    assert_eq!(run.finish(), DaemonResponse::Done);
}

#[test]
fn a_failed_save_ends_a_run() {
    let mut run = RequestRun::new(
        vec![Effect::SaveConfig, Effect::Apply(Setting::Polling), Effect::Apply(Setting::Hide)],
        DaemonResponse::Done,
    );
    run.record(Err("disk full".to_string()));
    assert_eq!(run.next_effect(), None);
    assert_eq!(run.finish(), DaemonResponse::Error { message: "disk full".to_string() });
}

#[test]
fn hiding_and_audio_do_not_need_the_polling_module() {
    let mut state = state();
    let request = DaemonRequest::SetProfile { profile: Profile::default() };
    let plan = handle_request(request, &mut state);
    let mut run = RequestRun::new(plan.effects, plan.response);
    run.record(Ok(()));
    assert_eq!(run.next_effect(), Some(Effect::Apply(Setting::Polling)));
    run.record(Err("is usb_oc loaded?".to_string()));
    assert_eq!(run.next_effect(), Some(Effect::Apply(Setting::Hide)));
    run.record(Ok(()));
    assert_eq!(run.next_effect(), Some(Effect::Apply(Setting::Audio)));
    run.record(Ok(()));
    assert_eq!(run.next_effect(), None);
    assert_eq!(run.finish(), DaemonResponse::Error { message: "is usb_oc loaded?".to_string() });
}

#[test]
fn the_first_failure_is_the_answer() {
    let mut run = RequestRun::new(
        vec![
            Effect::SaveConfig,
            Effect::Apply(Setting::Polling),
            Effect::Apply(Setting::Hide),
            Effect::Apply(Setting::Audio),
        ],
        DaemonResponse::Done,
    );
    run.record(Ok(()));
    run.record(Err("is usb_oc loaded?".to_string()));
    run.record(Err("udevadm exited with exit status: 1".to_string()));
    assert_eq!(run.next_effect(), None);
    assert_eq!(run.finish(), DaemonResponse::Error { message: "is usb_oc loaded?".to_string() });

    let mut run = RequestRun::new(vec![Effect::Apply(Setting::Polling)], DaemonResponse::Done);
    run.record(Err("is usb_oc loaded?".to_string()));
    assert_eq!(run.next_effect(), None);
    assert_eq!(run.finish(), DaemonResponse::Error { message: "is usb_oc loaded?".to_string() });
}

#[test]
fn responses_are_understood() {
    let status = StatusSnapshot::default();
    assert_eq!(response_ok(DaemonResponse::Done), Ok(()));
    assert_eq!(
        response_ok(DaemonResponse::Error { message: "no".to_string() }),
        Err("no".to_string())
    );
    assert_eq!(
        response_ok(DaemonResponse::Status { status: status.clone() }),
        Err("unexpected status response".to_string())
    );
    assert_eq!(daemon_status(DaemonResponse::Status { status: status.clone() }), Ok(status));
    assert_eq!(
        daemon_status(DaemonResponse::Error { message: "no".to_string() }),
        Err("no".to_string())
    );
    assert_eq!(daemon_status(DaemonResponse::Done), Err("unexpected ok response".to_string()));
    assert_eq!(response_of(Ok(DaemonResponse::Done)), DaemonResponse::Done);
    assert_eq!(
        response_of(Err("no".to_string())),
        DaemonResponse::Error { message: "no".to_string() }
    );
}

#[test]
fn messages_can_be_copied() {
    let profile = Profile {
        left_stick: StickProfile { deadzone: Single::from_bits(0), ..StickProfile::default() },
        ..Profile::default()
    };
    let request = DaemonRequest::SetProfile { profile };
    assert_eq!(request.clone(), request);
    let response = DaemonResponse::Status { status: state().snapshot() };
    assert_eq!(response.clone(), response);
}

#[test]
fn published_devices_show_the_selection() {
    let mut state = state();
    let devices = vec![dualsense("/dev/input/event8"), dualsense("/dev/input/event9")];
    let profile = Profile { selected_device_path: set("/dev/input/event9"), ..Profile::default() };
    publish_devices(&mut state, &profile, &devices);
    assert_eq!(state.devices.len(), 2);
    assert!(!state.devices[0].is_selected);
    assert!(state.devices[1].is_selected);
    assert_eq!(state.devices[1].path, "/dev/input/event9");
}

#[test]
fn blank_variables_count_as_not_set() {
    assert_eq!(env_value(&set("  ada \n")), set("ada"));
    assert_eq!(env_value(&set("  ")), None);
    assert_eq!(env_value(&None), None);
}

#[test]
fn the_user_is_looked_for_in_order() {
    assert_eq!(default_target_user(&nowhere()), "root");
    let user = Environment { user: set("ada"), ..nowhere() };
    assert_eq!(default_target_user(&user), "ada");
    let sudo = Environment { sudo_user: set("grace"), user: set("root"), ..nowhere() };
    assert_eq!(default_target_user(&sudo), "grace");
    let root = Environment { sudo_user: set("root"), user: set("ada"), ..nowhere() };
    assert_eq!(default_target_user(&root), "ada");
    let named = Environment { target_user: set(" edsger "), sudo_user: set("grace"), ..nowhere() };
    assert_eq!(default_target_user(&named), "edsger");
}

#[test]
fn the_group_is_looked_for_in_order() {
    assert_eq!(default_socket_group(&set("games"), set("ada")), "games");
    assert_eq!(default_socket_group(&None, set("ada")), "ada");
    assert_eq!(default_socket_group(&set(" "), None), "users");
}

#[test]
fn primary_groups_are_asked_for_and_told() {
    assert_eq!(primary_group_query("ada"), Some(vec!["-gn".to_string(), "ada".to_string()]));
    assert_eq!(primary_group_query("  "), None);
    let reply = |success: bool, stdout: &[u8]| Some(GroupReply { success, stdout: stdout.to_vec() });
    assert_eq!(primary_group_for_user("ada", reply(true, b"staff\n")), set("staff"));
    assert_eq!(primary_group_for_user("ada", reply(false, b"staff\n")), None);
    assert_eq!(primary_group_for_user("ada", reply(true, b"\n")), None);
    assert_eq!(primary_group_for_user("ada", reply(true, &[0xff, 0x61])), None);
    assert_eq!(primary_group_for_user(" ", reply(true, b"staff\n")), None);
    assert_eq!(primary_group_for_user("ada", None), None);
}

#[test]
fn loading_completes_a_configuration() {
    let mut config = DaemonConfig::unset();
    config.profile.polling_binterval = 0;
    let env = Environment { user: set("ada"), ..nowhere() };
    assert!(sanitize_config(&mut config, &env));
    assert_eq!(config.target_user, "ada");
    assert_eq!(config.profile.polling_binterval, 1);
    fill_socket_group(&mut config, &env, set("staff"));
    assert_eq!(config.socket_group, "staff");
    assert_eq!(config.socket_path, "/run/ds4linux/ds4linux.sock");
    let before = config.clone();
    assert!(!sanitize_config(&mut config, &nowhere()));
    assert_eq!(config, before);
}

#[test]
fn the_environment_can_name_the_group() {
    let mut config = DaemonConfig::unset();
    let env = Environment { socket_group: set("games"), ..nowhere() };
    assert!(!sanitize_config(&mut config, &env));
    assert_eq!(config.socket_group, "games");
    assert_eq!(config.target_user, "root");
}
