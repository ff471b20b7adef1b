use ds4linux::config::DaemonConfig;
use ds4linux::daemon::{Setting, SharedState};
use ds4linux::input::{
    is_gamepad_button, virtual_device_setup, InputEvent, ABS_HAT0X, ABS_HAT0Y, ABS_RX, ABS_RY, ABS_RZ, ABS_X, ABS_Y, ABS_Z, BTN_NORTH,
    BTN_SOUTH, BTN_WEST, EV_ABS, EV_KEY, EV_SYN, SYN_DROPPED, SYN_REPORT,
};
use ds4linux::meter::{
    drain_hidraw_reports, meter_tick_due, path_check_due, publish_hidraw_rate, wait_for_input,
    DrainStep, HidrawMeter, PathStep, ReadResult, POLLIN,
};
use ds4linux::remap::{
    control_sync_due, publish_gone, publish_open_failed, publish_rates, publish_read_failed,
    rate_tick_due, status_publish_due, update_axis, EventStep, OpeningRun, Remapper, Selection,
};
use ds4linux::{ControllerSample, InputDeviceInfo, Metrics, Profile, Single, Stick2};

fn device(path: &str) -> InputDeviceInfo {
    InputDeviceInfo {
        path: path.to_string(),
        name: "pad".to_string(),
        vendor_id: Some("054c".to_string()),
        product_id: Some("0ce6".to_string()),
        is_selected: false,
        is_virtual: false,
    }
}

fn event(event_type: u16, code: u16, value: i32) -> InputEvent {
    InputEvent { event_type, code, value }
}

fn unshaped() -> Remapper {
    Remapper::new(
        Profile { enabled: false, ..Profile::default() },
        "player".to_string(),
        Some("/dev/input/event20".to_string()),
    )
}

fn shaped() -> Remapper {
    Remapper::new(Profile::default(), "player".to_string(), None)
}

#[test]
fn unshaped_sticks_are_shown_where_they_are() {
    let mut remapper = unshaped();
    assert_eq!(remapper.handle_event(EV_ABS, ABS_X, 255), EventStep::Nothing);
    assert_eq!(remapper.raw.left, Stick2 { x: 255, y: 0 });
    assert_eq!(remapper.output.left, Stick2 { x: 32767, y: -32768 });
    assert_eq!(
        remapper.pending,
        vec![event(EV_ABS, ABS_X, 32767), event(EV_ABS, ABS_Y, -32768)]
    );
    assert_eq!(remapper.handle_event(EV_ABS, ABS_RY, 128), EventStep::Nothing);
    assert_eq!(remapper.raw.right, Stick2 { x: 0, y: 128 });
    assert_eq!(
        remapper.pending[2..],
        vec![event(EV_ABS, ABS_RX, -32768), event(EV_ABS, ABS_RY, 0)][..]
    );
}

#[test]
fn shaped_sticks_are_shown_where_they_are_shaped_to() {
    let mut remapper = shaped();
    assert_eq!(remapper.handle_event(EV_ABS, ABS_Y, 255), EventStep::Nothing);
    assert_eq!(remapper.raw.left, Stick2 { x: 0, y: 255 });
    assert_eq!(remapper.output.left, Stick2 { x: -32768, y: 32767 });
    assert_eq!(
        remapper.pending,
        vec![event(EV_ABS, ABS_X, -32768), event(EV_ABS, ABS_Y, 32767)]
    );
    remapper.handle_event(EV_ABS, ABS_RY, 128);
    assert_eq!(remapper.handle_event(EV_ABS, ABS_RX, 128), EventStep::Nothing);
    assert_eq!(remapper.output.right, Stick2 { x: 0, y: 0 });
    assert_eq!(remapper.output.left, Stick2 { x: -32768, y: 32767 });
}

#[test]
fn triggers_and_pad_stay_in_range() {
    let mut remapper = shaped();
    for (axis, value, expected) in vec![
        (ABS_Z, 300, 255),
        (ABS_RZ, -4, 0),
        (ABS_HAT0X, -9, -1),
        (ABS_HAT0Y, 1, 1),
    ] {
        assert_eq!(remapper.handle_event(EV_ABS, axis, value), EventStep::Nothing);
        assert_eq!(remapper.pending.last(), Some(&event(EV_ABS, axis, expected)));
    }
    assert_eq!(remapper.raw.l2, 255);
    assert_eq!(remapper.raw.hat_x, -1);
    assert_eq!(remapper.output, remapper.raw);
    let before = remapper.pending.clone();
    assert_eq!(remapper.handle_event(EV_ABS, 40, 1), EventStep::Nothing);
    assert_eq!(remapper.pending, before);
}

#[test]
fn buttons_are_passed_on_and_other_keys_are_not() {
    let mut remapper = shaped();
    remapper.handle_event(EV_KEY, BTN_SOUTH, 1);
    remapper.handle_event(EV_KEY, BTN_NORTH, 1);
    remapper.handle_event(EV_KEY, BTN_WEST, 0);
    remapper.handle_event(EV_KEY, 30, 1);
    remapper.handle_event(2, 0, 5);
    assert_eq!(
        remapper.pending,
        vec![
            event(EV_KEY, BTN_SOUTH, 1),
            event(EV_KEY, BTN_WEST, 1),
            event(EV_KEY, BTN_NORTH, 0),
        ]
    );
}

#[test]
fn reports_are_sent_when_they_end() {
    let mut remapper = shaped();
    assert_eq!(remapper.handle_event(EV_SYN, SYN_REPORT, 0), EventStep::Nothing);
    assert_eq!((remapper.input_count, remapper.output_count), (1, 0));
    remapper.handle_event(EV_KEY, BTN_SOUTH, 1);
    assert_eq!(remapper.handle_event(EV_SYN, SYN_REPORT, 0), EventStep::Emit);
    assert_eq!(remapper.pending.len(), 1);
    remapper.events_emitted();
    assert_eq!(remapper.pending, vec![]);
    let two = Single::from_bits(2.0f32.to_bits());
    let rates = remapper.take_rates(two);
    assert_eq!((f32::from_bits(rates.0.bits), f32::from_bits(rates.1.bits)), (1.0, 0.5));
    assert_eq!((remapper.input_count, remapper.output_count), (0, 0));
}

#[test]
fn only_events_that_the_virtual_controller_offers_are_sent() {
    let setup = virtual_device_setup();
    let offered = |event: &InputEvent| {
        if event.event_type == EV_KEY {
            is_gamepad_button(event.code)
        } else {
            setup.axes.iter().any(|axis| {
                axis.axis == event.code
                    && axis.minimum <= event.value
                    && event.value <= axis.maximum
            })
        }
    };
    let mut remapper = shaped();
    let mut seed: u32 = 12345;
    let mut next = || {
        seed = seed.wrapping_mul(1664525).wrapping_add(1013904223);
        seed >> 8
    };
    for _ in 0..3000 {
        let event_type = (next() % 5) as u16;
        let code = if event_type == EV_KEY { BTN_SOUTH + (next() % 16) as u16 } else { (next() % 20) as u16 };
        let value = (next() % 700) as i32 - 200;
        let step = remapper.handle_event(event_type, code, value);
        assert!(remapper.pending.iter().all(offered));
        assert_eq!(remapper.raw.l2, remapper.output.l2);
        assert_eq!(remapper.raw.hat_y, remapper.output.hat_y);
        if step == EventStep::Emit {
            remapper.events_emitted();
        }
    }
    assert!(remapper.output_count > 0);
}

#[test]
fn lost_events_take_the_report_with_them() {
    let mut remapper = shaped();
    remapper.handle_event(EV_KEY, BTN_SOUTH, 1);
    assert_eq!(remapper.handle_event(EV_SYN, SYN_DROPPED, 0), EventStep::Dropped);
    assert_eq!(remapper.pending, vec![]);
    assert_eq!(remapper.handle_event(EV_SYN, 1, 0), EventStep::Nothing);
    assert_eq!(remapper.input_count, 0);
}

#[test]
fn axes_can_be_taken_in_alone() {
    let mut raw = ControllerSample::default();
    let mut output = ControllerSample::default();
    let mut pending: Vec<InputEvent> = Vec::new();
    let off = Profile { enabled: false, ..Profile::default() };
    update_axis(ABS_X, 128, &mut raw, &mut output, &off, &mut pending);
    assert_eq!(output.left, Stick2 { x: 0, y: -32768 });
    assert_eq!(pending, vec![event(EV_ABS, ABS_X, 0), event(EV_ABS, ABS_Y, -32768)]);
    let on = Profile::default();
    update_axis(ABS_RY, 128, &mut raw, &mut output, &on, &mut pending);
    assert_eq!(raw.right, Stick2 { x: 0, y: 128 });
    assert_eq!(output.right, Stick2 { x: -32768, y: 0 });
    assert_eq!(pending[2..], [event(EV_ABS, ABS_RX, -32768), event(EV_ABS, ABS_RY, 0)]);
    update_axis(ABS_Z, 300, &mut raw, &mut output, &on, &mut pending);
    assert_eq!((raw.l2, output.l2), (255, 255));
    assert_eq!(pending[4..], [event(EV_ABS, ABS_Z, 255)]);
}

#[test]
fn reports_hold_all_that_came_in_its_order() {
    let mut remapper = unshaped();
    remapper.handle_event(EV_KEY, BTN_NORTH, 1);
    remapper.handle_event(EV_ABS, ABS_RZ, 7);
    remapper.handle_event(EV_ABS, ABS_X, 128);
    remapper.handle_event(EV_KEY, 30, 1);
    assert_eq!(remapper.handle_event(EV_SYN, SYN_REPORT, 0), EventStep::Emit);
    assert_eq!(
        remapper.pending,
        vec![
            event(EV_KEY, BTN_WEST, 1),
            event(EV_ABS, ABS_RZ, 7),
            event(EV_ABS, ABS_X, 0),
            event(EV_ABS, ABS_Y, -32768),
        ]
    );
    remapper.events_emitted();
    assert_eq!(remapper.handle_event(EV_SYN, SYN_REPORT, 0), EventStep::Nothing);
}

#[test]
fn only_the_end_of_a_report_needs_room_in_the_counter() {
    let mut remapper = unshaped();
    remapper.input_count = u32::MAX;
    assert_eq!(remapper.handle_event(EV_KEY, BTN_SOUTH, 1), EventStep::Nothing);
    assert_eq!(remapper.handle_event(EV_SYN, SYN_DROPPED, 0), EventStep::Dropped);
    let mut count = u32::MAX;
    assert_eq!(drain_hidraw_reports(ReadResult::WouldBlock, &mut count), DrainStep::Done);
    assert_eq!(drain_hidraw_reports(ReadResult::Failed, &mut count), DrainStep::Failed);
    assert_eq!(count, u32::MAX);
}

#[test]
fn controllers_are_looked_for_while_none_is_open() {
    let mut remapper = shaped();
    assert!(remapper.scan_due(0));
    remapper.scanned(vec![device("/dev/input/event3")]);
    assert!(!remapper.scan_due(999));
    assert!(remapper.scan_due(1000));
    assert!(matches!(remapper.select(), Selection::Open(_)));
    remapper.opened();
    assert!(!remapper.scan_due(5000));
}

#[test]
fn things_are_done_when_they_are_due() {
    assert!(!control_sync_due(9) && control_sync_due(10));
    assert!(!rate_tick_due(999) && rate_tick_due(1000));
    assert!(!status_publish_due(15) && status_publish_due(16));
    assert!(!path_check_due(249) && path_check_due(250));
    assert!(!meter_tick_due(999) && meter_tick_due(1000));
    let mut remapper = shaped();
    assert_eq!(remapper.pause_ms(), 250);
    remapper.scanned(vec![device("/dev/input/event3")]);
    remapper.select();
    remapper.opened();
    assert_eq!(remapper.pause_ms(), 0);
}

#[test]
fn every_setting_is_tried_for_an_opened_controller() {
    let mut opening = OpeningRun::new();
    assert_eq!(opening.next_setting(), Some(Setting::Polling));
    assert_eq!(
        opening.record(Err("a".to_string())),
        Some("apply polling override failed: a".to_string())
    );
    assert_eq!(opening.next_setting(), Some(Setting::Hide));
    assert_eq!(
        opening.record(Err("b".to_string())),
        Some("apply physical hide setting failed: b".to_string())
    );
    assert_eq!(opening.next_setting(), Some(Setting::Audio));
    assert_eq!(
        opening.record(Err("c".to_string())),
        Some("apply controller audio setting failed: c".to_string())
    );
    assert_eq!(opening.next_setting(), None);
    let mut quiet = OpeningRun::new();
    assert_eq!(quiet.record(Ok(())), None);
    assert_eq!(quiet.next_setting(), Some(Setting::Hide));
}

#[test]
fn another_selection_lets_the_controller_go() {
    let mut remapper = shaped();
    assert_eq!(remapper.select(), Selection::Unchanged);
    remapper.scanned(vec![device("/dev/input/event3"), device("/dev/input/event5")]);
    match remapper.select() {
        Selection::Open(context) => {
            assert_eq!(context.selected, Some(device("/dev/input/event3")));
            assert_eq!(context.profile, Profile::default());
            assert_eq!(context.target_user, "player");
        }
        other => panic!("{other:?}"),
    }
    assert_eq!(remapper.current_path, Some("/dev/input/event3".to_string()));
    remapper.opened();
    assert_eq!(remapper.select(), Selection::Unchanged);
    remapper.handle_event(EV_KEY, BTN_SOUTH, 1);

    let mut state = SharedState::new(DaemonConfig::unset());
    state.config.profile.selected_device_path = Some("/dev/input/event5".to_string());
    state.config.target_user = "ada".to_string();
    remapper.sync(&state);
    match remapper.select() {
        Selection::Open(context) => {
            assert_eq!(context.selected, Some(device("/dev/input/event5")));
            assert_eq!(context.target_user, "ada");
        }
        other => panic!("{other:?}"),
    }
    assert!(!remapper.device_open);
    assert_eq!(remapper.pending, vec![]);
    remapper.scanned(Vec::new());
    assert_eq!(remapper.select(), Selection::Gone);
    assert_eq!(remapper.current_path, None);
}

#[test]
fn a_controller_that_cannot_be_opened_is_not_tried_again() {
    let mut remapper = shaped();
    remapper.scanned(vec![device("/dev/input/event3")]);
    assert!(matches!(remapper.select(), Selection::Open(_)));
    assert_eq!(remapper.select(), Selection::Unchanged);
    assert!(!remapper.device_open);
}

#[test]
fn a_controller_that_cannot_be_read_is_opened_again() {
    let mut remapper = shaped();
    remapper.scanned(vec![device("/dev/input/event3")]);
    remapper.select();
    remapper.opened();
    assert_eq!(
        remapper.read_failed("No such device (os error 19)"),
        "read /dev/input/event3 failed: No such device (os error 19)"
    );
    assert!(!remapper.device_open);
    assert!(matches!(remapper.select(), Selection::Open(_)));
    let mut idle = shaped();
    assert_eq!(idle.read_failed("x"), "read ? failed: x");
}

#[test]
fn metrics_follow_the_controller() {
    let mut remapper = unshaped();
    let mut metrics = Metrics::default();
    metrics.last_error = Some("old".to_string());
    remapper.publish_opened(
        &mut metrics,
        "/dev/input/event3".to_string(),
        Some("/dev/hidraw3".to_string()),
    );
    assert_eq!(metrics.physical_path, Some("/dev/input/event3".to_string()));
    assert_eq!(metrics.hidraw_path, Some("/dev/hidraw3".to_string()));
    assert_eq!(metrics.virtual_path, Some("/dev/input/event20".to_string()));
    assert!(metrics.physical_hidden);
    assert!(!metrics.controller_audio_disabled);
    assert_eq!(metrics.last_error, None);

    publish_read_failed(&mut metrics, "read failed".to_string());
    assert_eq!(metrics.last_error, Some("read failed".to_string()));
    assert_eq!(metrics.physical_path, Some("/dev/input/event3".to_string()));

    publish_open_failed(&mut metrics, "open failed".to_string());
    assert_eq!(metrics.physical_path, None);
    assert_eq!(metrics.hidraw_path, None);
    assert_eq!(metrics.last_error, Some("open failed".to_string()));

    metrics.physical_path = Some("x".to_string());
    publish_gone(&mut metrics);
    assert_eq!(metrics.physical_path, None);
    assert_eq!(metrics.last_error, Some("open failed".to_string()));

    let hz = Single::from_bits(1000.0f32.to_bits());
    publish_rates(&mut metrics, hz, Single::from_bits(500.0f32.to_bits()));
    assert_eq!(metrics.input_hz, hz);
    assert!(metrics.running);

    remapper.virtual_device_at(None);
    assert_eq!(remapper.virtual_path, None);
}

#[test]
fn status_shows_both_controllers() {
    let mut remapper = unshaped();
    remapper.handle_event(EV_ABS, ABS_Z, 200);
    let mut state = SharedState::new(DaemonConfig::unset());
    remapper.publish_status(&mut state);
    assert_eq!(state.raw.l2, 200);
    assert_eq!(state.output.l2, 200);
    assert_eq!(state.metrics.virtual_path, Some("/dev/input/event20".to_string()));
    assert!(state.metrics.physical_hidden);
}

#[test]
fn draining_counts_reports_up_to_the_end() {
    let mut count: u32 = 0;
    assert_eq!(drain_hidraw_reports(ReadResult::Bytes(64), &mut count), DrainStep::ReadOn);
    assert_eq!(drain_hidraw_reports(ReadResult::Bytes(1), &mut count), DrainStep::ReadOn);
    assert_eq!(drain_hidraw_reports(ReadResult::WouldBlock, &mut count), DrainStep::Done);
    assert_eq!(drain_hidraw_reports(ReadResult::Bytes(0), &mut count), DrainStep::Done);
    assert_eq!(drain_hidraw_reports(ReadResult::Failed, &mut count), DrainStep::Failed);
    assert_eq!(count, 2);
}

#[test]
fn waiting_tells_whether_there_is_input() {
    assert_eq!(POLLIN, libc::POLLIN);
    assert_eq!(wait_for_input(1, libc::POLLIN), Ok(true));
    assert_eq!(wait_for_input(1, libc::POLLIN | libc::POLLHUP), Ok(true));
    assert_eq!(wait_for_input(1, libc::POLLHUP), Ok(false));
    assert_eq!(wait_for_input(0, libc::POLLIN), Ok(false));
    assert_eq!(wait_for_input(-1, 0), Err("poll failed".to_string()));
}

#[test]
fn the_meter_follows_its_node() {
    let mut meter = HidrawMeter::new();
    let mut state = SharedState::new(DaemonConfig::unset());
    assert_eq!(meter.check_path(Some(&state)), PathStep::Unchanged);
    state.metrics.hidraw_path = Some("/dev/hidraw3".to_string());
    assert_eq!(meter.check_path(Some(&state)), PathStep::Open("/dev/hidraw3".to_string()));
    meter.opened();
    assert_eq!(meter.check_path(Some(&state)), PathStep::Unchanged);
    assert!(meter.file_open);
    meter.reports_read(3);
    meter.reports_read(4);
    assert_eq!(meter.check_path(None), PathStep::Gone);
    assert!(!meter.file_open);
    let half = Single::from_bits(0.5f32.to_bits());
    assert_eq!(f32::from_bits(meter.take_rate(half).bits), 14.0);
    assert_eq!(f32::from_bits(meter.take_rate(half).bits), 0.0);
}

#[test]
fn a_node_that_cannot_be_read_is_opened_again() {
    let mut meter = HidrawMeter::new();
    let mut state = SharedState::new(DaemonConfig::unset());
    state.metrics.hidraw_path = Some("/dev/hidraw3".to_string());
    meter.check_path(Some(&state));
    meter.opened();
    meter.read_failed();
    assert_eq!(meter.check_path(Some(&state)), PathStep::Open("/dev/hidraw3".to_string()));
}

#[test]
fn the_rate_comes_with_the_polling_in_force() {
    let mut state = SharedState::new(DaemonConfig::unset());
    let hz = Single::from_bits(997.5f32.to_bits());
    publish_hidraw_rate(
        &mut state,
        hz,
        true,
        Some("054c:0ce6:1\n"),
        Some("usb_oc\n"),
        Some("options usb_oc interrupt_interval_override=054c:0ce6:1\n"),
    );
    assert_eq!(state.metrics.hidraw_hz, hz);
    assert_eq!(f32::from_bits(state.metrics.configured_polling_hz.unwrap().bits), 8000.0);
    assert_eq!(f32::from_bits(state.metrics.configured_polling_ms.unwrap().bits), 0.125);
    assert_eq!(state.metrics.usb_oc_value, Some("054c:0ce6:1".to_string()));
    assert!(state.metrics.usb_oc_loaded);
    assert!(state.metrics.usb_oc_persistent);
    publish_hidraw_rate(&mut state, hz, false, Some("none"), None, None);
    assert_eq!(f32::from_bits(state.metrics.configured_polling_hz.unwrap().bits), 1000.0);
    assert_eq!(state.metrics.usb_oc_value, Some("none".to_string()));
    publish_hidraw_rate(&mut state, hz, false, None, None, None);
    assert_eq!(f32::from_bits(state.metrics.configured_polling_ms.unwrap().bits), 1.0);
    assert_eq!(state.metrics.usb_oc_value, None);
    assert!(!state.metrics.usb_oc_persistent);
}
