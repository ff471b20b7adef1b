use ds4linux::device::{
    enumerate_controllers, mark_selected, selected_device_for_profile, ControllerProbe,
};
use ds4linux::input::{
    gamepad_button_codes, is_gamepad_button, output_key_for_xbox, virtual_device_setup, ABS_HAT0X,
    ABS_HAT0Y, ABS_RX, ABS_RY, ABS_RZ, ABS_X, ABS_Y, ABS_Z, BTN_EAST, BTN_MODE, BTN_NORTH,
    BTN_SELECT, BTN_SOUTH, BTN_START, BTN_THUMBL, BTN_THUMBR, BTN_TL, BTN_TL2, BTN_TR, BTN_TR2,
    BTN_WEST, EV_ABS, EV_KEY, EV_SYN, SYN_DROPPED, SYN_REPORT,
};
use ds4linux::{InputDeviceInfo, Profile};
use evdev::{AbsoluteAxisCode, AttributeSet, BusType, EventType, KeyCode, SynchronizationCode};

fn device(path: &str, vendor: &str, product: &str, is_virtual: bool) -> InputDeviceInfo {
    InputDeviceInfo {
        path: path.to_string(),
        name: "pad".to_string(),
        vendor_id: Some(vendor.to_string()),
        product_id: Some(product.to_string()),
        is_selected: false,
        is_virtual,
    }
}

fn choosing(path: Option<&str>) -> Profile {
    Profile { selected_device_path: path.map(String::from), ..Profile::default() }
}

fn selected(path: Option<&str>, devices: &[InputDeviceInfo]) -> Option<String> {
    selected_device_for_profile(&choosing(path), devices).map(|device| device.path)
}

#[test]
fn codes_are_those_of_evdev() {
    assert_eq!(EV_SYN, EventType::SYNCHRONIZATION.0);
    assert_eq!(EV_KEY, EventType::KEY.0);
    assert_eq!(EV_ABS, EventType::ABSOLUTE.0);
    assert_eq!(SYN_REPORT, SynchronizationCode::SYN_REPORT.0);
    assert_eq!(SYN_DROPPED, SynchronizationCode::SYN_DROPPED.0);
    assert_eq!(ABS_X, AbsoluteAxisCode::ABS_X.0);
    assert_eq!(ABS_Y, AbsoluteAxisCode::ABS_Y.0);
    assert_eq!(ABS_Z, AbsoluteAxisCode::ABS_Z.0);
    assert_eq!(ABS_RX, AbsoluteAxisCode::ABS_RX.0);
    assert_eq!(ABS_RY, AbsoluteAxisCode::ABS_RY.0);
    assert_eq!(ABS_RZ, AbsoluteAxisCode::ABS_RZ.0);
    assert_eq!(ABS_HAT0X, AbsoluteAxisCode::ABS_HAT0X.0);
    assert_eq!(ABS_HAT0Y, AbsoluteAxisCode::ABS_HAT0Y.0);
    let buttons = vec![
        (BTN_SOUTH, KeyCode::BTN_SOUTH),
        (BTN_EAST, KeyCode::BTN_EAST),
        (BTN_NORTH, KeyCode::BTN_NORTH),
        (BTN_WEST, KeyCode::BTN_WEST),
        (BTN_TL, KeyCode::BTN_TL),
        (BTN_TR, KeyCode::BTN_TR),
        (BTN_TL2, KeyCode::BTN_TL2),
        (BTN_TR2, KeyCode::BTN_TR2),
        (BTN_SELECT, KeyCode::BTN_SELECT),
        (BTN_START, KeyCode::BTN_START),
        (BTN_MODE, KeyCode::BTN_MODE),
        (BTN_THUMBL, KeyCode::BTN_THUMBL),
        (BTN_THUMBR, KeyCode::BTN_THUMBR),
    ];
    for (code, key) in &buttons {
        assert_eq!(*code, key.0);
        assert!(is_gamepad_button(*code));
    }
    let codes: Vec<u16> = buttons.iter().map(|(code, _)| *code).collect();
    assert_eq!(gamepad_button_codes(), codes);
    assert!(!is_gamepad_button(KeyCode::KEY_A.0));
    assert!(!is_gamepad_button(KeyCode::BTN_C.0));
}

#[test]
fn two_buttons_change_places() {
    assert_eq!(output_key_for_xbox(BTN_NORTH), BTN_WEST);
    assert_eq!(output_key_for_xbox(BTN_WEST), BTN_NORTH);
    assert_eq!(output_key_for_xbox(BTN_SOUTH), BTN_SOUTH);
    for key in gamepad_button_codes() {
        assert_eq!(output_key_for_xbox(output_key_for_xbox(key)), key);
        assert!(is_gamepad_button(output_key_for_xbox(key)));
    }
}

#[test]
fn virtual_controller_is_an_xbox_controller() {
    let setup = virtual_device_setup();
    assert_eq!(setup.name, "DS4Linux Virtual Xbox 360 Controller");
    assert_eq!(setup.bus, BusType::BUS_USB.0);
    assert_eq!((setup.vendor, setup.product, setup.version), (0x045e, 0x028e, 0x0110));
    for axis in &setup.axes {
        assert_eq!((axis.value, axis.fuzz, axis.flat, axis.resolution), (0, 0, 0, 0));
    }
    let keys = setup.keys.as_attributes();
    for key in gamepad_button_codes() {
        assert!(keys.contains(KeyCode(key)));
    }
    assert_eq!(keys.iter().count(), 13);
    let axes: Vec<(u16, i32, i32)> =
        setup.axes.iter().map(|axis| (axis.axis, axis.minimum, axis.maximum)).collect();
    assert_eq!(
        axes,
        vec![
            (ABS_X, -32768, 32767),
            (ABS_Y, -32768, 32767),
            (ABS_RX, -32768, 32767),
            (ABS_RY, -32768, 32767),
            (ABS_Z, 0, 255),
            (ABS_RZ, 0, 255),
            (ABS_HAT0X, -1, 1),
            (ABS_HAT0Y, -1, 1),
        ]
    );
}

#[test]
fn the_chosen_device_comes_first() {
    let devices = vec![
        device("/dev/input/event1", "045e", "028e", true),
        device("/dev/input/event2", "045e", "0b12", false),
        device("/dev/input/event3", "054c", "0ce6", false),
        device("/dev/input/event4", "054c", "0ce6", false),
    ];
    assert_eq!(selected(Some("/dev/input/event1"), &devices), Some("/dev/input/event1".to_string()));
    assert_eq!(selected(Some("/dev/input/event9"), &devices), Some("/dev/input/event3".to_string()));
    assert_eq!(selected(None, &devices), Some("/dev/input/event3".to_string()));
    assert_eq!(selected(None, &devices[..2]), Some("/dev/input/event2".to_string()));
    assert_eq!(selected(None, &devices[..1]), None);
    assert_eq!(selected(None, &[]), None);
}

#[test]
fn a_device_without_identity_can_be_selected() {
    let unknown = InputDeviceInfo { path: "/dev/input/event7".to_string(), ..InputDeviceInfo::default() };
    assert_eq!(selected(None, &[unknown]), Some("/dev/input/event7".to_string()));
}

#[test]
fn marking_marks_the_selected_path() {
    let devices = vec![
        device("/dev/input/event1", "054c", "0ce6", false),
        device("/dev/input/event2", "054c", "0ce6", false),
    ];
    let marked = mark_selected(devices.clone(), Some("/dev/input/event2"));
    assert!(!marked[0].is_selected);
    assert!(marked[1].is_selected);
    assert_eq!(mark_selected(devices.clone(), None), devices);
    assert_eq!(mark_selected(marked.clone(), None), marked);
    let moved = mark_selected(marked, Some("/dev/input/event1"));
    assert!(moved[0].is_selected);
    assert!(!moved[1].is_selected);
    assert_eq!(selected(None, &moved), Some("/dev/input/event1".to_string()));
}

#[test]
fn controllers_are_found_and_sorted() {
    let mut stick = AttributeSet::<AbsoluteAxisCode>::new();
    stick.insert(AbsoluteAxisCode::ABS_X);
    stick.insert(AbsoluteAxisCode::ABS_Y);
    let mut half_stick = AttributeSet::<AbsoluteAxisCode>::new();
    half_stick.insert(AbsoluteAxisCode::ABS_X);
    let mut pad = AttributeSet::<KeyCode>::new();
    pad.insert(KeyCode::BTN_THUMBR);
    let mut keyboard = AttributeSet::<KeyCode>::new();
    keyboard.insert(KeyCode::KEY_A);
    let probes = vec![
        ControllerProbe {
            path: "/dev/input/event5".to_string(),
            name: Some("Wireless Controller".to_string()),
            axes: Some(&stick),
            keys: Some(&pad),
            vendor: 0x054c,
            product: 0x0ce6,
        },
        ControllerProbe {
            path: "/dev/input/event12".to_string(),
            name: None,
            axes: Some(&stick),
            keys: Some(&pad),
            vendor: 0x1,
            product: 0xabcd,
        },
        ControllerProbe {
            path: "/dev/input/event2".to_string(),
            name: Some("half a stick".to_string()),
            axes: Some(&half_stick),
            keys: Some(&pad),
            vendor: 1,
            product: 1,
        },
        ControllerProbe {
            path: "/dev/input/event3".to_string(),
            name: Some("keyboard".to_string()),
            axes: Some(&stick),
            keys: Some(&keyboard),
            vendor: 1,
            product: 1,
        },
        ControllerProbe {
            path: "/dev/input/event4".to_string(),
            name: Some("no keys".to_string()),
            axes: Some(&stick),
            keys: None,
            vendor: 1,
            product: 1,
        },
        ControllerProbe {
            path: "/dev/input/event6".to_string(),
            name: Some("no axes".to_string()),
            axes: None,
            keys: Some(&pad),
            vendor: 1,
            product: 1,
        },
    ];
    let found = enumerate_controllers(&probes);
    assert_eq!(
        found,
        vec![
            InputDeviceInfo {
                path: "/dev/input/event12".to_string(),
                name: "Unknown controller".to_string(),
                vendor_id: Some("0001".to_string()),
                product_id: Some("abcd".to_string()),
                is_selected: false,
                is_virtual: false,
            },
            InputDeviceInfo {
                path: "/dev/input/event5".to_string(),
                name: "Wireless Controller".to_string(),
                vendor_id: Some("054c".to_string()),
                product_id: Some("0ce6".to_string()),
                is_selected: false,
                is_virtual: false,
            },
        ]
    );
}

#[test]
fn virtual_controllers_are_recognized() {
    let mut stick = AttributeSet::<AbsoluteAxisCode>::new();
    stick.insert(AbsoluteAxisCode::ABS_X);
    stick.insert(AbsoluteAxisCode::ABS_Y);
    let mut pad = AttributeSet::<KeyCode>::new();
    pad.insert(KeyCode::BTN_SOUTH);
    let cases = vec![
        ("DS4Linux Virtual Controller", 1, 1, true),
        ("DS4Linux Virtual Xbox 360 Controller", 1, 1, true),
        ("Xbox 360 Wireless Receiver", 0x045e, 0x028e, true),
        ("Xbox 360 Wireless Receiver", 0x045e, 0x0291, false),
        ("Some pad", 1, 0x028e, false),
    ];
    for (name, vendor, product, expected) in cases {
        let probe = ControllerProbe {
            path: "/dev/input/event1".to_string(),
            name: Some(name.to_string()),
            axes: Some(&stick),
            keys: Some(&pad),
            vendor,
            product,
        };
        let info = probe.describe().unwrap();
        assert_eq!(info.is_virtual, expected, "{name}");
        assert_eq!(info.name, name);
    }
}
