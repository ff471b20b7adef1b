use ds4linux::udev::{
    access_directories, access_node_wanted, device_node_matches, device_product, device_vendor, find_hidraw_for_device,
    has_prop, is_hidraw_name, is_sound_node, sound_card_number, sound_cards_for_vid_pid,
    sound_device_nodes, usb_audio_interface_paths_for_vid_pid, usb_device_name, DeviceNode,
    UsbInterface,
};
use ds4linux::InputDeviceInfo;

const DUALSENSE: &str = "DEVNAME=/dev/hidraw3\nID_VENDOR_ID=054c\nID_MODEL_ID=0ce6\n";
const USB_DUALSENSE: &str = "ID_USB_VENDOR_ID=054c\nID_USB_MODEL_ID=0ce6\nID_USB_INTERFACE_NUM=03\n";
const OTHER: &str = "ID_VENDOR_ID=045e\nID_MODEL_ID=028e\n";
const MIXED: &str = "ID_VENDOR_ID=054c\nID_USB_MODEL_ID=0ce6\n";

fn node(name: &str, props: Option<&str>) -> DeviceNode {
    DeviceNode {
        name: name.to_string(),
        path: format!("/dev/{name}"),
        props: props.map(String::from),
    }
}

#[test]
fn properties_are_whole_lines() {
    assert!(has_prop(DUALSENSE, "ID_VENDOR_ID", "054c"));
    assert!(!has_prop(DUALSENSE, "ID_VENDOR_ID", "054"));
    assert!(!has_prop(DUALSENSE, "VENDOR_ID", "054c"));
    assert!(has_prop("A=1\r\nB=2", "A", "1"));
    assert!(has_prop("A=1\r\nB=2", "B", "2"));
    assert!(!has_prop("", "A", ""));
}

#[test]
fn nodes_are_matched_by_either_pair() {
    assert!(device_node_matches(Some(DUALSENSE), "054c", "0ce6"));
    assert!(device_node_matches(Some(USB_DUALSENSE), "054c", "0ce6"));
    assert!(!device_node_matches(Some(MIXED), "054c", "0ce6"));
    assert!(!device_node_matches(Some(OTHER), "054c", "0ce6"));
    assert!(!device_node_matches(None, "054c", "0ce6"));
}

#[test]
fn unknown_identities_are_those_of_a_dualsense() {
    let unknown = InputDeviceInfo::default();
    assert_eq!(device_vendor(Some(&unknown)), "054c");
    assert_eq!(device_product(Some(&unknown)), "0ce6");
    assert_eq!(device_vendor(None), "054c");
    assert_eq!(device_product(None), "0ce6");
    let known = InputDeviceInfo {
        vendor_id: Some("045e".to_string()),
        product_id: Some("028e".to_string()),
        ..InputDeviceInfo::default()
    };
    assert_eq!(device_vendor(Some(&known)), "045e");
    assert_eq!(device_product(Some(&known)), "028e");
}

#[test]
fn the_input_interface_is_the_best_raw_node() {
    let device = InputDeviceInfo::default();
    let nodes = vec![
        node("hidraw9", Some(DUALSENSE)),
        node("hidraw10", Some(DUALSENSE)),
        node("hidraw7", Some(USB_DUALSENSE)),
        node("hidraw0", Some(OTHER)),
        node("hidraw1", None),
        node("event0", Some(DUALSENSE)),
    ];
    assert_eq!(find_hidraw_for_device(&device, &nodes), Some("/dev/hidraw7".to_string()));
}

#[test]
fn among_equal_raw_nodes_the_first_path_wins() {
    let device = InputDeviceInfo::default();
    let nodes = vec![node("hidraw9", Some(DUALSENSE)), node("hidraw10", Some(DUALSENSE))];
    assert_eq!(find_hidraw_for_device(&device, &nodes), Some("/dev/hidraw10".to_string()));
    assert_eq!(find_hidraw_for_device(&device, &vec![node("hidraw0", Some(OTHER))]), None);
    assert_eq!(find_hidraw_for_device(&device, &Vec::new()), None);
    assert!(is_hidraw_name("hidraw0"));
    assert!(!is_hidraw_name("xhidraw0"));
}

#[test]
fn access_is_about_event_and_raw_nodes() {
    assert_eq!(access_directories(), vec!["/dev/input".to_string(), "/dev".to_string()]);
    assert!(!access_node_wanted("/dev/snd", "event4"));
    assert!(access_node_wanted("/dev/input", "event4"));
    assert!(!access_node_wanted("/dev/input", "js0"));
    assert!(access_node_wanted("/dev", "hidraw4"));
    assert!(!access_node_wanted("/dev", "event4"));
    assert!(node("hidraw4", Some(DUALSENSE)).gives_access("/dev", "054c", "0ce6"));
    assert!(!node("hidraw4", Some(OTHER)).gives_access("/dev", "054c", "0ce6"));
    assert!(!node("sda", Some(DUALSENSE)).gives_access("/dev", "054c", "0ce6"));
}

#[test]
fn card_numbers_are_digits() {
    assert_eq!(sound_card_number("card0"), Some("0".to_string()));
    assert_eq!(sound_card_number("card12"), Some("12".to_string()));
    assert_eq!(sound_card_number("card"), None);
    assert_eq!(sound_card_number("card1x"), None);
    assert_eq!(sound_card_number("controlC0"), None);
}

#[test]
fn sound_cards_are_sorted_as_texts() {
    let nodes = vec![
        node("card2", Some(DUALSENSE)),
        node("card10", Some(USB_DUALSENSE)),
        node("card3", Some(OTHER)),
        node("card4", None),
        node("controlC2", Some(DUALSENSE)),
        node("card1", Some(DUALSENSE)),
    ];
    assert_eq!(
        sound_cards_for_vid_pid(&nodes, "054c", "0ce6"),
        vec!["1".to_string(), "10".to_string(), "2".to_string()]
    );
}

#[test]
fn sound_nodes_are_those_of_the_cards() {
    let cards = vec!["1".to_string(), "10".to_string()];
    assert!(is_sound_node("controlC1", &cards));
    assert!(is_sound_node("pcmC1D0p", &cards));
    assert!(is_sound_node("pcmC10D3c", &cards));
    assert!(!is_sound_node("controlC", &cards));
    assert!(!is_sound_node("controlC11", &cards));
    assert!(!is_sound_node("pcmC2D0p", &cards));
    assert!(!is_sound_node("timer", &cards));
    let nodes = vec![
        node("snd/pcmC1D0p", None),
        node("controlC1", None),
        node("pcmC10D0c", None),
        node("timer", None),
    ];
    assert_eq!(
        sound_device_nodes(&nodes, &cards),
        vec!["/dev/controlC1".to_string(), "/dev/pcmC10D0c".to_string()]
    );
    assert_eq!(sound_device_nodes(&nodes, &Vec::new()), Vec::<String>::new());
}

fn interface(name: &str, class: Option<&str>, vendor: Option<&str>, product: Option<&str>) -> UsbInterface {
    UsbInterface {
        name: name.to_string(),
        path: format!("/sys/bus/usb/devices/{name}"),
        interface_class: class.map(String::from),
        id_vendor: vendor.map(String::from),
        id_product: product.map(String::from),
    }
}

#[test]
fn audio_interfaces_are_found_and_sorted() {
    let interfaces = vec![
        interface("3-1:1.1", Some("01\n"), Some("054c\n"), Some("0ce6\n")),
        interface("3-1:1.0", Some("01\n"), Some("054c\n"), Some("0ce6\n")),
        interface("3-1:1.3", Some("03\n"), Some("054c\n"), Some("0ce6\n")),
        interface("3-1", Some("01\n"), Some("054c\n"), Some("0ce6\n")),
        interface("3-2:1.0", Some("01\n"), Some("045e\n"), Some("0ce6\n")),
        interface("3-3:1.0", Some("01\n"), Some("054c\n"), None),
        interface("3-4:1.0", None, Some("054c\n"), Some("0ce6\n")),
    ];
    assert_eq!(
        usb_audio_interface_paths_for_vid_pid(&interfaces, "054c", "0ce6"),
        vec![
            "/sys/bus/usb/devices/3-1:1.0".to_string(),
            "/sys/bus/usb/devices/3-1:1.1".to_string(),
        ]
    );
    assert!(interfaces[0].is_audio_interface("054c", "0ce6"));
    assert!(!interfaces[2].is_audio_interface("054c", "0ce6"));
}

#[test]
fn device_of_an_interface_stands_before_the_colon() {
    assert_eq!(usb_device_name("3-1.2:1.0"), Some("3-1.2".to_string()));
    assert_eq!(usb_device_name("a:b:c"), Some("a".to_string()));
    assert_eq!(usb_device_name("usb3"), None);
}
