use ds4linux::system::{
    apply_controller_audio_disable, apply_hide_for_device, apply_polling_for_device,
    audio_rules_text, deny_access, grant_access, hide_rules_text, reload_sound_udev,
    restore_audio_access, restore_user_access_for_vid_pid, run_result,
    set_usb_audio_interfaces_authorized, strip_audio_access, strip_user_access_for_vid_pid,
    SystemAction,
};
use ds4linux::udev::DeviceNode;
use ds4linux::{InputDeviceInfo, Profile};

const HIDE_RULES: &str = "/etc/udev/rules.d/99-ds4linux-hide-physical.rules";
const AUDIO_RULES: &str = "/etc/udev/rules.d/99-ds4linux-disable-controller-audio.rules";

fn texts(parts: &[&str]) -> Vec<String> {
    parts.iter().map(|part| part.to_string()).collect()
}

fn run(args: &[&str]) -> SystemAction {
    SystemAction::Run { program: "udevadm".to_string(), args: texts(args) }
}

fn attempt(program: &str, args: &[&str]) -> SystemAction {
    SystemAction::Attempt { program: program.to_string(), args: texts(args) }
}

fn mode(path: &str, mode: u32) -> SystemAction {
    SystemAction::SetMode { path: path.to_string(), mode }
}

fn user_access(grant: bool, vid: &str, pid: &str) -> SystemAction {
    SystemAction::UserAccess {
        vid: vid.to_string(),
        pid: pid.to_string(),
        user: "player".to_string(),
        grant,
    }
}

fn audio_access(grant: bool, vid: &str, pid: &str) -> SystemAction {
    SystemAction::AudioAccess {
        vid: vid.to_string(),
        pid: pid.to_string(),
        user: "player".to_string(),
        grant,
    }
}

fn authorize(authorized: bool, vid: &str, pid: &str) -> SystemAction {
    SystemAction::AuthorizeAudio { vid: vid.to_string(), pid: pid.to_string(), authorized }
}

fn xbox() -> InputDeviceInfo {
    InputDeviceInfo {
        vendor_id: Some("045e".to_string()),
        product_id: Some("0b12".to_string()),
        ..InputDeviceInfo::default()
    }
}

#[test]
fn polling_is_written_to_the_parameter() {
    let path = "/sys/module/usb_oc/parameters/interrupt_interval_override";
    let profile = Profile { polling_binterval: 1, ..Profile::default() };
    let write = |text: &str| SystemAction::WriteFile {
        path: path.to_string(),
        text: text.to_string(),
        failure: format!("write {path}; is usb_oc loaded?"),
    };
    assert_eq!(apply_polling_for_device(&profile, None), vec![write("054c:0ce6:1")]);
    assert_eq!(apply_polling_for_device(&profile, Some(&xbox())), vec![write("045e:0b12:1")]);
}

#[test]
fn hide_rules_are_the_documented_ones() {
    assert_eq!(
        hide_rules_text("054c", "0ce6"),
        "ACTION==\"add|change\", SUBSYSTEM==\"input\", KERNEL==\"event*\", ENV{ID_VENDOR_ID}==\"054c\", ENV{ID_MODEL_ID}==\"0ce6\", ENV{ID_INPUT_JOYSTICK}=\"0\", TAG-=\"uaccess\", MODE=\"0600\"\n\
         ACTION==\"add|change\", SUBSYSTEM==\"hidraw\", ENV{ID_VENDOR_ID}==\"054c\", ENV{ID_MODEL_ID}==\"0ce6\", TAG-=\"uaccess\", MODE=\"0600\"\n"
    );
}

#[test]
fn audio_rules_are_the_documented_ones() {
    assert_eq!(
        audio_rules_text("054c", "0ce6"),
        "ACTION==\"add|change\", SUBSYSTEM==\"usb\", DEVTYPE==\"usb_interface\", ATTR{bInterfaceClass}==\"01\", ATTRS{idVendor}==\"054c\", ATTRS{idProduct}==\"0ce6\", ATTR{authorized}=\"0\"\n\
         ACTION==\"add|change\", SUBSYSTEM==\"sound\", KERNEL==\"card*\", ATTRS{idVendor}==\"054c\", ATTRS{idProduct}==\"0ce6\", ENV{ACP_IGNORE}=\"1\", ENV{PULSE_IGNORE}=\"1\"\n\
         ACTION==\"add|change\", SUBSYSTEM==\"sound\", KERNEL==\"controlC*|pcmC*\", ATTRS{idVendor}==\"054c\", ATTRS{idProduct}==\"0ce6\", ENV{ACP_IGNORE}=\"1\", ENV{PULSE_IGNORE}=\"1\", TAG-=\"uaccess\", MODE=\"0000\"\n"
    );
}

#[test]
fn hiding_writes_the_rule_and_takes_access() {
    let steps = apply_hide_for_device(true, Some(&xbox()), "player").unwrap();
    assert_eq!(
        steps,
        vec![
            SystemAction::WriteFile {
                path: HIDE_RULES.to_string(),
                text: hide_rules_text("045e", "0b12"),
                failure: format!("write {HIDE_RULES}"),
            },
            run(&["control", "--reload"]),
            attempt("udevadm", &["trigger", "--action=change", "--subsystem-match=input"]),
            attempt("udevadm", &["trigger", "--action=change", "--subsystem-match=hidraw"]),
            attempt("udevadm", &["settle"]),
            user_access(false, "045e", "0b12"),
        ]
    );
}

#[test]
fn showing_removes_the_rule_and_gives_access() {
    let steps = apply_hide_for_device(false, None, "player").unwrap();
    assert_eq!(
        steps,
        vec![
            SystemAction::RemoveFile { path: HIDE_RULES.to_string() },
            run(&["control", "--reload"]),
            attempt("udevadm", &["trigger", "--action=change", "--subsystem-match=input"]),
            attempt("udevadm", &["trigger", "--action=change", "--subsystem-match=hidraw"]),
            attempt("udevadm", &["settle"]),
            user_access(true, "054c", "0ce6"),
        ]
    );
    let hidden = apply_hide_for_device(true, Some(&InputDeviceInfo::default()), "player").unwrap();
    assert_eq!(hidden[1..5], steps[1..5]);
}

#[test]
fn nothing_is_hidden_without_a_controller() {
    assert_eq!(
        apply_hide_for_device(true, None, "player"),
        Err("no selected physical controller to hide".to_string())
    );
}

#[test]
fn audio_off_writes_the_rule_and_takes_access() {
    let steps = apply_controller_audio_disable(true, Some(&xbox()), "player").unwrap();
    assert_eq!(
        steps,
        vec![
            SystemAction::WriteFile {
                path: AUDIO_RULES.to_string(),
                text: audio_rules_text("045e", "0b12"),
                failure: format!("write {AUDIO_RULES}"),
            },
            authorize(false, "045e", "0b12"),
            run(&["control", "--reload"]),
            attempt("udevadm", &["trigger", "--action=change", "--subsystem-match=sound"]),
            attempt("udevadm", &["settle"]),
            audio_access(false, "045e", "0b12"),
        ]
    );
}

#[test]
fn audio_on_removes_the_rule_and_gives_access() {
    let steps = apply_controller_audio_disable(false, None, "player").unwrap();
    assert_eq!(steps[0], SystemAction::RemoveFile { path: AUDIO_RULES.to_string() });
    assert_eq!(steps[1], authorize(true, "054c", "0ce6"));
    assert_eq!(steps[2..5], reload_sound_udev()[..]);
    assert_eq!(steps[5], audio_access(true, "054c", "0ce6"));
    assert_eq!(steps.len(), 6);
}

#[test]
fn nothing_is_silenced_without_a_controller() {
    assert_eq!(
        apply_controller_audio_disable(true, None, "player"),
        Err("no selected physical controller for audio".to_string())
    );
}

#[test]
fn interfaces_are_authorized_one_by_one() {
    let paths = texts(&["/sys/a", "/sys/b"]);
    let write = |path: &str, text: &str| SystemAction::WriteIfPresent {
        path: path.to_string(),
        text: text.to_string(),
        failure: format!("write {path}"),
    };
    assert_eq!(
        set_usb_audio_interfaces_authorized(&paths, true),
        vec![write("/sys/a/authorized", "1"), write("/sys/b/authorized", "1")]
    );
    assert_eq!(
        set_usb_audio_interfaces_authorized(&paths, false),
        vec![write("/sys/a/authorized", "0"), write("/sys/b/authorized", "0")]
    );
}

#[test]
fn access_is_given_and_taken() {
    let given = vec![
        mode("/dev/hidraw1", 0o660),
        attempt("setfacl", &["-m", "u:player:rw", "/dev/hidraw1"]),
        attempt("setfacl", &["-m", "g::rw-,m::rw-", "/dev/hidraw1"]),
    ];
    let taken = vec![
        attempt("setfacl", &["-x", "u:player", "/dev/hidraw1"]),
        attempt("setfacl", &["-m", "g::---,m::---", "/dev/hidraw1"]),
        mode("/dev/hidraw1", 0o600),
    ];
    assert_eq!(grant_access("/dev/hidraw1", "player"), given);
    assert_eq!(deny_access("/dev/hidraw1", "player", 0o600), taken);
    let node = DeviceNode {
        name: "hidraw1".to_string(),
        path: "/dev/hidraw1".to_string(),
        props: Some("ID_VENDOR_ID=054c\nID_MODEL_ID=0ce6\n".to_string()),
    };
    assert_eq!(restore_user_access_for_vid_pid("/dev", &node, "054c", "0ce6", "player"), given);
    assert_eq!(strip_user_access_for_vid_pid("/dev", &node, "054c", "0ce6", "player"), taken);
    assert_eq!(restore_user_access_for_vid_pid("/dev/input", &node, "054c", "0ce6", "player"), vec![]);
    assert_eq!(strip_user_access_for_vid_pid("/dev", &node, "045e", "0ce6", "player"), vec![]);
}

#[test]
fn sound_nodes_are_opened_and_closed() {
    let paths = texts(&["/dev/snd/controlC1", "/dev/snd/pcmC1D0p"]);
    let mut opened = grant_access("/dev/snd/controlC1", "player");
    opened.extend(grant_access("/dev/snd/pcmC1D0p", "player"));
    assert_eq!(restore_audio_access(&paths, "player"), opened);
    let closed = strip_audio_access(&paths, "player");
    assert_eq!(closed.len(), 6);
    assert_eq!(closed[2], mode("/dev/snd/controlC1", 0));
    assert_eq!(closed[3], attempt("setfacl", &["-x", "u:player", "/dev/snd/pcmC1D0p"]));
    assert_eq!(restore_audio_access(&Vec::new(), "player"), vec![]);
}

#[test]
fn a_failing_program_is_reported() {
    assert_eq!(run_result("udevadm", true, "exit status: 0"), Ok(()));
    assert_eq!(
        run_result("udevadm", false, "exit status: 1"),
        Err("udevadm exited with exit status: 1".to_string())
    );
}
