//! What has to be done to the system to hide a controller, to switch its audio off, and to
//! override its polling interval.
use vstd::prelude::*;

use crate::device::InputDeviceInfo;
use crate::profile::{polling_override, Profile, USB_OC_PARAMETER};
#[allow(unused_imports)]
use crate::profile::override_text;
use crate::text::strings;
#[allow(unused_imports)]
use crate::text::texts_of;
use crate::udev::{device_product, device_vendor, DeviceNode};
#[allow(unused_imports)]
use crate::udev::{product_of, referred, vendor_of};

verus! {

/// The udev rule that hides a controller.
pub const HIDE_RULE_PATH: &'static str = "/etc/udev/rules.d/99-ds4linux-hide-physical.rules";

/// The udev rule that switches the audio of a controller off.
pub const AUDIO_RULE_PATH: &'static str = "/etc/udev/rules.d/99-ds4linux-disable-controller-audio.rules";

/// A step that changes the system.
#[derive(Debug, PartialEq)]
pub enum SystemAction {
    /// Remove a file. It does not matter whether that succeeds.
    RemoveFile {
        /// The file.
        path: String,
    },
    /// Write a file.
    WriteFile {
        /// The file.
        path: String,
        /// What it holds then.
        text: String,
        /// What a failure is called.
        failure: String,
    },
    /// Write a file that is there already; do nothing where it is missing.
    WriteIfPresent {
        /// The file.
        path: String,
        /// What it holds then.
        text: String,
        /// What a failure is called.
        failure: String,
    },
    /// Run a program, which has to succeed.
    Run {
        /// The program.
        program: String,
        /// Its arguments.
        args: Vec<String>,
    },
    /// Run a program. It does not matter whether that succeeds.
    Attempt {
        /// The program.
        program: String,
        /// Its arguments.
        args: Vec<String>,
    },
    /// Set the permissions of a file. It does not matter whether that succeeds.
    SetMode {
        /// The file.
        path: String,
        /// Its permissions.
        mode: u32,
    },
    /// Give a user access to the input nodes of a USB device, or take it away.
    UserAccess {
        /// The vendor.
        vid: String,
        /// The product.
        pid: String,
        /// The user.
        user: String,
        /// Whether access is given.
        grant: bool,
    },
    /// Give a user access to the sound nodes of a USB device, or take it away.
    AudioAccess {
        /// The vendor.
        vid: String,
        /// The product.
        pid: String,
        /// The user.
        user: String,
        /// Whether access is given.
        grant: bool,
    },
    /// Allow the audio interfaces of a USB device, or forbid them.
    AuthorizeAudio {
        /// The vendor.
        vid: String,
        /// The product.
        pid: String,
        /// Whether they are allowed.
        authorized: bool,
    },
}

/// A step that changes the system, as its texts and flags. See [`SystemAction`].
#[verifier::ext_equal]
pub enum ActionView {
    /// Remove a file, if possible.
    RemoveFile { path: Seq<char> },
    /// Write a file.
    WriteFile { path: Seq<char>, text: Seq<char>, failure: Seq<char> },
    /// Write a file that is there already.
    WriteIfPresent { path: Seq<char>, text: Seq<char>, failure: Seq<char> },
    /// Run a program, which has to succeed.
    Run { program: Seq<char>, args: Seq<Seq<char>> },
    /// Run a program.
    Attempt { program: Seq<char>, args: Seq<Seq<char>> },
    /// Set the permissions of a file, if possible.
    SetMode { path: Seq<char>, mode: u32 },
    /// Give or take access to input nodes.
    UserAccess { vid: Seq<char>, pid: Seq<char>, user: Seq<char>, grant: bool },
    /// Give or take access to sound nodes.
    AudioAccess { vid: Seq<char>, pid: Seq<char>, user: Seq<char>, grant: bool },
    /// Allow or forbid audio interfaces.
    AuthorizeAudio { vid: Seq<char>, pid: Seq<char>, authorized: bool },
}

impl View for SystemAction {
    type V = ActionView;

    open spec fn view(&self) -> ActionView {
        match *self {
            SystemAction::RemoveFile { path } => ActionView::RemoveFile { path: path@ },
            SystemAction::WriteFile { path, text, failure } => ActionView::WriteFile {
                path: path@,
                text: text@,
                failure: failure@,
            },
            SystemAction::WriteIfPresent { path, text, failure } => ActionView::WriteIfPresent {
                path: path@,
                text: text@,
                failure: failure@,
            },
            SystemAction::Run { program, args } => ActionView::Run {
                program: program@,
                args: texts_of(args@),
            },
            SystemAction::Attempt { program, args } => ActionView::Attempt {
                program: program@,
                args: texts_of(args@),
            },
            SystemAction::SetMode { path, mode } => ActionView::SetMode { path: path@, mode },
            SystemAction::UserAccess { vid, pid, user, grant } => ActionView::UserAccess {
                vid: vid@,
                pid: pid@,
                user: user@,
                grant,
            },
            SystemAction::AudioAccess { vid, pid, user, grant } => ActionView::AudioAccess {
                vid: vid@,
                pid: pid@,
                user: user@,
                grant,
            },
            SystemAction::AuthorizeAudio { vid, pid, authorized } => ActionView::AuthorizeAudio {
                vid: vid@,
                pid: pid@,
                authorized,
            },
        }
    }
}

/// The views of a list of steps.
pub open spec fn action_views(actions: Seq<SystemAction>) -> Seq<ActionView> {
    actions.map_values(|a: SystemAction| a@)
}

/// Making udev read its rules again.
pub open spec fn reload_rules() -> ActionView {
    ActionView::Run { program: "udevadm"@, args: seq!["control"@, "--reload"@] }
}

/// Making udev look at the devices of a subsystem again.
pub open spec fn trigger_subsystem(subsystem: Seq<char>) -> ActionView {
    ActionView::Attempt {
        program: "udevadm"@,
        args: seq!["trigger"@, "--action=change"@, "--subsystem-match="@ + subsystem],
    }
}

/// Waiting until udev is done.
pub open spec fn settle() -> ActionView {
    ActionView::Attempt { program: "udevadm"@, args: seq!["settle"@] }
}

fn make_reload_rules() -> (r: SystemAction)
    ensures
        r@ == reload_rules(),
{
    let args = strings(&["control", "--reload"]);
    assert(texts_of(args@) =~= seq!["control"@, "--reload"@]);
    SystemAction::Run { program: "udevadm".to_owned(), args }
}

fn make_trigger_subsystem(subsystem: &str) -> (r: SystemAction)
    ensures
        r@ == trigger_subsystem(subsystem@),
{
    let mut filter = "--subsystem-match=".to_owned();
    filter.append(subsystem);
    let args = strings(&["trigger", "--action=change", filter.as_str()]);
    assert(texts_of(args@) =~= seq![
        "trigger"@,
        "--action=change"@,
        "--subsystem-match="@ + subsystem@,
    ]);
    SystemAction::Attempt { program: "udevadm".to_owned(), args }
}

fn make_settle() -> (r: SystemAction)
    ensures
        r@ == settle(),
{
    let args = strings(&["settle"]);
    assert(texts_of(args@) =~= seq!["settle"@]);
    SystemAction::Attempt { program: "udevadm".to_owned(), args }
}

/// What a failure to write `path` is called.
pub open spec fn write_failure(path: Seq<char>) -> Seq<char> {
    "write "@ + path
}

fn make_write_file(path: &str, text: String) -> (r: SystemAction)
    ensures
        r@ == (ActionView::WriteFile { path: path@, text: text@, failure: write_failure(path@) }),
{
    let mut failure = "write ".to_owned();
    failure.append(path);
    SystemAction::WriteFile { path: path.to_owned(), text, failure }
}

/// The steps that set the polling interval of `profile` for the device `vid:pid`.
pub open spec fn polling_actions(vid: Seq<char>, pid: Seq<char>, binterval: u8) -> Seq<ActionView> {
    seq![
        ActionView::WriteFile {
            path: USB_OC_PARAMETER@,
            text: override_text(vid, pid, binterval),
            failure: write_failure(USB_OC_PARAMETER@) + "; is usb_oc loaded?"@,
        },
    ]
}

/// The steps that set the polling interval of `profile` for `selected`.
pub fn apply_polling_for_device(profile: &Profile, selected: Option<&InputDeviceInfo>) -> (r: Vec<
    SystemAction,
>)
    ensures
        action_views(r@) == polling_actions(
            vendor_of(referred(selected)),
            product_of(referred(selected)),
            profile.polling_binterval,
        ),
{
    let vid = device_vendor(selected);
    let pid = device_product(selected);
    let mut failure = "write ".to_owned();
    failure.append(USB_OC_PARAMETER);
    failure.append("; is usb_oc loaded?");
    let actions = vec![
        SystemAction::WriteFile {
            path: USB_OC_PARAMETER.to_owned(),
            text: polling_override(vid.as_str(), pid.as_str(), profile.polling_binterval),
            failure,
        },
    ];
    assert(action_views(actions@) =~= polling_actions(
        vendor_of(referred(selected)),
        product_of(referred(selected)),
        profile.polling_binterval,
    ));
    actions
}

/// The hiding rule for event nodes, up to the vendor.
pub const HIDE_INPUT: &'static str = "ACTION==\"add|change\", SUBSYSTEM==\"input\", KERNEL==\"event*\", ENV{ID_VENDOR_ID}==\"";

/// The hiding rule for raw HID nodes, up to the vendor.
pub const HIDE_HIDRAW: &'static str = "ACTION==\"add|change\", SUBSYSTEM==\"hidraw\", ENV{ID_VENDOR_ID}==\"";

/// What stands between vendor and product in a hiding rule.
pub const HIDE_MODEL: &'static str = "\", ENV{ID_MODEL_ID}==\"";

/// The end of the hiding rule for event nodes.
pub const HIDE_NO_JOYSTICK: &'static str = "\", ENV{ID_INPUT_JOYSTICK}=\"0\", TAG-=\"uaccess\", MODE=\"0600\"\n";

/// The end of the hiding rule for raw HID nodes.
pub const HIDE_NO_ACCESS: &'static str = "\", TAG-=\"uaccess\", MODE=\"0600\"\n";

/// The udev rules that hide the controller `vid:pid`: its event nodes are no joystick, and
/// neither they nor its raw HID nodes are open to users.
pub open spec fn hide_rules(vid: Seq<char>, pid: Seq<char>) -> Seq<char> {
    HIDE_INPUT@ + vid + HIDE_MODEL@ + pid + HIDE_NO_JOYSTICK@ + HIDE_HIDRAW@ + vid + HIDE_MODEL@
        + pid + HIDE_NO_ACCESS@
}

/// The udev rules that hide the controller `vid:pid`.
pub fn hide_rules_text(vid: &str, pid: &str) -> (r: String)
    ensures
        r@ == hide_rules(vid@, pid@),
        r@ == (HIDE_INPUT@ + vid@ + HIDE_MODEL@ + pid@ + HIDE_NO_JOYSTICK@) + (HIDE_HIDRAW@ + vid@
            + HIDE_MODEL@ + pid@ + HIDE_NO_ACCESS@),
{
    let mut r = HIDE_INPUT.to_owned();
    r.append(vid);
    r.append(HIDE_MODEL);
    r.append(pid);
    r.append(HIDE_NO_JOYSTICK);
    r.append(HIDE_HIDRAW);
    r.append(vid);
    r.append(HIDE_MODEL);
    r.append(pid);
    r.append(HIDE_NO_ACCESS);
    assert(r@ =~= (HIDE_INPUT@ + vid@ + HIDE_MODEL@ + pid@ + HIDE_NO_JOYSTICK@) + (HIDE_HIDRAW@
        + vid@ + HIDE_MODEL@ + pid@ + HIDE_NO_ACCESS@));
    r
}

/// The steps that make the controller `vid:pid` visible to `user`.
pub open spec fn show_actions(vid: Seq<char>, pid: Seq<char>, user: Seq<char>) -> Seq<ActionView> {
    seq![
        ActionView::RemoveFile { path: HIDE_RULE_PATH@ },
        reload_rules(),
        trigger_subsystem("input"@),
        trigger_subsystem("hidraw"@),
        settle(),
        ActionView::UserAccess { vid, pid, user, grant: true },
    ]
}

/// The steps that hide the controller `vid:pid` from `user`.
pub open spec fn hide_actions(vid: Seq<char>, pid: Seq<char>, user: Seq<char>) -> Seq<ActionView> {
    seq![
        ActionView::WriteFile {
            path: HIDE_RULE_PATH@,
            text: hide_rules(vid, pid),
            failure: write_failure(HIDE_RULE_PATH@),
        },
        reload_rules(),
        trigger_subsystem("input"@),
        trigger_subsystem("hidraw"@),
        settle(),
        ActionView::UserAccess { vid, pid, user, grant: false },
    ]
}

/// The steps that hide `selected`, or show it again. There is nothing to hide where no
/// controller is selected.
pub fn apply_hide_for_device(
    enabled: bool,
    selected: Option<&InputDeviceInfo>,
    target_user: &str,
) -> (r: Result<Vec<SystemAction>, String>)
    ensures
        r is Err <==> enabled && selected is None,
        r matches Err(message) ==> message@ == "no selected physical controller to hide"@,
        r matches Ok(actions) ==> action_views(actions@) == if enabled {
            hide_actions(
                vendor_of(referred(selected)),
                product_of(referred(selected)),
                target_user@,
            )
        } else {
            show_actions(
                vendor_of(referred(selected)),
                product_of(referred(selected)),
                target_user@,
            )
        },
{
    if enabled && selected.is_none() {
        return Err("no selected physical controller to hide".to_owned());
    }
    let vid = device_vendor(selected);
    let pid = device_product(selected);
    let ghost v = vid@;
    let ghost p = pid@;
    let first = if enabled {
        make_write_file(HIDE_RULE_PATH, hide_rules_text(vid.as_str(), pid.as_str()))
    } else {
        SystemAction::RemoveFile { path: HIDE_RULE_PATH.to_owned() }
    };
    let actions = vec![
        first,
        make_reload_rules(),
        make_trigger_subsystem("input"),
        make_trigger_subsystem("hidraw"),
        make_settle(),
        SystemAction::UserAccess { vid, pid, user: target_user.to_owned(), grant: !enabled },
    ];
    proof {
        if enabled {
            assert(action_views(actions@) =~= hide_actions(v, p, target_user@));
        } else {
            assert(action_views(actions@) =~= show_actions(v, p, target_user@));
        }
    }
    Ok(actions)
}

/// The audio rule for USB interfaces, up to the vendor.
pub const AUDIO_INTERFACE: &'static str = "ACTION==\"add|change\", SUBSYSTEM==\"usb\", DEVTYPE==\"usb_interface\", ATTR{bInterfaceClass}==\"01\", ATTRS{idVendor}==\"";

/// The audio rule for sound cards, up to the vendor.
pub const AUDIO_CARD: &'static str = "ACTION==\"add|change\", SUBSYSTEM==\"sound\", KERNEL==\"card*\", ATTRS{idVendor}==\"";

/// The audio rule for sound nodes, up to the vendor.
pub const AUDIO_NODE: &'static str = "ACTION==\"add|change\", SUBSYSTEM==\"sound\", KERNEL==\"controlC*|pcmC*\", ATTRS{idVendor}==\"";

/// What stands between vendor and product in an audio rule.
pub const AUDIO_PRODUCT: &'static str = "\", ATTRS{idProduct}==\"";

/// The end of the audio rule for USB interfaces.
pub const AUDIO_UNAUTHORIZED: &'static str = "\", ATTR{authorized}=\"0\"\n";

/// The end of the audio rule for sound cards.
pub const AUDIO_IGNORED: &'static str = "\", ENV{ACP_IGNORE}=\"1\", ENV{PULSE_IGNORE}=\"1\"\n";

/// The end of the audio rule for sound nodes.
pub const AUDIO_CLOSED: &'static str = "\", ENV{ACP_IGNORE}=\"1\", ENV{PULSE_IGNORE}=\"1\", TAG-=\"uaccess\", MODE=\"0000\"\n";

/// The udev rules that switch the audio of the controller `vid:pid` off: its audio interfaces
/// are not authorized, sound servers ignore its cards, and its nodes are closed.
pub open spec fn audio_rules(vid: Seq<char>, pid: Seq<char>) -> Seq<char> {
    AUDIO_INTERFACE@ + vid + AUDIO_PRODUCT@ + pid + AUDIO_UNAUTHORIZED@ + AUDIO_CARD@ + vid
        + AUDIO_PRODUCT@ + pid + AUDIO_IGNORED@ + AUDIO_NODE@ + vid + AUDIO_PRODUCT@ + pid
        + AUDIO_CLOSED@
}

/// The udev rules that switch the audio of the controller `vid:pid` off.
pub fn audio_rules_text(vid: &str, pid: &str) -> (r: String)
    ensures
        r@ == audio_rules(vid@, pid@),
        r@ == (AUDIO_INTERFACE@ + vid@ + AUDIO_PRODUCT@ + pid@ + AUDIO_UNAUTHORIZED@) + (AUDIO_CARD@
            + vid@ + AUDIO_PRODUCT@ + pid@ + AUDIO_IGNORED@) + (AUDIO_NODE@ + vid@ + AUDIO_PRODUCT@
            + pid@ + AUDIO_CLOSED@),
{
    let mut r = AUDIO_INTERFACE.to_owned();
    r.append(vid);
    r.append(AUDIO_PRODUCT);
    r.append(pid);
    r.append(AUDIO_UNAUTHORIZED);
    r.append(AUDIO_CARD);
    r.append(vid);
    r.append(AUDIO_PRODUCT);
    r.append(pid);
    r.append(AUDIO_IGNORED);
    r.append(AUDIO_NODE);
    r.append(vid);
    r.append(AUDIO_PRODUCT);
    r.append(pid);
    r.append(AUDIO_CLOSED);
    assert(r@ =~= (AUDIO_INTERFACE@ + vid@ + AUDIO_PRODUCT@ + pid@ + AUDIO_UNAUTHORIZED@) + (
    AUDIO_CARD@ + vid@ + AUDIO_PRODUCT@ + pid@ + AUDIO_IGNORED@) + (AUDIO_NODE@ + vid@
        + AUDIO_PRODUCT@ + pid@ + AUDIO_CLOSED@));
    r
}

/// The steps that make udev look at sound devices again.
pub open spec fn sound_reload_actions() -> Seq<ActionView> {
    seq![reload_rules(), trigger_subsystem("sound"@), settle()]
}

/// The steps that make udev look at sound devices again.
pub fn reload_sound_udev() -> (r: Vec<SystemAction>)
    ensures
        action_views(r@) == sound_reload_actions(),
{
    let actions = vec![make_reload_rules(), make_trigger_subsystem("sound"), make_settle()];
    assert(action_views(actions@) =~= sound_reload_actions());
    actions
}

/// The steps that switch the audio of the controller `vid:pid` on for `user`.
pub open spec fn audio_on_actions(vid: Seq<char>, pid: Seq<char>, user: Seq<char>) -> Seq<
    ActionView,
> {
    seq![
        ActionView::RemoveFile { path: AUDIO_RULE_PATH@ },
        ActionView::AuthorizeAudio { vid, pid, authorized: true },
    ] + sound_reload_actions() + seq![ActionView::AudioAccess { vid, pid, user, grant: true }]
}

/// The steps that switch the audio of the controller `vid:pid` off for `user`.
pub open spec fn audio_off_actions(vid: Seq<char>, pid: Seq<char>, user: Seq<char>) -> Seq<
    ActionView,
> {
    seq![
        ActionView::WriteFile {
            path: AUDIO_RULE_PATH@,
            text: audio_rules(vid, pid),
            failure: write_failure(AUDIO_RULE_PATH@),
        },
        ActionView::AuthorizeAudio { vid, pid, authorized: false },
    ] + sound_reload_actions() + seq![ActionView::AudioAccess { vid, pid, user, grant: false }]
}

/// The steps that switch the audio of `selected` off, or on again. There is nothing to switch
/// off where no controller is selected.
pub fn apply_controller_audio_disable(
    enabled: bool,
    selected: Option<&InputDeviceInfo>,
    target_user: &str,
) -> (r: Result<Vec<SystemAction>, String>)
    ensures
        r is Err <==> enabled && selected is None,
        r matches Err(message) ==> message@ == "no selected physical controller for audio"@,
        r matches Ok(actions) ==> action_views(actions@) == if enabled {
            audio_off_actions(
                vendor_of(referred(selected)),
                product_of(referred(selected)),
                target_user@,
            )
        } else {
            audio_on_actions(
                vendor_of(referred(selected)),
                product_of(referred(selected)),
                target_user@,
            )
        },
{
    if enabled && selected.is_none() {
        return Err("no selected physical controller for audio".to_owned());
    }
    let vid = device_vendor(selected);
    let pid = device_product(selected);
    let ghost v = vid@;
    let ghost p = pid@;
    let first = if enabled {
        make_write_file(AUDIO_RULE_PATH, audio_rules_text(vid.as_str(), pid.as_str()))
    } else {
        SystemAction::RemoveFile { path: AUDIO_RULE_PATH.to_owned() }
    };
    let mut actions = vec![
        first,
        SystemAction::AuthorizeAudio { vid: vid.clone(), pid: pid.clone(), authorized: !enabled },
    ];
    let ghost head = actions@;
    let mut reload = reload_sound_udev();
    let ghost reloading = reload@;
    actions.append(&mut reload);
    actions.push(
        SystemAction::AudioAccess { vid, pid, user: target_user.to_owned(), grant: !enabled },
    );
    proof {
        assert(action_views(actions@) =~= action_views(head) + action_views(reloading) + seq![
            actions@.last()@,
        ]);
        if enabled {
            assert(action_views(actions@) =~= audio_off_actions(v, p, target_user@));
        } else {
            assert(action_views(actions@) =~= audio_on_actions(v, p, target_user@));
        }
    }
    Ok(actions)
}

/// What allows or forbids an interface.
pub open spec fn authorized_value(authorized: bool) -> Seq<char> {
    if authorized {
        "1"@
    } else {
        "0"@
    }
}

/// The steps that allow or forbid the interfaces at `paths`.
pub open spec fn authorize_actions(paths: Seq<Seq<char>>, authorized: bool) -> Seq<ActionView> {
    paths.map_values(
        |path: Seq<char>|
            ActionView::WriteIfPresent {
                path: path + "/authorized"@,
                text: authorized_value(authorized),
                failure: write_failure(path + "/authorized"@),
            },
    )
}

/// The steps that allow or forbid the interfaces at `paths`.
pub fn set_usb_audio_interfaces_authorized(paths: &Vec<String>, authorized: bool) -> (r: Vec<
    SystemAction,
>)
    ensures
        action_views(r@) == authorize_actions(texts_of(paths@), authorized),
{
    let mut actions: Vec<SystemAction> = Vec::new();
    let mut i: usize = 0;
    while i < paths.len()
        invariant
            i <= paths.len(),
            actions@.len() == i,
            forall|j: int|
                0 <= j < i ==> (#[trigger] actions@[j])@ == authorize_actions(
                    texts_of(paths@),
                    authorized,
                )[j],
        decreases paths.len() - i,
    {
        let mut path = paths[i].clone();
        path.append("/authorized");
        let mut failure = "write ".to_owned();
        failure.append(path.as_str());
        let text = if authorized {
            "1".to_owned()
        } else {
            "0".to_owned()
        };
        actions.push(SystemAction::WriteIfPresent { path, text, failure });
        i = i + 1;
    }
    assert(action_views(actions@) =~= authorize_actions(texts_of(paths@), authorized));
    actions
}

/// Changing the access list of `path`.
pub open spec fn access_list(flag: Seq<char>, entry: Seq<char>, path: Seq<char>) -> ActionView {
    ActionView::Attempt { program: "setfacl"@, args: seq![flag, entry, path] }
}

fn make_access_list(flag: &str, entry: &str, path: &str) -> (r: SystemAction)
    ensures
        r@ == access_list(flag@, entry@, path@),
{
    let args = strings(&[flag, entry, path]);
    assert(texts_of(args@) =~= seq![flag@, entry@, path@]);
    SystemAction::Attempt { program: "setfacl".to_owned(), args }
}

/// The steps that give `user` access to the node at `path`.
pub open spec fn grant_actions(path: Seq<char>, user: Seq<char>) -> Seq<ActionView> {
    seq![
        ActionView::SetMode { path, mode: 0o660 },
        access_list("-m"@, "u:"@ + user + ":rw"@, path),
        access_list("-m"@, "g::rw-,m::rw-"@, path),
    ]
}

/// The steps that take access to the node at `path` from `user` and leave it with the
/// permissions `mode`.
pub open spec fn deny_actions(path: Seq<char>, user: Seq<char>, mode: u32) -> Seq<ActionView> {
    seq![
        access_list("-x"@, "u:"@ + user, path),
        access_list("-m"@, "g::---,m::---"@, path),
        ActionView::SetMode { path, mode },
    ]
}

/// The steps that give `user` access to the node at `path`.
pub fn grant_access(path: &str, user: &str) -> (r: Vec<SystemAction>)
    ensures
        action_views(r@) == grant_actions(path@, user@),
{
    let mut entry = "u:".to_owned();
    entry.append(user);
    entry.append(":rw");
    let actions = vec![
        SystemAction::SetMode { path: path.to_owned(), mode: 0o660 },
        make_access_list("-m", entry.as_str(), path),
        make_access_list("-m", "g::rw-,m::rw-", path),
    ];
    assert(action_views(actions@) =~= grant_actions(path@, user@));
    actions
}

/// The steps that take access to the node at `path` from `user` and leave it with the
/// permissions `mode`.
pub fn deny_access(path: &str, user: &str, mode: u32) -> (r: Vec<SystemAction>)
    ensures
        action_views(r@) == deny_actions(path@, user@, mode),
{
    let mut entry = "u:".to_owned();
    entry.append(user);
    let actions = vec![
        make_access_list("-x", entry.as_str(), path),
        make_access_list("-m", "g::---,m::---", path),
        SystemAction::SetMode { path: path.to_owned(), mode },
    ];
    assert(action_views(actions@) =~= deny_actions(path@, user@, mode));
    actions
}

/// The steps that give `user` access to the node at `path`, or take it away and leave the
/// permissions `mode`.
pub open spec fn access_actions(path: Seq<char>, user: Seq<char>, grant: bool, mode: u32) -> Seq<
    ActionView,
> {
    if grant {
        grant_actions(path, user)
    } else {
        deny_actions(path, user, mode)
    }
}

/// The steps that showing or hiding the controller `vid:pid` takes at `node`, an entry of `dir`.
pub open spec fn node_actions(
    dir: Seq<char>,
    node: DeviceNode,
    vid: Seq<char>,
    pid: Seq<char>,
    user: Seq<char>,
    grant: bool,
) -> Seq<ActionView> {
    if node.is_access_node_of(dir, vid, pid) {
        access_actions(node.path@, user, grant, 0o600)
    } else {
        Seq::empty()
    }
}

/// The steps that showing the controller `vid:pid` takes at `node`, an entry of `dir`.
pub fn restore_user_access_for_vid_pid(
    dir: &str,
    node: &DeviceNode,
    vid: &str,
    pid: &str,
    target_user: &str,
) -> (r: Vec<SystemAction>)
    ensures
        action_views(r@) == node_actions(dir@, *node, vid@, pid@, target_user@, true),
{
    if node.gives_access(dir, vid, pid) {
        grant_access(node.path.as_str(), target_user)
    } else {
        let none: Vec<SystemAction> = Vec::new();
        assert(action_views(none@) =~= Seq::empty());
        none
    }
}

/// The steps that hiding the controller `vid:pid` takes at `node`, an entry of `dir`.
pub fn strip_user_access_for_vid_pid(
    dir: &str,
    node: &DeviceNode,
    vid: &str,
    pid: &str,
    target_user: &str,
) -> (r: Vec<SystemAction>)
    ensures
        action_views(r@) == node_actions(dir@, *node, vid@, pid@, target_user@, false),
{
    if node.gives_access(dir, vid, pid) {
        deny_access(node.path.as_str(), target_user, 0o600)
    } else {
        let none: Vec<SystemAction> = Vec::new();
        assert(action_views(none@) =~= Seq::empty());
        none
    }
}

/// The steps for a list of nodes, one after the other.
pub open spec fn for_each_path(paths: Seq<Seq<char>>, steps: spec_fn(Seq<char>) -> Seq<ActionView>) -> Seq<
    ActionView,
>
    decreases paths.len(),
{
    if paths.len() == 0 {
        Seq::empty()
    } else {
        for_each_path(paths.drop_last(), steps) + steps(paths.last())
    }
}

/// The steps that give `target_user` access to the sound nodes at `paths`.
pub fn restore_audio_access(paths: &Vec<String>, target_user: &str) -> (r: Vec<SystemAction>)
    ensures
        action_views(r@) == for_each_path(
            texts_of(paths@),
            |path: Seq<char>| access_actions(path, target_user@, true, 0o000),
        ),
{
    audio_access(paths, target_user, true)
}

/// The steps that take access to the sound nodes at `paths` from `target_user`.
pub fn strip_audio_access(paths: &Vec<String>, target_user: &str) -> (r: Vec<SystemAction>)
    ensures
        action_views(r@) == for_each_path(
            texts_of(paths@),
            |path: Seq<char>| access_actions(path, target_user@, false, 0o000),
        ),
{
    audio_access(paths, target_user, false)
}

/// The steps that give `target_user` access to the sound nodes at `paths`, or take it away.
fn audio_access(paths: &Vec<String>, target_user: &str, grant: bool) -> (r: Vec<SystemAction>)
    ensures
        action_views(r@) == for_each_path(
            texts_of(paths@),
            |path: Seq<char>| access_actions(path, target_user@, grant, 0o000),
        ),
{
    let ghost steps = |path: Seq<char>| access_actions(path, target_user@, grant, 0o000);
    let ghost texts = texts_of(paths@);
    let mut actions: Vec<SystemAction> = Vec::new();
    let mut i: usize = 0;
    assert(action_views(actions@) =~= for_each_path(texts.take(0), steps));
    while i < paths.len()
        invariant
            i <= paths.len(),
            texts == texts_of(paths@),
            steps == (|path: Seq<char>| access_actions(path, target_user@, grant, 0o000)),
            action_views(actions@) == for_each_path(texts.take(i as int), steps),
        decreases paths.len() - i,
    {
        let ghost actions0 = actions@;
        let path = paths[i].as_str();
        let mut more = if grant {
            grant_access(path, target_user)
        } else {
            deny_access(path, target_user, 0o000)
        };
        let ghost more0 = more@;
        actions.append(&mut more);
        assert(action_views(actions@) =~= action_views(actions0) + action_views(more0));
        assert(texts.take(i + 1).drop_last() =~= texts.take(i as int));
        i = i + 1;
    }
    assert(texts.take(texts.len() as int) =~= texts);
    actions
}

/// Whether a program that had to succeed did, by its exit status.
pub fn run_result(program: &str, success: bool, status: &str) -> (r: Result<(), String>)
    ensures
        r is Ok <==> success,
        r matches Err(message) ==> message@ == program@ + " exited with "@ + status@,
{
    if success {
        return Ok(());
    }
    let mut message = program.to_owned();
    message.append(" exited with ");
    message.append(status);
    Err(message)
}

/// The file that a step removes or writes.
pub open spec fn file_of(action: ActionView) -> Option<Seq<char>> {
    match action {
        ActionView::RemoveFile { path } => Some(path),
        ActionView::WriteFile { path, text: _, failure: _ } => Some(path),
        _ => None,
    }
}

/// Showing a controller takes back what hiding it did: the rule file that was written is removed,
/// udev is made to look again in the same way, and the access that was taken is given.
pub proof fn showing_takes_back_hiding(vid: Seq<char>, pid: Seq<char>, user: Seq<char>)
    ensures
        ({
            let hide = hide_actions(vid, pid, user);
            let show = show_actions(vid, pid, user);
            &&& hide.len() == show.len()
            &&& hide[0] is WriteFile && show[0] is RemoveFile
            &&& file_of(hide[0]) == file_of(show[0])
            &&& hide.subrange(1, hide.len() - 1) == show.subrange(1, show.len() - 1)
            &&& hide.last() == (ActionView::UserAccess { vid, pid, user, grant: false })
            &&& show.last() == (ActionView::UserAccess { vid, pid, user, grant: true })
        }),
{
    let hide = hide_actions(vid, pid, user);
    let show = show_actions(vid, pid, user);
    assert(hide.subrange(1, hide.len() - 1) =~= show.subrange(1, show.len() - 1));
}

/// Switching the audio on takes back what switching it off did: the rule file that was written is
/// removed, the interfaces that were forbidden are allowed, udev is made to look again in the same
/// way, and the access that was taken is given.
pub proof fn audio_on_takes_back_audio_off(vid: Seq<char>, pid: Seq<char>, user: Seq<char>)
    ensures
        ({
            let off = audio_off_actions(vid, pid, user);
            let on = audio_on_actions(vid, pid, user);
            &&& off.len() == on.len()
            &&& off[0] is WriteFile && on[0] is RemoveFile
            &&& file_of(off[0]) == file_of(on[0])
            &&& off[1] == (ActionView::AuthorizeAudio { vid, pid, authorized: false })
            &&& on[1] == (ActionView::AuthorizeAudio { vid, pid, authorized: true })
            &&& off.subrange(2, off.len() - 1) == on.subrange(2, on.len() - 1)
            &&& off.last() == (ActionView::AudioAccess { vid, pid, user, grant: false })
            &&& on.last() == (ActionView::AudioAccess { vid, pid, user, grant: true })
        }),
{
    let off = audio_off_actions(vid, pid, user);
    let on = audio_on_actions(vid, pid, user);
    assert(off.subrange(2, off.len() - 1) =~= on.subrange(2, on.len() - 1));
}

/// Access is given at the nodes where it is taken, and at no others.
pub proof fn access_is_given_where_it_is_taken(
    dir: Seq<char>,
    node: DeviceNode,
    vid: Seq<char>,
    pid: Seq<char>,
    user: Seq<char>,
)
    ensures
        node_actions(dir, node, vid, pid, user, true).len() == node_actions(
            dir,
            node,
            vid,
            pid,
            user,
            false,
        ).len(),
        node_actions(dir, node, vid, pid, user, true).len() > 0 <==> node.is_access_node_of(
            dir,
            vid,
            pid,
        ),
{
}

} // verus!
