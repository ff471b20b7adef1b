//! What holds of the steps that change the system.
use vstd::prelude::*;

#[allow(unused_imports)]
use crate::number::decimal;
#[allow(unused_imports)]
use crate::system::{
    access_actions, action_views, audio_off_actions, audio_on_actions, audio_rules,
    authorize_actions, deny_actions, for_each_path, grant_actions, hide_actions, hide_rules,
    node_actions, polling_actions, show_actions, sound_reload_actions, ActionView,
    SystemAction,
};
#[allow(unused_imports)]
use crate::text::{has_part, part_at, texts_of};
#[allow(unused_imports)]
use crate::udev::DeviceNode;

verus! {

/// `part` is a part of what it stands in the middle of.
proof fn lemma_part(before: Seq<char>, part: Seq<char>, behind: Seq<char>)
    ensures
        has_part(before + part + behind, part),
{
    let s = before + part + behind;
    assert(s.subrange(before.len() as int, before.len() as int + part.len()) =~= part);
    assert(part_at(s, part, before.len() as int));
}

/// The rule that hides the event nodes of `vid:pid`: they are no joystick, and closed to users.
pub open spec fn event_node_rule(vid: Seq<char>, pid: Seq<char>) -> Seq<char> {
    "ACTION==\"add|change\", SUBSYSTEM==\"input\", KERNEL==\"event*\", ENV{ID_VENDOR_ID}==\""@ + vid
        + "\", ENV{ID_MODEL_ID}==\""@ + pid
        + "\", ENV{ID_INPUT_JOYSTICK}=\"0\", TAG-=\"uaccess\", MODE=\"0600\"\n"@
}

/// The rule that hides the raw HID nodes of `vid:pid`: they are closed to users.
pub open spec fn raw_node_rule(vid: Seq<char>, pid: Seq<char>) -> Seq<char> {
    "ACTION==\"add|change\", SUBSYSTEM==\"hidraw\", ENV{ID_VENDOR_ID}==\""@ + vid
        + "\", ENV{ID_MODEL_ID}==\""@ + pid + "\", TAG-=\"uaccess\", MODE=\"0600\"\n"@
}

/// A hidden controller has a rule for its event nodes and behind it one for its raw HID nodes.
pub proof fn hiding_takes_two_rules(vid: Seq<char>, pid: Seq<char>)
    ensures
        hide_rules(vid, pid) == event_node_rule(vid, pid) + raw_node_rule(vid, pid),
{
    assert(hide_rules(vid, pid) =~= event_node_rule(vid, pid) + raw_node_rule(vid, pid));
}

/// Each rule that hides a controller holds for its vendor and its product, and ends its line.
pub proof fn hiding_rules_name_the_controller(vid: Seq<char>, pid: Seq<char>)
    ensures
        hide_rules(vid, pid) == event_node_rule(vid, pid) + raw_node_rule(vid, pid),
        has_part(event_node_rule(vid, pid), "ENV{ID_VENDOR_ID}==\""@ + vid + seq!['"']),
        has_part(event_node_rule(vid, pid), "ENV{ID_MODEL_ID}==\""@ + pid + seq!['"']),
        has_part(raw_node_rule(vid, pid), "ENV{ID_VENDOR_ID}==\""@ + vid + seq!['"']),
        has_part(raw_node_rule(vid, pid), "ENV{ID_MODEL_ID}==\""@ + pid + seq!['"']),
        event_node_rule(vid, pid).last() == '\n',
        raw_node_rule(vid, pid).last() == '\n',
{
    hiding_takes_two_rules(vid, pid);
    reveal_strlit("ENV{ID_VENDOR_ID}==\"");
    reveal_strlit("ENV{ID_MODEL_ID}==\"");
    reveal_strlit("\", ENV{ID_MODEL_ID}==\"");
    let vendor = "ENV{ID_VENDOR_ID}==\""@;
    let between = "\", ENV{ID_MODEL_ID}==\""@;
    let model = "ENV{ID_MODEL_ID}==\""@;
    let quote = seq!['"'];
    assert(between =~= quote + between.skip(1));
    assert(between =~= between.take(3) + model);
    assert(has_part(event_node_rule(vid, pid), vendor + vid + quote) && has_part(
        event_node_rule(vid, pid),
        model + pid + quote,
    ) && event_node_rule(vid, pid).last() == '\n') by {
        reveal_strlit(
            "ACTION==\"add|change\", SUBSYSTEM==\"input\", KERNEL==\"event*\", ENV{ID_VENDOR_ID}==\"",
        );
        reveal_strlit("\", ENV{ID_INPUT_JOYSTICK}=\"0\", TAG-=\"uaccess\", MODE=\"0600\"\n");
        let start =
            "ACTION==\"add|change\", SUBSYSTEM==\"input\", KERNEL==\"event*\", ENV{ID_VENDOR_ID}==\""@;
        let end = "\", ENV{ID_INPUT_JOYSTICK}=\"0\", TAG-=\"uaccess\", MODE=\"0600\"\n"@;
        let head = start.take(start.len() - vendor.len());
        assert(start =~= head + vendor);
        assert(end =~= quote + end.skip(1));
        lemma_part(head, vendor + vid + quote, between.skip(1) + pid + end);
        assert(event_node_rule(vid, pid) =~= head + (vendor + vid + quote) + (between.skip(1) + pid
            + end));
        lemma_part(start + vid + between.take(3), model + pid + quote, end.skip(1));
        assert(event_node_rule(vid, pid) =~= (start + vid + between.take(3)) + (model + pid + quote)
            + end.skip(1));
    }
    assert(has_part(raw_node_rule(vid, pid), vendor + vid + quote) && has_part(
        raw_node_rule(vid, pid),
        model + pid + quote,
    ) && raw_node_rule(vid, pid).last() == '\n') by {
        reveal_strlit("ACTION==\"add|change\", SUBSYSTEM==\"hidraw\", ENV{ID_VENDOR_ID}==\"");
        reveal_strlit("\", TAG-=\"uaccess\", MODE=\"0600\"\n");
        let start = "ACTION==\"add|change\", SUBSYSTEM==\"hidraw\", ENV{ID_VENDOR_ID}==\""@;
        let end = "\", TAG-=\"uaccess\", MODE=\"0600\"\n"@;
        let head = start.take(start.len() - vendor.len());
        assert(start =~= head + vendor);
        assert(end =~= quote + end.skip(1));
        lemma_part(head, vendor + vid + quote, between.skip(1) + pid + end);
        assert(raw_node_rule(vid, pid) =~= head + (vendor + vid + quote) + (between.skip(1) + pid
            + end));
        lemma_part(start + vid + between.take(3), model + pid + quote, end.skip(1));
        assert(raw_node_rule(vid, pid) =~= (start + vid + between.take(3)) + (model + pid + quote)
            + end.skip(1));
    }
}

/// The rule that forbids the audio interfaces of `vid:pid`.
pub open spec fn audio_interface_rule(vid: Seq<char>, pid: Seq<char>) -> Seq<char> {
    "ACTION==\"add|change\", SUBSYSTEM==\"usb\", DEVTYPE==\"usb_interface\", ATTR{bInterfaceClass}==\"01\", ATTRS{idVendor}==\""@
        + vid + "\", ATTRS{idProduct}==\""@ + pid + "\", ATTR{authorized}=\"0\"\n"@
}

/// The rule that has sound servers ignore the sound cards of `vid:pid`.
pub open spec fn sound_card_rule(vid: Seq<char>, pid: Seq<char>) -> Seq<char> {
    "ACTION==\"add|change\", SUBSYSTEM==\"sound\", KERNEL==\"card*\", ATTRS{idVendor}==\""@ + vid
        + "\", ATTRS{idProduct}==\""@ + pid
        + "\", ENV{ACP_IGNORE}=\"1\", ENV{PULSE_IGNORE}=\"1\"\n"@
}

/// The rule that closes the sound nodes of `vid:pid`.
pub open spec fn sound_node_rule(vid: Seq<char>, pid: Seq<char>) -> Seq<char> {
    "ACTION==\"add|change\", SUBSYSTEM==\"sound\", KERNEL==\"controlC*|pcmC*\", ATTRS{idVendor}==\""@
        + vid + "\", ATTRS{idProduct}==\""@ + pid
        + "\", ENV{ACP_IGNORE}=\"1\", ENV{PULSE_IGNORE}=\"1\", TAG-=\"uaccess\", MODE=\"0000\"\n"@
}

/// A controller whose audio is off has a rule for its audio interfaces, one for its sound cards and
/// one for its sound nodes.
pub proof fn silencing_takes_three_rules(vid: Seq<char>, pid: Seq<char>)
    ensures
        audio_rules(vid, pid) == audio_interface_rule(vid, pid) + sound_card_rule(vid, pid)
            + sound_node_rule(vid, pid),
{
    assert(audio_rules(vid, pid) =~= audio_interface_rule(vid, pid) + sound_card_rule(vid, pid)
        + sound_node_rule(vid, pid));
}

/// What a rule made of a start, the vendor, the product and an end names.
proof fn lemma_audio_rule_names(start: Seq<char>, vid: Seq<char>, pid: Seq<char>, end: Seq<char>)
    requires
        start.len() >= "ATTRS{idVendor}==\""@.len(),
        start.skip(start.len() - "ATTRS{idVendor}==\""@.len()) == "ATTRS{idVendor}==\""@,
        end.len() > 0,
        end[0] == '"',
    ensures
        has_part(
            start + vid + "\", ATTRS{idProduct}==\""@ + pid + end,
            "ATTRS{idVendor}==\""@ + vid + seq!['"'],
        ),
        has_part(
            start + vid + "\", ATTRS{idProduct}==\""@ + pid + end,
            "ATTRS{idProduct}==\""@ + pid + seq!['"'],
        ),
{
    reveal_strlit("ATTRS{idProduct}==\"");
    reveal_strlit("\", ATTRS{idProduct}==\"");
    let vendor = "ATTRS{idVendor}==\""@;
    let between = "\", ATTRS{idProduct}==\""@;
    let product = "ATTRS{idProduct}==\""@;
    let quote = seq!['"'];
    let rule = start + vid + between + pid + end;
    assert(between =~= quote + between.skip(1));
    assert(between =~= between.take(3) + product);
    assert(end =~= quote + end.skip(1));
    let head = start.take(start.len() - vendor.len());
    assert(start =~= head + vendor);
    lemma_part(head, vendor + vid + quote, between.skip(1) + pid + end);
    assert(rule =~= head + (vendor + vid + quote) + (between.skip(1) + pid + end));
    lemma_part(start + vid + between.take(3), product + pid + quote, end.skip(1));
    assert(rule =~= (start + vid + between.take(3)) + (product + pid + quote) + end.skip(1));
}

/// Each rule that switches the audio of a controller off holds for its vendor and its product, and
/// ends its line.
pub proof fn audio_rules_name_the_controller(vid: Seq<char>, pid: Seq<char>)
    ensures
        audio_rules(vid, pid) == audio_interface_rule(vid, pid) + sound_card_rule(vid, pid)
            + sound_node_rule(vid, pid),
        has_part(audio_interface_rule(vid, pid), "ATTRS{idVendor}==\""@ + vid + seq!['"']),
        has_part(audio_interface_rule(vid, pid), "ATTRS{idProduct}==\""@ + pid + seq!['"']),
        has_part(sound_card_rule(vid, pid), "ATTRS{idVendor}==\""@ + vid + seq!['"']),
        has_part(sound_card_rule(vid, pid), "ATTRS{idProduct}==\""@ + pid + seq!['"']),
        has_part(sound_node_rule(vid, pid), "ATTRS{idVendor}==\""@ + vid + seq!['"']),
        has_part(sound_node_rule(vid, pid), "ATTRS{idProduct}==\""@ + pid + seq!['"']),
        audio_interface_rule(vid, pid).last() == '\n',
        sound_card_rule(vid, pid).last() == '\n',
        sound_node_rule(vid, pid).last() == '\n',
{
    silencing_takes_three_rules(vid, pid);
    let vendor = "ATTRS{idVendor}==\""@;
    assert(has_part(audio_interface_rule(vid, pid), vendor + vid + seq!['"']) && has_part(
        audio_interface_rule(vid, pid),
        "ATTRS{idProduct}==\""@ + pid + seq!['"'],
    ) && audio_interface_rule(vid, pid).last() == '\n') by {
        reveal_strlit("ATTRS{idVendor}==\"");
        reveal_strlit(
            "ACTION==\"add|change\", SUBSYSTEM==\"usb\", DEVTYPE==\"usb_interface\", ATTR{bInterfaceClass}==\"01\", ATTRS{idVendor}==\"",
        );
        reveal_strlit("\", ATTR{authorized}=\"0\"\n");
        let start =
            "ACTION==\"add|change\", SUBSYSTEM==\"usb\", DEVTYPE==\"usb_interface\", ATTR{bInterfaceClass}==\"01\", ATTRS{idVendor}==\""@;
        assert(start.skip(start.len() - vendor.len()) =~= vendor);
        lemma_audio_rule_names(start, vid, pid, "\", ATTR{authorized}=\"0\"\n"@);
    }
    assert(has_part(sound_card_rule(vid, pid), vendor + vid + seq!['"']) && has_part(
        sound_card_rule(vid, pid),
        "ATTRS{idProduct}==\""@ + pid + seq!['"'],
    ) && sound_card_rule(vid, pid).last() == '\n') by {
        reveal_strlit("ATTRS{idVendor}==\"");
        reveal_strlit(
            "ACTION==\"add|change\", SUBSYSTEM==\"sound\", KERNEL==\"card*\", ATTRS{idVendor}==\"",
        );
        reveal_strlit("\", ENV{ACP_IGNORE}=\"1\", ENV{PULSE_IGNORE}=\"1\"\n");
        let start =
            "ACTION==\"add|change\", SUBSYSTEM==\"sound\", KERNEL==\"card*\", ATTRS{idVendor}==\""@;
        assert(start.skip(start.len() - vendor.len()) =~= vendor);
        lemma_audio_rule_names(
            start,
            vid,
            pid,
            "\", ENV{ACP_IGNORE}=\"1\", ENV{PULSE_IGNORE}=\"1\"\n"@,
        );
    }
    assert(has_part(sound_node_rule(vid, pid), vendor + vid + seq!['"']) && has_part(
        sound_node_rule(vid, pid),
        "ATTRS{idProduct}==\""@ + pid + seq!['"'],
    ) && sound_node_rule(vid, pid).last() == '\n') by {
        reveal_strlit("ATTRS{idVendor}==\"");
        reveal_strlit(
            "ACTION==\"add|change\", SUBSYSTEM==\"sound\", KERNEL==\"controlC*|pcmC*\", ATTRS{idVendor}==\"",
        );
        reveal_strlit(
            "\", ENV{ACP_IGNORE}=\"1\", ENV{PULSE_IGNORE}=\"1\", TAG-=\"uaccess\", MODE=\"0000\"\n",
        );
        let start =
            "ACTION==\"add|change\", SUBSYSTEM==\"sound\", KERNEL==\"controlC*|pcmC*\", ATTRS{idVendor}==\""@;
        assert(start.skip(start.len() - vendor.len()) =~= vendor);
        lemma_audio_rule_names(
            start,
            vid,
            pid,
            "\", ENV{ACP_IGNORE}=\"1\", ENV{PULSE_IGNORE}=\"1\", TAG-=\"uaccess\", MODE=\"0000\"\n"@,
        );
    }
}

/// Rules for different controllers differ.
pub proof fn rules_tell_controllers_apart(
    vid: Seq<char>,
    pid: Seq<char>,
    other_vid: Seq<char>,
    other_pid: Seq<char>,
)
    requires
        vid.len() == other_vid.len(),
        pid.len() == other_pid.len(),
        vid != other_vid || pid != other_pid,
    ensures
        hide_rules(vid, pid) != hide_rules(other_vid, other_pid),
        audio_rules(vid, pid) != audio_rules(other_vid, other_pid),
{
    hiding_takes_two_rules(vid, pid);
    hiding_takes_two_rules(other_vid, other_pid);
    silencing_takes_three_rules(vid, pid);
    silencing_takes_three_rules(other_vid, other_pid);
    let (hidden, other_hidden) = (hide_rules(vid, pid), hide_rules(other_vid, other_pid));
    let (silent, other_silent) = (audio_rules(vid, pid), audio_rules(other_vid, other_pid));
    let start =
        "ACTION==\"add|change\", SUBSYSTEM==\"input\", KERNEL==\"event*\", ENV{ID_VENDOR_ID}==\""@.len() as int;
    let next = start + vid.len() + "\", ENV{ID_MODEL_ID}==\""@.len();
    assert(hidden.subrange(start, start + vid.len()) =~= vid);
    assert(other_hidden.subrange(start, start + vid.len()) =~= other_vid);
    assert(hidden.subrange(next, next + pid.len()) =~= pid);
    assert(other_hidden.subrange(next, next + pid.len()) =~= other_pid);
    let first =
        "ACTION==\"add|change\", SUBSYSTEM==\"usb\", DEVTYPE==\"usb_interface\", ATTR{bInterfaceClass}==\"01\", ATTRS{idVendor}==\""@.len() as int;
    let second = first + vid.len() + "\", ATTRS{idProduct}==\""@.len();
    assert(silent.subrange(first, first + vid.len()) =~= vid);
    assert(other_silent.subrange(first, first + vid.len()) =~= other_vid);
    assert(silent.subrange(second, second + pid.len()) =~= pid);
    assert(other_silent.subrange(second, second + pid.len()) =~= other_pid);
}

/// A step tells what the action holds, field by field.
pub proof fn steps_tell_what_actions_hold(action: SystemAction)
    ensures
        ({
            let step = action@;
            &&& action matches SystemAction::RemoveFile { path: p } ==> (step
                matches ActionView::RemoveFile { path } && path == p@)
            &&& action matches SystemAction::WriteFile { path: p, text: t, failure: f } ==> (step
                matches ActionView::WriteFile { path, text, failure } && path == p@ && text == t@
                && failure == f@)
            &&& action matches SystemAction::WriteIfPresent { path: p, text: t, failure: f } ==> (
            step matches ActionView::WriteIfPresent { path, text, failure } && path == p@ && text
                == t@ && failure == f@)
            &&& action matches SystemAction::Run { program: p, args: a } ==> (step
                matches ActionView::Run { program, args } && program == p@ && args == texts_of(a@))
            &&& action matches SystemAction::Attempt { program: p, args: a } ==> (step
                matches ActionView::Attempt { program, args } && program == p@ && args == texts_of(
                a@,
            ))
        }),
{
}

/// A step tells what the action holds, for the steps that are about permissions.
pub proof fn steps_tell_whom_actions_concern(action: SystemAction)
    ensures
        ({
            let step = action@;
            &&& action matches SystemAction::SetMode { path: p, mode: m } ==> (step
                matches ActionView::SetMode { path, mode } && path == p@ && mode == m)
            &&& action matches SystemAction::UserAccess { vid: v, pid: p, user: u, grant: g } ==> (
            step matches ActionView::UserAccess { vid, pid, user, grant } && vid == v@ && pid == p@
                && user == u@ && grant == g)
            &&& action matches SystemAction::AudioAccess { vid: v, pid: p, user: u, grant: g } ==> (
            step matches ActionView::AudioAccess { vid, pid, user, grant } && vid == v@ && pid == p@
                && user == u@ && grant == g)
            &&& action matches SystemAction::AuthorizeAudio { vid: v, pid: p, authorized: a } ==> (
            step matches ActionView::AuthorizeAudio { vid, pid, authorized } && vid == v@ && pid
                == p@ && authorized == a)
        }),
{
}

/// A list of steps is seen one step after the other, and a list of strings one string after the
/// other.
pub proof fn lists_are_seen_one_by_one(actions: Seq<SystemAction>, list: Seq<String>, i: int)
    ensures
        action_views(actions).len() == actions.len(),
        0 <= i < actions.len() ==> action_views(actions)[i] == actions[i]@,
        texts_of(list).len() == list.len(),
        0 <= i < list.len() ==> texts_of(list)[i] == list[i]@,
{
}

/// Setting the polling interval is writing the override for the controller into the parameter of
/// the kernel module.
pub proof fn polling_is_one_write(vid: Seq<char>, pid: Seq<char>, binterval: u8)
    ensures
        polling_actions(vid, pid, binterval).len() == 1,
        ({
            let file = "/sys/module/usb_oc/parameters/interrupt_interval_override"@;
            polling_actions(vid, pid, binterval)[0] == (ActionView::WriteFile {
                path: file,
                text: vid + ":"@ + pid + ":"@ + decimal(binterval as nat),
                failure: "write "@ + file + "; is usb_oc loaded?"@,
            })
        }),
{
}

/// Hiding a controller writes its rules, makes udev read them and look at input and raw HID devices
/// again, waits, and takes the access of the user.
pub proof fn hiding_writes_the_rules(vid: Seq<char>, pid: Seq<char>, user: Seq<char>)
    ensures
        ({
            let steps = hide_actions(vid, pid, user);
            let file = "/etc/udev/rules.d/99-ds4linux-hide-physical.rules"@;
            &&& steps.len() == 6
            &&& steps[0] == (ActionView::WriteFile {
                path: file,
                text: event_node_rule(vid, pid) + raw_node_rule(vid, pid),
                failure: "write "@ + file,
            })
            &&& is_udevadm(steps[1], true, seq!["control"@, "--reload"@])
            &&& is_udevadm(
                steps[2],
                false,
                seq!["trigger"@, "--action=change"@, "--subsystem-match="@ + "input"@],
            )
            &&& is_udevadm(
                steps[3],
                false,
                seq!["trigger"@, "--action=change"@, "--subsystem-match="@ + "hidraw"@],
            )
            &&& is_udevadm(steps[4], false, seq!["settle"@])
            &&& steps[5] == (ActionView::UserAccess { vid, pid, user, grant: false })
        }),
{
    hiding_takes_two_rules(vid, pid);
}

/// The step runs `udevadm` with `args`, and has to succeed exactly where `needed`.
pub open spec fn is_udevadm(step: ActionView, needed: bool, args: Seq<Seq<char>>) -> bool {
    step == if needed {
        ActionView::Run { program: "udevadm"@, args }
    } else {
        ActionView::Attempt { program: "udevadm"@, args }
    }
}

/// Showing a controller removes its rules, makes udev read what is left and look at input and raw
/// HID devices again, waits, and gives the user access.
pub proof fn showing_removes_the_rules(vid: Seq<char>, pid: Seq<char>, user: Seq<char>)
    ensures
        ({
            let steps = show_actions(vid, pid, user);
            &&& steps.len() == 6
            &&& steps[0] == (ActionView::RemoveFile {
                path: "/etc/udev/rules.d/99-ds4linux-hide-physical.rules"@,
            })
            &&& is_udevadm(steps[1], true, seq!["control"@, "--reload"@])
            &&& is_udevadm(
                steps[2],
                false,
                seq!["trigger"@, "--action=change"@, "--subsystem-match="@ + "input"@],
            )
            &&& is_udevadm(
                steps[3],
                false,
                seq!["trigger"@, "--action=change"@, "--subsystem-match="@ + "hidraw"@],
            )
            &&& is_udevadm(steps[4], false, seq!["settle"@])
            &&& steps[5] == (ActionView::UserAccess { vid, pid, user, grant: true })
        }),
{
}

/// Switching the audio of a controller off writes its rules and forbids its audio interfaces, and
/// takes the access of the user; switching it on removes the rules, allows the interfaces and gives
/// the user access. In between, udev reads its rules, looks at sound devices again and is waited
/// for.
pub proof fn audio_is_switched_by_rules_and_interfaces(
    vid: Seq<char>,
    pid: Seq<char>,
    user: Seq<char>,
)
    ensures
        ({
            let off = audio_off_actions(vid, pid, user);
            let on = audio_on_actions(vid, pid, user);
            let file = "/etc/udev/rules.d/99-ds4linux-disable-controller-audio.rules"@;
            &&& off.len() == 6
            &&& on.len() == 6
            &&& off[0] == (ActionView::WriteFile {
                path: file,
                text: audio_interface_rule(vid, pid) + sound_card_rule(vid, pid) + sound_node_rule(
                    vid,
                    pid,
                ),
                failure: "write "@ + file,
            })
            &&& on[0] == (ActionView::RemoveFile { path: file })
            &&& off[1] == (ActionView::AuthorizeAudio { vid, pid, authorized: false })
            &&& on[1] == (ActionView::AuthorizeAudio { vid, pid, authorized: true })
            &&& off.subrange(2, 5) == sound_reload_actions()
            &&& on.subrange(2, 5) == sound_reload_actions()
            &&& off[5] == (ActionView::AudioAccess { vid, pid, user, grant: false })
            &&& on[5] == (ActionView::AudioAccess { vid, pid, user, grant: true })
        }),
{
    silencing_takes_three_rules(vid, pid);
    assert(audio_off_actions(vid, pid, user).subrange(2, 5) =~= sound_reload_actions());
    assert(audio_on_actions(vid, pid, user).subrange(2, 5) =~= sound_reload_actions());
}

/// Udev looks at sound devices again once it has read its rules, and is waited for.
pub proof fn sound_devices_are_looked_at_again(steps: Seq<ActionView>)
    requires
        steps == sound_reload_actions(),
    ensures
        steps.len() == 3,
        is_udevadm(steps[0], true, seq!["control"@, "--reload"@]),
        is_udevadm(
            steps[1],
            false,
            seq!["trigger"@, "--action=change"@, "--subsystem-match="@ + "sound"@],
        ),
        is_udevadm(steps[2], false, seq!["settle"@]),
{
}

/// Each interface is allowed by a one, and forbidden by a zero, in the file that says so.
pub proof fn each_interface_is_authorized(paths: Seq<Seq<char>>, authorized: bool, i: int)
    requires
        0 <= i < paths.len(),
    ensures
        authorize_actions(paths, authorized).len() == paths.len(),
        authorize_actions(paths, authorized)[i] == (ActionView::WriteIfPresent {
            path: paths[i] + "/authorized"@,
            text: if authorized {
                "1"@
            } else {
                "0"@
            },
            failure: "write "@ + (paths[i] + "/authorized"@),
        }),
{
}

/// The step changes the access list of `path` by `entry`.
pub open spec fn changes_access(
    step: ActionView,
    flag: Seq<char>,
    entry: Seq<char>,
    path: Seq<char>,
) -> bool {
    step == (ActionView::Attempt { program: "setfacl"@, args: seq![flag, entry, path] })
}

/// Access to a node is given by opening it to its owner and its group and by entering the user, and
/// taken by striking the user out, emptying the group and leaving the permissions that were asked
/// for.
pub proof fn access_is_given_and_taken(
    path: Seq<char>,
    user: Seq<char>,
    mode: u32,
)
    ensures
        ({
            let given = access_actions(path, user, true, mode);
            &&& given == grant_actions(path, user)
            &&& given.len() == 3
            &&& given[0] == (ActionView::SetMode { path, mode: 0o660 })
            &&& changes_access(given[1], "-m"@, "u:"@ + user + ":rw"@, path)
            &&& changes_access(given[2], "-m"@, "g::rw-,m::rw-"@, path)
        }),
        ({
            let taken = access_actions(path, user, false, mode);
            &&& taken == deny_actions(path, user, mode)
            &&& taken.len() == 3
            &&& changes_access(taken[0], "-x"@, "u:"@ + user, path)
            &&& changes_access(taken[1], "-m"@, "g::---,m::---"@, path)
            &&& taken[2] == (ActionView::SetMode { path, mode })
        }),
{
}

/// At a node of the controller, access is given to the user or taken from them, which leaves the
/// node to its owner alone; at other nodes nothing is done.
pub proof fn only_nodes_of_the_controller_change(
    dir: Seq<char>,
    node: DeviceNode,
    vid: Seq<char>,
    pid: Seq<char>,
    user: Seq<char>,
)
    ensures
        ({
            let given = node_actions(dir, node, vid, pid, user, true);
            let taken = node_actions(dir, node, vid, pid, user, false);
            &&& node.is_access_node_of(dir, vid, pid) ==> given == grant_actions(node.path@, user)
            &&& node.is_access_node_of(dir, vid, pid) ==> taken == deny_actions(
                node.path@,
                user,
                0o600,
            )
            &&& !node.is_access_node_of(dir, vid, pid) ==> given.len() == 0 && taken.len() == 0
        }),
{
}

/// Steps at a list of nodes are the steps at each of them, one after the other.
pub proof fn steps_are_taken_node_by_node(
    paths: Seq<Seq<char>>,
    more: Seq<Seq<char>>,
    path: Seq<char>,
    steps: spec_fn(Seq<char>) -> Seq<ActionView>,
)
    ensures
        for_each_path(seq![path], steps) == steps(path),
        for_each_path(Seq::empty(), steps) == Seq::<ActionView>::empty(),
        for_each_path(paths + more, steps) == for_each_path(paths, steps) + for_each_path(
            more,
            steps,
        ),
    decreases more.len(),
{
    assert(seq![path].drop_last() =~= Seq::empty());
    assert(for_each_path(seq![path], steps) =~= for_each_path(seq![path].drop_last(), steps) + steps(
        path,
    ));
    assert(for_each_path(seq![path].drop_last(), steps) =~= Seq::empty());
    assert(for_each_path(seq![path], steps) =~= steps(path));
    if more.len() == 0 {
        assert(paths + more =~= paths);
        assert(for_each_path(paths, steps) =~= for_each_path(paths, steps) + for_each_path(
            more,
            steps,
        ));
    } else {
        steps_are_taken_node_by_node(paths, more.drop_last(), path, steps);
        assert((paths + more).drop_last() =~= paths + more.drop_last());
        assert((paths + more).last() == more.last());
        assert(for_each_path(paths + more, steps) =~= for_each_path(paths, steps) + for_each_path(
            more,
            steps,
        ));
    }
}

} // verus!
