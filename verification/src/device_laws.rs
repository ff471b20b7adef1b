//! What holds of finding controllers and the nodes that belong to them.
use vstd::prelude::*;

#[allow(unused_imports)]
use crate::device::{
    controllers, device_views, first_device, has_gamepad_button, is_at, is_dualsense, is_physical,
    marked, selected_device, views_at, ControllerProbe, DeviceView, InputDeviceInfo,
};
#[allow(unused_imports)]
use crate::input::{axis_codes, gamepad_buttons, key_codes};
#[allow(unused_imports)]
use crate::number::{hexadecimal, is_digit};
#[allow(unused_imports)]
use crate::order::{before, Keyed};
#[allow(unused_imports)]
use crate::text::{lines_of, text_of, trimmed};
#[allow(unused_imports)]
use crate::udev::{
    audio_paths, card_number, cards_of, is_access_node, is_hidraw, is_node_of_cards,
    known_as, product_of, referred, sound_paths, vendor_of, DeviceNode, UsbInterface,
};

verus! {

/// The first wanted device stands at some place, and none that stands earlier is wanted.
proof fn lemma_first_place(
    devices: Seq<InputDeviceInfo>,
    wanted: spec_fn(InputDeviceInfo) -> bool,
) -> (at: int)
    ensures
        first_device(devices, wanted) matches Some(d) ==> 0 <= at < devices.len() && devices[at]
            == d && wanted(d) && forall|j: int| 0 <= j < at ==> !wanted(#[trigger] devices[j]),
        first_device(devices, wanted) is None ==> forall|j: int|
            0 <= j < devices.len() ==> !wanted(#[trigger] devices[j]),
    decreases devices.len(),
{
    if devices.len() == 0 || wanted(devices[0]) {
        0
    } else {
        let rest = devices.drop_first();
        let at = lemma_first_place(rest, wanted);
        assert forall|j: int| 0 <= j < devices.len() && (first_device(devices, wanted) is None || j
            < at + 1) implies !wanted(#[trigger] devices[j]) by {
            if j > 0 {
                assert(rest[j - 1] == devices[j]);
            }
        }
        at + 1
    }
}

/// The device at the path that the user chose is selected, else the first DualSense controller, else
/// the first device that is not virtual; `at` is where it stands among the devices.
pub proof fn selection_goes_by_choice_kind_and_place(
    path: Option<Seq<char>>,
    devices: Seq<InputDeviceInfo>,
) -> (at: int)
    ensures
        ({
            let chosen = |d: InputDeviceInfo| path == Some(d.path@);
            let dualsense = |d: InputDeviceInfo|
                text_of(d.vendor_id) == Some("054c"@) && text_of(d.product_id) == Some("0ce6"@);
            let none = |p: spec_fn(InputDeviceInfo) -> bool, end: int|
                forall|j: int| 0 <= j < end ==> !p(#[trigger] devices[j]);
            let all = devices.len() as int;
            match selected_device(path, devices) {
                Some(d) => {
                    &&& 0 <= at < devices.len()
                    &&& devices[at] == d
                    &&& {
                        ||| chosen(d) && none(chosen, at)
                        ||| none(chosen, all) && dualsense(d) && none(dualsense, at)
                        ||| none(chosen, all) && none(dualsense, all) && !d.is_virtual && none(
                            |d: InputDeviceInfo| !d.is_virtual,
                            at,
                        )
                    }
                },
                None => none(chosen, all) && none(dualsense, all) && none(
                    |d: InputDeviceInfo| !d.is_virtual,
                    all,
                ),
            }
        }),
{
    let chosen = |d: InputDeviceInfo| path == Some(d.path@);
    let dualsense = |d: InputDeviceInfo|
        text_of(d.vendor_id) == Some("054c"@) && text_of(d.product_id) == Some("0ce6"@);
    let physical = |d: InputDeviceInfo| !d.is_virtual;
    assert(chosen =~= is_at(path));
    assert(dualsense =~= is_dualsense());
    assert(physical =~= is_physical());
    let a = lemma_first_place(devices, chosen);
    let b = lemma_first_place(devices, dualsense);
    let c = lemma_first_place(devices, physical);
    if first_device(devices, chosen) is Some {
        a
    } else if first_device(devices, dualsense) is Some {
        b
    } else {
        c
    }
}

/// Marking tells of each device whether it is the selected one, and changes nothing else; where none
/// is selected, it changes nothing at all.
pub proof fn marking_tells_the_selected_device(device: InputDeviceInfo, path: Seq<char>)
    ensures
        ({
            let after = marked(device, Some(path));
            &&& after.is_selected <==> device.path@ == path
            &&& after.path == device.path
            &&& after.name == device.name
            &&& after.vendor_id == device.vendor_id
            &&& after.product_id == device.product_id
            &&& after.is_virtual == device.is_virtual
        }),
        marked(device, None) == device,
{
}

/// A device is seen as its texts and flags, and is ordered by its path.
pub proof fn devices_are_seen_as_they_are(devices: Seq<InputDeviceInfo>, i: int)
    requires
        0 <= i < devices.len(),
    ensures
        device_views(devices).len() == devices.len(),
        device_views(devices)[i] == devices[i]@,
        devices[i]@.path == devices[i].path@,
        devices[i]@.name == devices[i].name@,
        devices[i]@.vendor_id == text_of(devices[i].vendor_id),
        devices[i]@.product_id == text_of(devices[i].product_id),
        devices[i]@.is_selected == devices[i].is_selected,
        devices[i]@.is_virtual == devices[i].is_virtual,
        devices[i].key() == devices[i].path@,
        forall|path: Seq<char>| #[trigger]
            views_at(path)(devices[i]@) <==> devices[i].path@ == path,
{
}

/// A controller is what has both axes of a left stick and some button of a game pad.
pub proof fn controllers_have_a_stick_and_a_button(probe: ControllerProbe)
    ensures
        probe.is_controller() <==> {
            &&& probe.axes matches Some(axes) && axis_codes(axes).contains(0) && axis_codes(
                axes,
            ).contains(1)
            &&& probe.keys matches Some(keys) && exists|key: u16| #[trigger]
                key_codes(keys).contains(key) && gamepad_buttons().contains(key)
        },
{
    if let Some(keys) = probe.keys {
        let codes = key_codes(keys);
        if has_gamepad_button(codes) {
            let i = choose|i: int|
                0 <= i < gamepad_buttons().len() && codes.contains(#[trigger] gamepad_buttons()[i]);
            assert(codes.contains(gamepad_buttons()[i]) && gamepad_buttons().contains(
                gamepad_buttons()[i],
            ));
        }
        if exists|key: u16| #[trigger] codes.contains(key) && gamepad_buttons().contains(key) {
            let key = choose|key: u16| #[trigger]
                codes.contains(key) && gamepad_buttons().contains(key);
            let i = choose|i: int| 0 <= i < gamepad_buttons().len() && gamepad_buttons()[i] == key;
            assert(codes.contains(gamepad_buttons()[i]));
        }
    }
}

/// A controller is described by its path, its name where it has one, and its numbers; it is virtual
/// where its name or its numbers are those of a virtual controller.
pub proof fn controllers_are_described_by_what_they_are(probe: ControllerProbe)
    ensures
        ({
            let d = probe.described();
            &&& d.path == probe.path@
            &&& probe.name matches Some(name) ==> d.name == name@
            &&& probe.name is None ==> d.name == "Unknown controller"@
            &&& d.vendor_id == Some(hexadecimal(probe.vendor))
            &&& d.product_id == Some(hexadecimal(probe.product))
            &&& !d.is_selected
            &&& d.is_virtual <==> {
                ||| d.name == "DS4Linux Virtual Controller"@
                ||| d.name == "DS4Linux Virtual Xbox 360 Controller"@
                ||| probe.vendor == 0x045e && probe.product == 0x028e
            }
        }),
{
}

/// The controllers of a list are those of its parts, one after the other, and each that is one.
pub proof fn controllers_are_found_one_by_one(
    probes: Seq<ControllerProbe>,
    probe: ControllerProbe,
)
    ensures
        controllers(Seq::empty()) == Seq::<DeviceView>::empty(),
        probe.is_controller() ==> controllers(probes.push(probe)) == controllers(probes).push(
            probe.described(),
        ),
        !probe.is_controller() ==> controllers(probes.push(probe)) == controllers(probes),
{
    reveal(Seq::filter);
    assert(controllers(Seq::empty()) =~= Seq::<DeviceView>::empty());
    assert(probes.push(probe).drop_last() =~= probes);
    if probe.is_controller() {
        assert(controllers(probes.push(probe)) =~= controllers(probes).push(probe.described()));
    }
}

/// A device has the vendor and the product that it tells, and those of a DualSense controller where
/// it tells none; so has no device.
pub proof fn unknown_devices_pass_for_a_dualsense(device: InputDeviceInfo)
    ensures
        device.vendor_id matches Some(vid) ==> vendor_of(Some(device)) == vid@,
        device.vendor_id is None ==> vendor_of(Some(device)) == "054c"@,
        device.product_id matches Some(pid) ==> product_of(Some(device)) == pid@,
        device.product_id is None ==> product_of(Some(device)) == "0ce6"@,
        vendor_of(None) == "054c"@,
        product_of(None) == "0ce6"@,
        referred(Some(&device)) == Some(device),
        referred(None) is None,
{
}

/// Properties are those of a device where some line gives its vendor and some line its product, both
/// under the names of the device or both under those of its USB parent. Where no properties could be
/// had, they are those of no device.
pub proof fn properties_name_vendor_and_product(props: Seq<char>, vid: Seq<char>, pid: Seq<char>)
    ensures
        known_as(Some(props), vid, pid) <==> {
            let lines = lines_of(props);
            ||| lines.contains("ID_VENDOR_ID"@ + "="@ + vid) && lines.contains(
                "ID_MODEL_ID"@ + "="@ + pid,
            )
            ||| lines.contains("ID_USB_VENDOR_ID"@ + "="@ + vid) && lines.contains(
                "ID_USB_MODEL_ID"@ + "="@ + pid,
            )
        },
        !known_as(None, vid, pid),
{
}

/// A raw HID node of a device has a name that starts with `hidraw` and the properties of the device.
pub proof fn raw_nodes_belong_to_their_device(node: DeviceNode, device: InputDeviceInfo)
    ensures
        node.is_hidraw_of(device) <==> "hidraw"@.is_prefix_of(node.name@) && known_as(
            text_of(node.props),
            vendor_of(Some(device)),
            product_of(Some(device)),
        ),
        is_hidraw(node.name@) <==> "hidraw"@.is_prefix_of(node.name@),
{
}

/// A raw HID node of the input interface is better than any other; among nodes that do not differ in
/// that, the one whose path stands first is best.
pub proof fn input_interfaces_come_first(node: DeviceNode, other: DeviceNode)
    ensures
        node.is_input_interface() <==> (node.props matches Some(props) && lines_of(props@).contains(
            "ID_USB_INTERFACE_NUM"@ + "="@ + "03"@,
        )),
        node.is_input_interface() && !other.is_input_interface() ==> node.is_better_than(other),
        !node.is_input_interface() && other.is_input_interface() ==> !node.is_better_than(other),
        node.is_input_interface() == other.is_input_interface() ==> (node.is_better_than(other)
            <==> before(node.path@, other.path@)),
{
}

/// Hiding is about event nodes of the directory of input devices and about raw HID nodes of the
/// directory of all devices.
pub proof fn hiding_is_about_event_and_raw_nodes(
    dir: Seq<char>,
    node: DeviceNode,
    vid: Seq<char>,
    pid: Seq<char>,
)
    ensures
        is_access_node(dir, node.name@) <==> {
            ||| dir == "/dev/input"@ && "event"@.is_prefix_of(node.name@)
            ||| dir == "/dev"@ && "hidraw"@.is_prefix_of(node.name@)
        },
        node.is_access_node_of(dir, vid, pid) <==> is_access_node(dir, node.name@) && known_as(
            text_of(node.props),
            vid,
            pid,
        ),
{
}

/// The number of a sound card is what stands behind `card` in its name, one digit or more.
pub proof fn card_numbers_stand_behind_card(name: Seq<char>, number: Seq<char>)
    ensures
        card_number(name) == Some(number) <==> {
            &&& name == "card"@ + number
            &&& number.len() > 0
            &&& forall|i: int| 0 <= i < number.len() ==> '0' <= (#[trigger] number[i]) <= '9'
        },
{
    let behind = name.skip("card"@.len() as int);
    if card_number(name) == Some(number) {
        assert(name =~= "card"@ + number);
        assert forall|i: int| 0 <= i < number.len() implies '0' <= (#[trigger] number[i])
            <= '9' by {
            assert(is_digit(number[i]));
        }
    }
    if name == "card"@ + number {
        assert(behind =~= number);
        assert("card"@.is_prefix_of(name));
    }
}

/// The sound cards of a controller are those of its nodes that are cards, in their order.
pub proof fn cards_are_found_one_by_one(
    nodes: Seq<DeviceNode>,
    node: DeviceNode,
    vid: Seq<char>,
    pid: Seq<char>,
)
    ensures
        cards_of(Seq::empty(), vid, pid) == Seq::<Seq<char>>::empty(),
        cards_of(nodes.push(node), vid, pid) == match card_number(node.name@) {
            Some(card) => if known_as(text_of(node.props), vid, pid) {
                cards_of(nodes, vid, pid).push(card)
            } else {
                cards_of(nodes, vid, pid)
            },
            None => cards_of(nodes, vid, pid),
        },
{
    assert(nodes.push(node).drop_last() =~= nodes);
}

/// A node belongs to a sound card where it is its control node or one of its streams.
pub proof fn sound_nodes_belong_to_cards(
    name: Seq<char>,
    cards: Seq<Seq<char>>,
)
    ensures
        is_node_of_cards(name, cards) <==> exists|card: Seq<char>| #[trigger]
            cards.contains(card) && (name == "controlC"@ + card || ("pcmC"@ + card
                + "D"@).is_prefix_of(name)),
{
    if is_node_of_cards(name, cards) {
        let i = choose|i: int|
            0 <= i < cards.len() && crate::udev::is_node_of_card(name, #[trigger] cards[i]);
        assert(cards.contains(cards[i]));
    }
    if exists|card: Seq<char>| #[trigger]
        cards.contains(card) && (name == "controlC"@ + card || ("pcmC"@ + card + "D"@).is_prefix_of(
            name,
        )) {
        let card = choose|card: Seq<char>| #[trigger]
            cards.contains(card) && (name == "controlC"@ + card || ("pcmC"@ + card
                + "D"@).is_prefix_of(name));
        let i = choose|i: int| 0 <= i < cards.len() && cards[i] == card;
        assert(crate::udev::is_node_of_card(name, cards[i]));
    }
}

/// The paths of sound nodes are those of the nodes that belong to the cards, in their order.
pub proof fn sound_nodes_are_found_one_by_one(
    nodes: Seq<DeviceNode>,
    node: DeviceNode,
    cards: Seq<Seq<char>>,
)
    ensures
        sound_paths(Seq::empty(), cards) == Seq::<Seq<char>>::empty(),
        is_node_of_cards(node.name@, cards) ==> sound_paths(nodes.push(node), cards) == sound_paths(
            nodes,
            cards,
        ).push(node.path@),
        !is_node_of_cards(node.name@, cards) ==> sound_paths(nodes.push(node), cards)
            == sound_paths(nodes, cards),
{
    assert(nodes.push(node).drop_last() =~= nodes);
}

/// An audio interface of a controller is named as an interface, has the class of audio, and the
/// vendor and the product of the controller, up to white space around them.
pub proof fn audio_interfaces_have_class_one(
    interface: UsbInterface,
    vid: Seq<char>,
    pid: Seq<char>,
)
    ensures
        interface.is_audio_of(vid, pid) <==> {
            &&& interface.name@.contains(':')
            &&& interface.interface_class matches Some(class) && trimmed(class@) == "01"@
            &&& interface.id_vendor matches Some(vendor) && trimmed(vendor@) == vid
            &&& interface.id_product matches Some(product) && trimmed(product@) == pid
        },
{
}

/// The paths of audio interfaces are those of the interfaces that are some, in their order.
pub proof fn audio_interfaces_are_found_one_by_one(
    interfaces: Seq<UsbInterface>,
    interface: UsbInterface,
    vid: Seq<char>,
    pid: Seq<char>,
)
    ensures
        audio_paths(Seq::empty(), vid, pid) == Seq::<Seq<char>>::empty(),
        interface.is_audio_of(vid, pid) ==> audio_paths(interfaces.push(interface), vid, pid)
            == audio_paths(interfaces, vid, pid).push(interface.path@),
        !interface.is_audio_of(vid, pid) ==> audio_paths(interfaces.push(interface), vid, pid)
            == audio_paths(interfaces, vid, pid),
{
    assert(interfaces.push(interface).drop_last() =~= interfaces);
}

} // verus!
