//! Device nodes: what udev and sysfs tell about them, and which belong to a controller.
use vstd::prelude::*;

use crate::device::InputDeviceInfo;
use crate::number::is_digit;
#[allow(unused_imports)]
use crate::number::all_digits;
use crate::order::{sort_texts, text_before};
#[allow(unused_imports)]
use crate::order::{are_sorted_texts, before, lemma_before_asymmetric, lemma_not_before_transitive};
use crate::profile::{DUALSENSE_PID, DUALSENSE_VID};
use crate::text::{
    before_first, behind_prefix, chars_of, has_line, is_text, same_text, starts_with, strings,
    trim_optional,
};
#[allow(unused_imports)]
use crate::text::{index_from, lines_of, str_text_of, text_of, texts_of, trimmed_optional};

verus! {

/// The directory of the sound cards.
pub const SOUND_CARD_DIR: &'static str = "/sys/class/sound";

/// The directory of the sound nodes.
pub const SOUND_NODE_DIR: &'static str = "/dev/snd";

/// The directory of the USB devices and their interfaces.
pub const USB_DEVICE_DIR: &'static str = "/sys/bus/usb/devices";

/// The directory of the raw HID nodes.
pub const DEVICE_DIR: &'static str = "/dev";

/// An entry of a device directory.
#[derive(Debug, PartialEq)]
pub struct DeviceNode {
    /// Its name in the directory.
    pub name: String,
    /// Its path.
    pub path: String,
    /// Its udev properties, one `KEY=value` a line, where they could be had.
    pub props: Option<String>,
}

/// An entry of the directory of USB devices.
#[derive(Debug, PartialEq)]
pub struct UsbInterface {
    /// Its name in the directory.
    pub name: String,
    /// Its path.
    pub path: String,
    /// The content of its `bInterfaceClass`.
    pub interface_class: Option<String>,
    /// The content of the `idVendor` of its device.
    pub id_vendor: Option<String>,
    /// The content of the `idProduct` of its device.
    pub id_product: Option<String>,
}

/// The properties `props` give `key` the value `value`.
pub open spec fn gives(props: Seq<char>, key: Seq<char>, value: Seq<char>) -> bool {
    lines_of(props).contains(key + "="@ + value)
}

/// The properties `props` are those of the USB device `vid:pid`.
pub open spec fn gives_device(props: Seq<char>, vid: Seq<char>, pid: Seq<char>) -> bool {
    ||| gives(props, "ID_VENDOR_ID"@, vid) && gives(props, "ID_MODEL_ID"@, pid)
    ||| gives(props, "ID_USB_VENDOR_ID"@, vid) && gives(props, "ID_USB_MODEL_ID"@, pid)
}

/// The properties are known, and are those of the USB device `vid:pid`.
pub open spec fn known_as(props: Option<Seq<char>>, vid: Seq<char>, pid: Seq<char>) -> bool {
    match props {
        Some(props) => gives_device(props, vid, pid),
        None => false,
    }
}

/// The USB vendor of `device`; that of a DualSense controller where it is unknown.
pub open spec fn vendor_of(device: Option<InputDeviceInfo>) -> Seq<char> {
    match device {
        Some(device) => match device.vendor_id {
            Some(vid) => vid@,
            None => DUALSENSE_VID@,
        },
        None => DUALSENSE_VID@,
    }
}

/// The USB product of `device`; that of a DualSense controller where it is unknown.
pub open spec fn product_of(device: Option<InputDeviceInfo>) -> Seq<char> {
    match device {
        Some(device) => match device.product_id {
            Some(pid) => pid@,
            None => DUALSENSE_PID@,
        },
        None => DUALSENSE_PID@,
    }
}

/// The device behind an optional reference.
pub open spec fn referred(device: Option<&InputDeviceInfo>) -> Option<InputDeviceInfo> {
    match device {
        Some(device) => Some(*device),
        None => None,
    }
}

/// The USB vendor of `device`; that of a DualSense controller where it is unknown.
pub fn device_vendor(device: Option<&InputDeviceInfo>) -> (r: String)
    ensures
        r@ == vendor_of(referred(device)),
{
    match device {
        Some(device) => match &device.vendor_id {
            Some(vid) => vid.clone(),
            None => DUALSENSE_VID.to_owned(),
        },
        None => DUALSENSE_VID.to_owned(),
    }
}

/// The USB product of `device`; that of a DualSense controller where it is unknown.
pub fn device_product(device: Option<&InputDeviceInfo>) -> (r: String)
    ensures
        r@ == product_of(referred(device)),
{
    match device {
        Some(device) => match &device.product_id {
            Some(pid) => pid.clone(),
            None => DUALSENSE_PID.to_owned(),
        },
        None => DUALSENSE_PID.to_owned(),
    }
}

/// Whether the properties `props` give `key` the value `value`.
pub fn has_prop(props: &str, key: &str, value: &str) -> (r: bool)
    ensures
        r == gives(props@, key@, value@),
{
    let mut line = key.to_owned();
    line.append("=");
    line.append(value);
    has_line(props, line.as_str())
}

/// Whether a device node with the properties `props` belongs to the USB device `vid:pid`.
pub fn device_node_matches(props: Option<&str>, vid: &str, pid: &str) -> (r: bool)
    ensures
        r == known_as(str_text_of(props), vid@, pid@),
{
    match props {
        Some(props) => (has_prop(props, "ID_VENDOR_ID", vid) && has_prop(props, "ID_MODEL_ID", pid))
            || (has_prop(props, "ID_USB_VENDOR_ID", vid) && has_prop(props, "ID_USB_MODEL_ID", pid)),
        None => false,
    }
}

/// Whether `node` belongs to the USB device `vid:pid`.
fn node_matches(node: &DeviceNode, vid: &str, pid: &str) -> (r: bool)
    ensures
        r == known_as(text_of(node.props), vid@, pid@),
{
    match &node.props {
        Some(props) => device_node_matches(Some(props.as_str()), vid, pid),
        None => false,
    }
}

/// The name of a raw HID node.
pub open spec fn is_hidraw(name: Seq<char>) -> bool {
    "hidraw"@.is_prefix_of(name)
}

/// Whether `name` is that of a raw HID node.
pub fn is_hidraw_name(name: &str) -> (r: bool)
    ensures
        r == is_hidraw(name@),
{
    starts_with(name, "hidraw")
}

impl DeviceNode {
    /// It is a raw HID node of `device`.
    pub open spec fn is_hidraw_of(self, device: InputDeviceInfo) -> bool {
        &&& is_hidraw(self.name@)
        &&& known_as(text_of(self.props), vendor_of(Some(device)), product_of(Some(device)))
    }

    /// It belongs to the interface on which a DualSense controller reports its input.
    pub open spec fn is_input_interface(self) -> bool {
        match self.props {
            Some(props) => gives(props@, "ID_USB_INTERFACE_NUM"@, "03"@),
            None => false,
        }
    }

    /// It is a better source of reports than `other`: it belongs to the input interface and
    /// `other` does not; or they do not differ in that, and its path stands before that of
    /// `other`.
    pub open spec fn is_better_than(self, other: DeviceNode) -> bool {
        ||| self.is_input_interface() && !other.is_input_interface()
        ||| self.is_input_interface() == other.is_input_interface() && before(
            self.path@,
            other.path@,
        )
    }

    /// Whether it belongs to the interface on which a DualSense controller reports its input.
    fn on_input_interface(&self) -> (r: bool)
        ensures
            r == self.is_input_interface(),
    {
        match &self.props {
            Some(props) => has_prop(props.as_str(), "ID_USB_INTERFACE_NUM", "03"),
            None => false,
        }
    }

    /// Whether it is a better source of reports than `other`.
    fn beats(&self, other: &DeviceNode) -> (r: bool)
        ensures
            r == self.is_better_than(*other),
    {
        let here = self.on_input_interface();
        let there = other.on_input_interface();
        (here && !there) || (here == there && text_before(self.path.as_str(), other.path.as_str()))
    }
}

/// The path of the best raw HID node of `device` among `nodes`.
pub fn find_hidraw_for_device(device: &InputDeviceInfo, nodes: &Vec<DeviceNode>) -> (r: Option<
    String,
>)
    ensures
        r is None <==> forall|i: int|
            0 <= i < nodes@.len() ==> !(#[trigger] nodes@[i]).is_hidraw_of(*device),
        r matches Some(path) ==> exists|i: int|
            {
                &&& 0 <= i < nodes@.len()
                &&& (#[trigger] nodes@[i]).is_hidraw_of(*device)
                &&& nodes@[i].path@ == path@
                &&& forall|j: int|
                    0 <= j < nodes@.len() && (#[trigger] nodes@[j]).is_hidraw_of(*device)
                        ==> !nodes@[j].is_better_than(nodes@[i])
            },
{
    let vid = device_vendor(Some(device));
    let pid = device_product(Some(device));
    let mut best: Option<usize> = None;
    let mut i: usize = 0;
    while i < nodes.len()
        invariant
            i <= nodes.len(),
            vid@ == vendor_of(Some(*device)),
            pid@ == product_of(Some(*device)),
            best is None ==> forall|j: int|
                0 <= j < i ==> !(#[trigger] nodes@[j]).is_hidraw_of(*device),
            best matches Some(b) ==> {
                &&& b < i
                &&& nodes@[b as int].is_hidraw_of(*device)
                &&& forall|j: int|
                    0 <= j < i && (#[trigger] nodes@[j]).is_hidraw_of(*device)
                        ==> !nodes@[j].is_better_than(nodes@[b as int])
            },
        decreases nodes.len() - i,
    {
        if is_hidraw_name(nodes[i].name.as_str()) && node_matches(
            &nodes[i],
            vid.as_str(),
            pid.as_str(),
        ) {
            assert(nodes@[i as int].is_hidraw_of(*device));
            proof {
                lemma_before_asymmetric(nodes@[i as int].path@, nodes@[i as int].path@);
            }
            match best {
                Some(b) => {
                    if nodes[i].beats(&nodes[b]) {
                        proof {
                            assert forall|j: int|
                                0 <= j <= i && (#[trigger] nodes@[j]).is_hidraw_of(
                                    *device,
                                ) implies !nodes@[j].is_better_than(nodes@[i as int]) by {
                                if j < i {
                                    lemma_better_transitive(
                                        nodes@[j],
                                        nodes@[i as int],
                                        nodes@[b as int],
                                    );
                                }
                            }
                        }
                        best = Some(i);
                    }
                },
                None => {
                    best = Some(i);
                },
            }
        }
        i = i + 1;
    }
    match best {
        Some(b) => {
            assert(nodes@[b as int].is_hidraw_of(*device));
            Some(nodes[b].path.clone())
        },
        None => None,
    }
}

/// "Better" carries over.
proof fn lemma_better_transitive(a: DeviceNode, b: DeviceNode, c: DeviceNode)
    requires
        b.is_better_than(c),
    ensures
        a.is_better_than(b) ==> a.is_better_than(c),
{
    if a.is_better_than(b) && a.is_input_interface() == b.is_input_interface()
        && b.is_input_interface() == c.is_input_interface() {
        lemma_before_asymmetric(a.path@, b.path@);
        lemma_before_asymmetric(b.path@, c.path@);
        if !before(a.path@, c.path@) {
            lemma_not_before_transitive(a.path@, c.path@, b.path@);
        }
    }
}

/// The directories with the nodes that hiding a controller is about.
pub fn access_directories() -> (r: Vec<String>)
    ensures
        texts_of(r@) == seq!["/dev/input"@, "/dev"@],
{
    let directories = strings(&["/dev/input", "/dev"]);
    assert(texts_of(directories@) =~= seq!["/dev/input"@, "/dev"@]);
    directories
}

/// Whether access to the entry `name` of the directory `dir` is a matter of hiding a controller:
/// event nodes among the input devices, raw HID nodes among all devices.
pub open spec fn is_access_node(dir: Seq<char>, name: Seq<char>) -> bool {
    ||| dir == "/dev/input"@ && "event"@.is_prefix_of(name)
    ||| dir == "/dev"@ && is_hidraw(name)
}

/// Whether access to the entry `name` of the directory `dir` is a matter of hiding a controller.
pub fn access_node_wanted(dir: &str, name: &str) -> (r: bool)
    ensures
        r == is_access_node(dir@, name@),
{
    (same_text(dir, "/dev/input") && starts_with(name, "event")) || (same_text(dir, "/dev")
        && is_hidraw_name(name))
}

impl DeviceNode {
    /// It is a node of the USB device `vid:pid` that hiding a controller is about.
    pub open spec fn is_access_node_of(self, dir: Seq<char>, vid: Seq<char>, pid: Seq<char>) -> bool {
        is_access_node(dir, self.name@) && known_as(text_of(self.props), vid, pid)
    }

    /// Whether it is a node of the USB device `vid:pid` that hiding a controller is about.
    pub fn gives_access(&self, dir: &str, vid: &str, pid: &str) -> (r: bool)
        ensures
            r == self.is_access_node_of(dir@, vid@, pid@),
    {
        access_node_wanted(dir, self.name.as_str()) && node_matches(self, vid, pid)
    }
}

/// The number in the name of a sound card: the digits behind `card`.
pub open spec fn card_number(name: Seq<char>) -> Option<Seq<char>> {
    if "card"@.is_prefix_of(name) && name.len() > "card"@.len() && all_digits(
        name.skip("card"@.len() as int),
    ) {
        Some(name.skip("card"@.len() as int))
    } else {
        None
    }
}

/// The number in the name of a sound card.
pub fn sound_card_number(name: &str) -> (r: Option<String>)
    ensures
        text_of(r) == card_number(name@),
{
    match behind_prefix(name, "card") {
        Some(card) => {
            assert(name@.skip("card"@.len() as int) =~= card@);
            if card.as_str().is_empty() || !is_all_digits(card.as_str()) {
                None
            } else {
                Some(card)
            }
        },
        None => None,
    }
}

/// Whether every character of `s` is a decimal digit.
fn is_all_digits(s: &str) -> (r: bool)
    ensures
        r == all_digits(s@),
{
    let chars = chars_of(s);
    let mut i: usize = 0;
    while i < chars.len()
        invariant
            i <= chars.len(),
            chars@ == s@,
            forall|j: int| 0 <= j < i ==> is_digit(#[trigger] s@[j]),
        decreases chars.len() - i,
    {
        let c = chars[i];
        if !('0' <= c && c <= '9') {
            assert(!is_digit(s@[i as int]));
            return false;
        }
        i = i + 1;
    }
    true
}

/// The number of the sound card of the USB device `vid:pid` that `node` is.
pub open spec fn card_of(node: DeviceNode, vid: Seq<char>, pid: Seq<char>) -> Option<Seq<char>> {
    if known_as(text_of(node.props), vid, pid) {
        card_number(node.name@)
    } else {
        None
    }
}

/// The numbers of the sound cards of the USB device `vid:pid` among `nodes`, in their order.
pub open spec fn cards_of(nodes: Seq<DeviceNode>, vid: Seq<char>, pid: Seq<char>) -> Seq<Seq<char>>
    decreases nodes.len(),
{
    if nodes.len() == 0 {
        Seq::empty()
    } else {
        let head = cards_of(nodes.drop_last(), vid, pid);
        match card_of(nodes.last(), vid, pid) {
            Some(card) => head.push(card),
            None => head,
        }
    }
}

/// The numbers of the sound cards of the USB device `vid:pid` among `nodes`, sorted as texts.
pub fn sound_cards_for_vid_pid(nodes: &Vec<DeviceNode>, vid: &str, pid: &str) -> (r: Vec<String>)
    ensures
        are_sorted_texts(cards_of(nodes@, vid@, pid@), r@),
{
    let mut cards: Vec<String> = Vec::new();
    let mut i: usize = 0;
    assert(texts_of(cards@) =~= cards_of(nodes@.take(0), vid@, pid@));
    while i < nodes.len()
        invariant
            i <= nodes.len(),
            texts_of(cards@) == cards_of(nodes@.take(i as int), vid@, pid@),
        decreases nodes.len() - i,
    {
        let ghost cards0 = cards@;
        if let Some(card) = sound_card_number(nodes[i].name.as_str()) {
            if node_matches(&nodes[i], vid, pid) {
                cards.push(card);
                assert(texts_of(cards@) =~= texts_of(cards0).push(card@));
            }
        }
        assert(nodes@.take(i + 1).drop_last() =~= nodes@.take(i as int));
        i = i + 1;
    }
    assert(nodes@.take(nodes@.len() as int) =~= nodes@);
    sort_texts(cards)
}

/// `name` is a control or stream node of the sound card number `card`.
pub open spec fn is_node_of_card(name: Seq<char>, card: Seq<char>) -> bool {
    ||| name == "controlC"@ + card
    ||| ("pcmC"@ + card + "D"@).is_prefix_of(name)
}

/// `name` is a control or stream node of one of the sound cards `cards`.
pub open spec fn is_node_of_cards(name: Seq<char>, cards: Seq<Seq<char>>) -> bool {
    exists|i: int| 0 <= i < cards.len() && is_node_of_card(name, #[trigger] cards[i])
}

/// Whether `name` is a control or stream node of one of the sound cards `cards`.
pub fn is_sound_node(name: &str, cards: &Vec<String>) -> (r: bool)
    ensures
        r == is_node_of_cards(name@, texts_of(cards@)),
{
    let mut i: usize = 0;
    while i < cards.len()
        invariant
            i <= cards.len(),
            forall|j: int|
                0 <= j < i ==> !is_node_of_card(name@, #[trigger] texts_of(cards@)[j]),
        decreases cards.len() - i,
    {
        let mut control = "controlC".to_owned();
        control.append(cards[i].as_str());
        let mut stream = "pcmC".to_owned();
        stream.append(cards[i].as_str());
        stream.append("D");
        if same_text(name, control.as_str()) || starts_with(name, stream.as_str()) {
            assert(is_node_of_card(name@, texts_of(cards@)[i as int]));
            return true;
        }
        i = i + 1;
    }
    false
}

/// The paths of those `nodes` that are control or stream nodes of the sound cards `cards`, in
/// their order.
pub open spec fn sound_paths(nodes: Seq<DeviceNode>, cards: Seq<Seq<char>>) -> Seq<Seq<char>>
    decreases nodes.len(),
{
    if nodes.len() == 0 {
        Seq::empty()
    } else if is_node_of_cards(nodes.last().name@, cards) {
        sound_paths(nodes.drop_last(), cards).push(nodes.last().path@)
    } else {
        sound_paths(nodes.drop_last(), cards)
    }
}

/// The paths of those `nodes` that are control or stream nodes of the sound cards `cards`,
/// sorted.
pub fn sound_device_nodes(nodes: &Vec<DeviceNode>, cards: &Vec<String>) -> (r: Vec<String>)
    ensures
        are_sorted_texts(sound_paths(nodes@, texts_of(cards@)), r@),
{
    let mut paths: Vec<String> = Vec::new();
    let mut i: usize = 0;
    assert(texts_of(paths@) =~= sound_paths(nodes@.take(0), texts_of(cards@)));
    while i < nodes.len()
        invariant
            i <= nodes.len(),
            texts_of(paths@) == sound_paths(nodes@.take(i as int), texts_of(cards@)),
        decreases nodes.len() - i,
    {
        let ghost paths0 = paths@;
        if is_sound_node(nodes[i].name.as_str(), cards) {
            paths.push(nodes[i].path.clone());
            assert(texts_of(paths@) =~= texts_of(paths0).push(nodes@[i as int].path@));
        }
        assert(nodes@.take(i + 1).drop_last() =~= nodes@.take(i as int));
        i = i + 1;
    }
    assert(nodes@.take(nodes@.len() as int) =~= nodes@);
    sort_texts(paths)
}

/// Without sound cards there are no sound nodes.
pub proof fn sound_nodes_need_cards(nodes: Seq<DeviceNode>)
    ensures
        sound_paths(nodes, Seq::empty()) == Seq::<Seq<char>>::empty(),
    decreases nodes.len(),
{
    if nodes.len() > 0 {
        sound_nodes_need_cards(nodes.drop_last());
    }
}

/// The name of the USB device of the interface `name`: what stands in front of the first colon.
pub fn usb_device_name(name: &str) -> (r: Option<String>)
    ensures
        r is Some <==> name@.contains(':'),
        r matches Some(device) ==> device@ == name@.take(index_from(name@, ':', 0)),
{
    before_first(name, ':')
}

impl UsbInterface {
    /// It is an audio interface of the USB device `vid:pid`.
    pub open spec fn is_audio_of(self, vid: Seq<char>, pid: Seq<char>) -> bool {
        &&& self.name@.contains(':')
        &&& trimmed_optional(text_of(self.interface_class)) == Some("01"@)
        &&& trimmed_optional(text_of(self.id_vendor)) == Some(vid)
        &&& trimmed_optional(text_of(self.id_product)) == Some(pid)
    }

    /// Whether it is an audio interface of the USB device `vid:pid`.
    pub fn is_audio_interface(&self, vid: &str, pid: &str) -> (r: bool)
        ensures
            r == self.is_audio_of(vid@, pid@),
    {
        usb_device_name(self.name.as_str()).is_some() && is_text(
            &trim_optional(&self.interface_class),
            "01",
        ) && is_text(&trim_optional(&self.id_vendor), vid) && is_text(
            &trim_optional(&self.id_product),
            pid,
        )
    }
}

/// The paths of the audio interfaces of the USB device `vid:pid` among `interfaces`, in their
/// order.
pub open spec fn audio_paths(
    interfaces: Seq<UsbInterface>,
    vid: Seq<char>,
    pid: Seq<char>,
) -> Seq<Seq<char>>
    decreases interfaces.len(),
{
    if interfaces.len() == 0 {
        Seq::empty()
    } else if interfaces.last().is_audio_of(vid, pid) {
        audio_paths(interfaces.drop_last(), vid, pid).push(interfaces.last().path@)
    } else {
        audio_paths(interfaces.drop_last(), vid, pid)
    }
}

/// The paths of the audio interfaces of the USB device `vid:pid` among `interfaces`, sorted.
pub fn usb_audio_interface_paths_for_vid_pid(
    interfaces: &Vec<UsbInterface>,
    vid: &str,
    pid: &str,
) -> (r: Vec<String>)
    ensures
        are_sorted_texts(audio_paths(interfaces@, vid@, pid@), r@),
{
    let mut paths: Vec<String> = Vec::new();
    let mut i: usize = 0;
    assert(texts_of(paths@) =~= audio_paths(interfaces@.take(0), vid@, pid@));
    while i < interfaces.len()
        invariant
            i <= interfaces.len(),
            texts_of(paths@) == audio_paths(interfaces@.take(i as int), vid@, pid@),
        decreases interfaces.len() - i,
    {
        let ghost paths0 = paths@;
        if interfaces[i].is_audio_interface(vid, pid) {
            paths.push(interfaces[i].path.clone());
            assert(texts_of(paths@) =~= texts_of(paths0).push(interfaces@[i as int].path@));
        }
        assert(interfaces@.take(i + 1).drop_last() =~= interfaces@.take(i as int));
        i = i + 1;
    }
    assert(interfaces@.take(interfaces@.len() as int) =~= interfaces@);
    sort_texts(paths)
}

} // verus!
