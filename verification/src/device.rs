//! Controllers: which of the input devices are some, and which one is used.
use vstd::prelude::*;

use crate::input::{gamepad_button_codes, has_axis, has_key, ABS_X, ABS_Y};
#[allow(unused_imports)]
use crate::input::{axis_codes, gamepad_buttons, key_codes};
use crate::number::hexadecimal_text;
#[allow(unused_imports)]
use crate::number::hexadecimal;
use crate::order::{sort_by_key, Keyed};
#[allow(unused_imports)]
use crate::order::{is_sorted, with_key};
use crate::profile::{
    Profile, DUALSENSE_PID, DUALSENSE_VID, VIRTUAL_LEGACY_NAME, VIRTUAL_XBOX360_NAME,
    VIRTUAL_XBOX360_PID, VIRTUAL_XBOX360_VID,
};
use crate::text::{is_text, same_text};
#[allow(unused_imports)]
use crate::text::{str_text_of, text_of};

verus! {

/// An input device that is a controller.
#[derive(Debug, PartialEq)]
pub struct InputDeviceInfo {
    /// Its device node.
    pub path: String,
    /// Its name.
    pub name: String,
    /// Its USB vendor, as four hexadecimal digits.
    pub vendor_id: Option<String>,
    /// Its USB product, as four hexadecimal digits.
    pub product_id: Option<String>,
    /// Whether it is the one in use.
    pub is_selected: bool,
    /// Whether it is a virtual controller of this program.
    pub is_virtual: bool,
}

/// An input device as its texts and flags.
#[verifier::ext_equal]
pub struct DeviceView {
    /// See [`InputDeviceInfo`].
    pub path: Seq<char>,
    /// See [`InputDeviceInfo`].
    pub name: Seq<char>,
    /// See [`InputDeviceInfo`].
    pub vendor_id: Option<Seq<char>>,
    /// See [`InputDeviceInfo`].
    pub product_id: Option<Seq<char>>,
    /// See [`InputDeviceInfo`].
    pub is_selected: bool,
    /// See [`InputDeviceInfo`].
    pub is_virtual: bool,
}

impl View for InputDeviceInfo {
    type V = DeviceView;

    open spec fn view(&self) -> DeviceView {
        DeviceView {
            path: self.path@,
            name: self.name@,
            vendor_id: text_of(self.vendor_id),
            product_id: text_of(self.product_id),
            is_selected: self.is_selected,
            is_virtual: self.is_virtual,
        }
    }
}

impl Clone for InputDeviceInfo {
    fn clone(&self) -> (r: InputDeviceInfo)
        ensures
            r == *self,
    {
        InputDeviceInfo {
            path: self.path.clone(),
            name: self.name.clone(),
            vendor_id: self.vendor_id.clone(),
            product_id: self.product_id.clone(),
            is_selected: self.is_selected,
            is_virtual: self.is_virtual,
        }
    }
}

impl Default for InputDeviceInfo {
    fn default() -> (r: InputDeviceInfo)
        ensures
            r.path@ == Seq::<char>::empty(),
            r.name@ == Seq::<char>::empty(),
            r.vendor_id is None,
            r.product_id is None,
            !r.is_selected,
            !r.is_virtual,
    {
        InputDeviceInfo {
            path: String::new(),
            name: String::new(),
            vendor_id: None,
            product_id: None,
            is_selected: false,
            is_virtual: false,
        }
    }
}

impl Keyed for InputDeviceInfo {
    open spec fn key(self) -> Seq<char> {
        self.path@
    }

    fn key_text(&self) -> (r: &str) {
        self.path.as_str()
    }
}

/// The views of a list of devices.
pub open spec fn device_views(devices: Seq<InputDeviceInfo>) -> Seq<DeviceView> {
    devices.map_values(|d: InputDeviceInfo| d@)
}

/// The first device for which `wanted` holds.
pub open spec fn first_device(
    devices: Seq<InputDeviceInfo>,
    wanted: spec_fn(InputDeviceInfo) -> bool,
) -> Option<InputDeviceInfo>
    decreases devices.len(),
{
    if devices.len() == 0 {
        None
    } else if wanted(devices[0]) {
        Some(devices[0])
    } else {
        first_device(devices.drop_first(), wanted)
    }
}

/// Being the device at `path`.
pub open spec fn is_at(path: Option<Seq<char>>) -> spec_fn(InputDeviceInfo) -> bool {
    |d: InputDeviceInfo| path == Some(d.path@)
}

/// Being a DualSense controller.
pub open spec fn is_dualsense() -> spec_fn(InputDeviceInfo) -> bool {
    |d: InputDeviceInfo|
        text_of(d.vendor_id) == Some(DUALSENSE_VID@) && text_of(d.product_id) == Some(
            DUALSENSE_PID@,
        )
}

/// Being no virtual controller of this program.
pub open spec fn is_physical() -> spec_fn(InputDeviceInfo) -> bool {
    |d: InputDeviceInfo| !d.is_virtual
}

/// The device that a user who chose `path` gets: the one at `path`; if there is none, the first
/// DualSense controller; if there is none, the first that is not virtual.
pub open spec fn selected_device(
    path: Option<Seq<char>>,
    devices: Seq<InputDeviceInfo>,
) -> Option<InputDeviceInfo> {
    match first_device(devices, is_at(path)) {
        Some(d) => Some(d),
        None => match first_device(devices, is_dualsense()) {
            Some(d) => Some(d),
            None => first_device(devices, is_physical()),
        },
    }
}

/// The device that `profile` selects.
pub fn selected_device_for_profile(
    profile: &Profile,
    devices: &[InputDeviceInfo],
) -> (r: Option<InputDeviceInfo>)
    ensures
        r == selected_device(text_of(profile.selected_device_path), devices@),
{
    let ghost path = text_of(profile.selected_device_path);
    let mut i: usize = 0;
    while i < devices.len()
        invariant
            i <= devices@.len(),
            path == text_of(profile.selected_device_path),
            forall|j: int| 0 <= j < i ==> !is_at(path)(#[trigger] devices@[j]),
        decreases devices@.len() - i,
    {
        if is_text(&profile.selected_device_path, devices[i].path.as_str()) {
            proof {
                assert(is_at(path)(devices@[i as int]));
                lemma_first_device(devices@, is_at(path), i as int);
            }
            return Some(devices[i].clone());
        }
        i = i + 1;
    }
    proof {
        lemma_no_first_device(devices@, is_at(path));
    }
    let mut i: usize = 0;
    while i < devices.len()
        invariant
            i <= devices@.len(),
            path == text_of(profile.selected_device_path),
            first_device(devices@, is_at(path)) is None,
            forall|j: int| 0 <= j < i ==> !is_dualsense()(#[trigger] devices@[j]),
        decreases devices@.len() - i,
    {
        if is_text(&devices[i].vendor_id, DUALSENSE_VID) && is_text(
            &devices[i].product_id,
            DUALSENSE_PID,
        ) {
            proof {
                assert(is_dualsense()(devices@[i as int]));
                lemma_first_device(devices@, is_dualsense(), i as int);
            }
            return Some(devices[i].clone());
        }
        i = i + 1;
    }
    proof {
        lemma_no_first_device(devices@, is_dualsense());
    }
    let mut i: usize = 0;
    while i < devices.len()
        invariant
            i <= devices@.len(),
            path == text_of(profile.selected_device_path),
            first_device(devices@, is_at(path)) is None,
            first_device(devices@, is_dualsense()) is None,
            forall|j: int| 0 <= j < i ==> !is_physical()(#[trigger] devices@[j]),
        decreases devices@.len() - i,
    {
        if !devices[i].is_virtual {
            proof {
                assert(is_physical()(devices@[i as int]));
                lemma_first_device(devices@, is_physical(), i as int);
            }
            return Some(devices[i].clone());
        }
        i = i + 1;
    }
    proof {
        lemma_no_first_device(devices@, is_physical());
    }
    None
}

/// The first device for which `wanted` holds is the one that no such device precedes.
proof fn lemma_first_device(
    devices: Seq<InputDeviceInfo>,
    wanted: spec_fn(InputDeviceInfo) -> bool,
    at: int,
)
    requires
        0 <= at < devices.len(),
        wanted(devices[at]),
        forall|j: int| 0 <= j < at ==> !wanted(#[trigger] devices[j]),
    ensures
        first_device(devices, wanted) == Some(devices[at]),
    decreases devices.len(),
{
    if at > 0 {
        assert(!wanted(devices[0]));
        let rest = devices.drop_first();
        assert forall|j: int| 0 <= j < at - 1 implies !wanted(#[trigger] rest[j]) by {
            assert(rest[j] == devices[j + 1]);
        }
        lemma_first_device(rest, wanted, at - 1);
    }
}

/// Where `wanted` holds for no device there is no first.
proof fn lemma_no_first_device(
    devices: Seq<InputDeviceInfo>,
    wanted: spec_fn(InputDeviceInfo) -> bool,
)
    requires
        forall|j: int| 0 <= j < devices.len() ==> !wanted(#[trigger] devices[j]),
    ensures
        first_device(devices, wanted) is None,
    decreases devices.len(),
{
    if devices.len() > 0 {
        assert(!wanted(devices[0]));
        let rest = devices.drop_first();
        assert forall|j: int| 0 <= j < rest.len() implies !wanted(#[trigger] rest[j]) by {
            assert(rest[j] == devices[j + 1]);
        }
        lemma_no_first_device(rest, wanted);
    }
}

/// A first device is one of the devices, and `wanted` holds for it; without one, `wanted` holds
/// for no device.
pub proof fn lemma_first_device_found(
    devices: Seq<InputDeviceInfo>,
    wanted: spec_fn(InputDeviceInfo) -> bool,
)
    ensures
        first_device(devices, wanted) matches Some(d) ==> devices.contains(d) && wanted(d),
        first_device(devices, wanted) is None ==> forall|j: int|
            0 <= j < devices.len() ==> !wanted(#[trigger] devices[j]),
    decreases devices.len(),
{
    if devices.len() > 0 && !wanted(devices[0]) {
        let rest = devices.drop_first();
        lemma_first_device_found(rest, wanted);
        if let Some(d) = first_device(rest, wanted) {
            let i = choose|i: int| 0 <= i < rest.len() && rest[i] == d;
            assert(devices[i + 1] == d);
        } else {
            assert forall|j: int| 0 <= j < devices.len() implies !wanted(#[trigger] devices[j]) by {
                if j > 0 {
                    assert(rest[j - 1] == devices[j]);
                }
            }
        }
    } else if devices.len() > 0 {
        assert(devices[0] == first_device(devices, wanted)->0);
    }
}

/// `device`, marked as selected or not.
pub open spec fn marked(device: InputDeviceInfo, selected: Option<Seq<char>>) -> InputDeviceInfo {
    match selected {
        Some(path) => InputDeviceInfo { is_selected: device.path@ == path, ..device },
        None => device,
    }
}

/// Marks the devices at the path `selected`, and those only; without a path, nothing changes.
pub fn mark_selected(
    devices: Vec<InputDeviceInfo>,
    selected: Option<&str>,
) -> (r: Vec<InputDeviceInfo>)
    ensures
        r@ == devices@.map_values(|d: InputDeviceInfo| marked(d, str_text_of(selected))),
{
    let mut rest = devices;
    let mut i: usize = 0;
    if let Some(path) = selected {
        while i < rest.len()
            invariant
                i <= rest.len() == devices.len(),
                str_text_of(selected) == Some(path@),
                forall|j: int|
                    0 <= j < i ==> #[trigger] rest@[j] == marked(
                        devices@[j],
                        str_text_of(selected),
                    ),
                forall|j: int| i <= j < rest.len() ==> #[trigger] rest@[j] == devices@[j],
            decreases rest.len() - i,
        {
            let is_selected = same_text(rest[i].path.as_str(), path);
            let mut device = rest[i].clone();
            device.is_selected = is_selected;
            rest.set(i, device);
            i = i + 1;
        }
    }
    assert(rest@ =~= devices@.map_values(|d: InputDeviceInfo| marked(d, str_text_of(selected))));
    rest
}

/// What an input device tells about itself.
pub struct ControllerProbe<'a> {
    /// Its device node.
    pub path: String,
    /// Its name, where it has one.
    pub name: Option<String>,
    /// The absolute axes that it supports, where it supports any.
    pub axes: Option<&'a evdev::AttributeSetRef<evdev::AbsoluteAxisCode>>,
    /// The keys that it supports, where it supports any.
    pub keys: Option<&'a evdev::AttributeSetRef<evdev::KeyCode>>,
    /// Its vendor.
    pub vendor: u16,
    /// Its product.
    pub product: u16,
}

impl<'a> ControllerProbe<'a> {
    /// It is a controller: it has the axes of a stick and some button of a game pad.
    pub open spec fn is_controller(self) -> bool {
        &&& self.axes matches Some(axes) && axis_codes(axes).contains(ABS_X) && axis_codes(
            axes,
        ).contains(ABS_Y)
        &&& self.keys matches Some(keys) && has_gamepad_button(key_codes(keys))
    }

    /// The name by which it is known.
    pub open spec fn known_name(self) -> Seq<char> {
        match self.name {
            Some(name) => name@,
            None => "Unknown controller"@,
        }
    }

    /// It is a virtual controller of this program.
    pub open spec fn looks_virtual(self) -> bool {
        ||| self.known_name() == VIRTUAL_LEGACY_NAME@
        ||| self.known_name() == VIRTUAL_XBOX360_NAME@
        ||| self.vendor == VIRTUAL_XBOX360_VID && self.product == VIRTUAL_XBOX360_PID
    }

    /// What is kept of it.
    pub open spec fn described(self) -> DeviceView {
        DeviceView {
            path: self.path@,
            name: self.known_name(),
            vendor_id: Some(hexadecimal(self.vendor)),
            product_id: Some(hexadecimal(self.product)),
            is_selected: false,
            is_virtual: self.looks_virtual(),
        }
    }

    /// The device as it is listed, where it is a controller.
    pub fn describe(&self) -> (r: Option<InputDeviceInfo>)
        ensures
            r is Some <==> self.is_controller(),
            r matches Some(d) ==> d@ == self.described(),
    {
        match (self.axes, self.keys) {
            (Some(axes), Some(keys)) => {
                if !(has_axis(axes, ABS_X) && has_axis(axes, ABS_Y)) {
                    return None;
                }
                if !supports_gamepad_button(keys) {
                    return None;
                }
            },
            _ => {
                return None;
            },
        }
        let name = match &self.name {
            Some(name) => name.clone(),
            None => "Unknown controller".to_owned(),
        };
        let is_virtual = same_text(name.as_str(), VIRTUAL_LEGACY_NAME) || same_text(
            name.as_str(),
            VIRTUAL_XBOX360_NAME,
        ) || (self.vendor == VIRTUAL_XBOX360_VID && self.product == VIRTUAL_XBOX360_PID);
        Some(
            InputDeviceInfo {
                path: self.path.clone(),
                name,
                vendor_id: Some(hexadecimal_text(self.vendor)),
                product_id: Some(hexadecimal_text(self.product)),
                is_selected: false,
                is_virtual,
            },
        )
    }
}

/// Some button of a game pad is among `codes`.
pub open spec fn has_gamepad_button(codes: Set<u16>) -> bool {
    exists|i: int| 0 <= i < gamepad_buttons().len() && codes.contains(#[trigger] gamepad_buttons()[i])
}

/// Whether some button of a game pad is among `keys`.
fn supports_gamepad_button(keys: &evdev::AttributeSetRef<evdev::KeyCode>) -> (r: bool)
    ensures
        r == has_gamepad_button(key_codes(keys)),
{
    let buttons = gamepad_button_codes();
    let mut i: usize = 0;
    while i < buttons.len()
        invariant
            i <= buttons.len(),
            buttons@ == gamepad_buttons(),
            forall|j: int| 0 <= j < i ==> !key_codes(keys).contains(#[trigger] gamepad_buttons()[j]),
        decreases buttons.len() - i,
    {
        if has_key(keys, buttons[i]) {
            assert(key_codes(keys).contains(gamepad_buttons()[i as int]));
            return true;
        }
        i = i + 1;
    }
    false
}

/// The controllers among `probes`, in their order.
pub open spec fn controllers(probes: Seq<ControllerProbe>) -> Seq<DeviceView> {
    probes.filter(|p: ControllerProbe| p.is_controller()).map_values(
        |p: ControllerProbe| p.described(),
    )
}

/// Being at `path`.
pub open spec fn views_at(path: Seq<char>) -> spec_fn(DeviceView) -> bool {
    |d: DeviceView| d.path == path
}

/// The controllers among `probes`, sorted by their paths. Those at one path, if there should be
/// several, keep their order.
pub fn enumerate_controllers(probes: &Vec<ControllerProbe>) -> (r: Vec<InputDeviceInfo>)
    ensures
        is_sorted(r@),
        forall|path: Seq<char>| #[trigger]
            device_views(r@).filter(views_at(path)) == controllers(probes@).filter(views_at(path)),
{
    let mut found: Vec<InputDeviceInfo> = Vec::new();
    let mut i: usize = 0;
    proof {
        reveal(Seq::filter);
        assert(device_views(found@) =~= controllers(probes@.take(0)));
    }
    while i < probes.len()
        invariant
            i <= probes.len(),
            device_views(found@) == controllers(probes@.take(i as int)),
        decreases probes.len() - i,
    {
        let ghost found0 = found@;
        if let Some(device) = probes[i].describe() {
            found.push(device);
        }
        proof {
            let head = probes@.take(i as int);
            let probe = probes@[i as int];
            assert(probes@.take(i + 1) =~= head.push(probe));
            lemma_controllers_push(head, probe);
            if probe.is_controller() {
                assert(device_views(found@) =~= device_views(found0).push(probe.described()));
            }
        }
        i = i + 1;
    }
    assert(probes@.take(probes@.len() as int) =~= probes@);
    let ghost all = found@;
    let sorted = sort_by_key(found);
    proof {
        assert forall|path: Seq<char>| #[trigger]
            device_views(sorted@).filter(views_at(path)) == controllers(probes@).filter(
            views_at(path),
        ) by {
            lemma_views_with_key(sorted@, path);
            lemma_views_with_key(all, path);
            assert(with_key(sorted@, path) == with_key(all, path));
        }
    }
    sorted
}

/// What one more probe does to the controllers.
proof fn lemma_controllers_push(probes: Seq<ControllerProbe>, probe: ControllerProbe)
    ensures
        controllers(probes.push(probe)) == if probe.is_controller() {
            controllers(probes).push(probe.described())
        } else {
            controllers(probes)
        },
{
    reveal(Seq::filter);
    assert(probes.push(probe).drop_last() =~= probes);
    if probe.is_controller() {
        assert(controllers(probes.push(probe)) =~= controllers(probes).push(probe.described()));
    }
}

/// The devices with a path are those whose view has it.
proof fn lemma_views_with_key(devices: Seq<InputDeviceInfo>, path: Seq<char>)
    ensures
        device_views(devices).filter(views_at(path)) == device_views(with_key(devices, path)),
    decreases devices.len(),
{
    reveal(Seq::filter);
    if devices.len() > 0 {
        lemma_views_with_key(devices.drop_last(), path);
        assert(device_views(devices).drop_last() =~= device_views(devices.drop_last()));
        assert(device_views(devices).filter(views_at(path)) =~= device_views(
            with_key(devices, path),
        ));
    } else {
        assert(device_views(devices).filter(views_at(path)) =~= device_views(
            with_key(devices, path),
        ));
    }
}

/// A selected device is one of the devices. The device at the path that the user chose wins; a
/// virtual controller is selected only if the user chose it or it passes for a DualSense
/// controller; and no device is selected only if all are virtual.
pub proof fn selection_prefers_the_choice(path: Option<Seq<char>>, devices: Seq<InputDeviceInfo>)
    ensures
        selected_device(path, devices) matches Some(d) ==> devices.contains(d),
        (exists|i: int| 0 <= i < devices.len() && path == Some((#[trigger] devices[i]).path@)) ==> (
        selected_device(path, devices) matches Some(d) && path == Some(d.path@)),
        selected_device(path, devices) matches Some(d) ==> !d.is_virtual || path == Some(d.path@)
            || is_dualsense()(d),
        selected_device(path, devices) is None ==> forall|i: int|
            0 <= i < devices.len() ==> (#[trigger] devices[i]).is_virtual,
{
    lemma_first_device_found(devices, is_at(path));
    lemma_first_device_found(devices, is_dualsense());
    lemma_first_device_found(devices, is_physical());
    if exists|i: int| 0 <= i < devices.len() && path == Some((#[trigger] devices[i]).path@) {
        let i = choose|i: int| 0 <= i < devices.len() && path == Some((#[trigger] devices[i]).path@);
        assert(is_at(path)(devices[i]));
    }
    if selected_device(path, devices) is None {
        assert forall|i: int| 0 <= i < devices.len() implies (#[trigger] devices[i]).is_virtual by {
            assert(!is_physical()(devices[i]));
        }
    }
}

/// Marking the selected device leaves every device what it is, and selects the same device
/// again.
pub proof fn marking_keeps_the_selection(path: Option<Seq<char>>, devices: Seq<InputDeviceInfo>)
    ensures
        ({
            let selected = selected_device(path, devices);
            let shown = match selected {
                Some(d) => Some(d.path@),
                None => None,
            };
            let after = devices.map_values(|d: InputDeviceInfo| marked(d, shown));
            &&& selected matches Some(d) ==> selected_device(path, after) == Some(
                marked(d, shown),
            ) && marked(d, shown).is_selected
            &&& selected is None ==> after == devices
        }),
{
    let selected = selected_device(path, devices);
    let shown = match selected {
        Some(d) => Some(d.path@),
        None => None,
    };
    let after = devices.map_values(|d: InputDeviceInfo| marked(d, shown));
    lemma_marked_first(devices, shown, is_at(path));
    lemma_marked_first(devices, shown, is_dualsense());
    lemma_marked_first(devices, shown, is_physical());
    if selected is None {
        assert(after =~= devices);
    }
}

/// Marking moves no device to another place.
proof fn lemma_marked_first(
    devices: Seq<InputDeviceInfo>,
    shown: Option<Seq<char>>,
    wanted: spec_fn(InputDeviceInfo) -> bool,
)
    requires
        forall|d: InputDeviceInfo| #[trigger] wanted(marked(d, shown)) == wanted(d),
    ensures
        first_device(devices.map_values(|d: InputDeviceInfo| marked(d, shown)), wanted)
            == match first_device(devices, wanted) {
            Some(d) => Some(marked(d, shown)),
            None => None,
        },
    decreases devices.len(),
{
    let after = devices.map_values(|d: InputDeviceInfo| marked(d, shown));
    if devices.len() > 0 {
        assert(after[0] == marked(devices[0], shown));
        assert(after.drop_first() =~= devices.drop_first().map_values(
            |d: InputDeviceInfo| marked(d, shown),
        ));
        lemma_marked_first(devices.drop_first(), shown, wanted);
    }
}

} // verus!
