//! Input events: what the physical controller sends and what the virtual one offers.
use vstd::prelude::*;

use crate::profile::{VIRTUAL_XBOX360_NAME, VIRTUAL_XBOX360_PID, VIRTUAL_XBOX360_VID};

verus! {

/// The event type that ends or interrupts a report.
pub const EV_SYN: u16 = 0;

/// The event type of keys and buttons.
pub const EV_KEY: u16 = 1;

/// The event type of absolute axes.
pub const EV_ABS: u16 = 3;

/// The end of a report.
pub const SYN_REPORT: u16 = 0;

/// Events were lost.
pub const SYN_DROPPED: u16 = 3;

/// Left stick, to the right.
pub const ABS_X: u16 = 0;

/// Left stick, downwards.
pub const ABS_Y: u16 = 1;

/// Left trigger.
pub const ABS_Z: u16 = 2;

/// Right stick, to the right.
pub const ABS_RX: u16 = 3;

/// Right stick, downwards.
pub const ABS_RY: u16 = 4;

/// Right trigger.
pub const ABS_RZ: u16 = 5;

/// Directional pad, to the right.
pub const ABS_HAT0X: u16 = 16;

/// Directional pad, downwards.
pub const ABS_HAT0Y: u16 = 17;

/// The lower button of the right hand.
pub const BTN_SOUTH: u16 = 0x130;

/// The right button of the right hand.
pub const BTN_EAST: u16 = 0x131;

/// The upper button of the right hand.
pub const BTN_NORTH: u16 = 0x133;

/// The left button of the right hand.
pub const BTN_WEST: u16 = 0x134;

/// The left shoulder button.
pub const BTN_TL: u16 = 0x136;

/// The right shoulder button.
pub const BTN_TR: u16 = 0x137;

/// The left trigger as a button.
pub const BTN_TL2: u16 = 0x138;

/// The right trigger as a button.
pub const BTN_TR2: u16 = 0x139;

/// The select button.
pub const BTN_SELECT: u16 = 0x13a;

/// The start button.
pub const BTN_START: u16 = 0x13b;

/// The button in the middle.
pub const BTN_MODE: u16 = 0x13c;

/// The left stick as a button.
pub const BTN_THUMBL: u16 = 0x13d;

/// The right stick as a button.
pub const BTN_THUMBR: u16 = 0x13e;

/// The smallest value of a stick axis of the virtual controller.
pub const STICK_MINIMUM: i32 = -32768;

/// The largest value of a stick axis of the virtual controller.
pub const STICK_MAXIMUM: i32 = 32767;

/// The largest value of a trigger.
pub const TRIGGER_MAXIMUM: i32 = 255;

/// The smallest value of a directional pad axis.
pub const HAT_MINIMUM: i32 = -1;

/// The largest value of a directional pad axis.
pub const HAT_MAXIMUM: i32 = 1;

/// The bus of USB devices.
pub const BUS_USB: u16 = 0x03;

/// The number of key codes that a key set has room for.
pub const KEY_COUNT: u16 = 0x300;

/// The buttons of a game pad.
pub open spec fn gamepad_buttons() -> Seq<u16> {
    seq![
        BTN_SOUTH,
        BTN_EAST,
        BTN_NORTH,
        BTN_WEST,
        BTN_TL,
        BTN_TR,
        BTN_TL2,
        BTN_TR2,
        BTN_SELECT,
        BTN_START,
        BTN_MODE,
        BTN_THUMBL,
        BTN_THUMBR,
    ]
}

/// The buttons of a game pad.
pub fn gamepad_button_codes() -> (r: Vec<u16>)
    ensures
        r@ == gamepad_buttons(),
{
    vec![
        BTN_SOUTH,
        BTN_EAST,
        BTN_NORTH,
        BTN_WEST,
        BTN_TL,
        BTN_TR,
        BTN_TL2,
        BTN_TR2,
        BTN_SELECT,
        BTN_START,
        BTN_MODE,
        BTN_THUMBL,
        BTN_THUMBR,
    ]
}

/// Whether `key` is a button of a game pad.
pub fn is_gamepad_button(key: u16) -> (r: bool)
    ensures
        r == gamepad_buttons().contains(key),
{
    let buttons = gamepad_button_codes();
    let mut i: usize = 0;
    while i < buttons.len()
        invariant
            i <= buttons.len(),
            buttons@ == gamepad_buttons(),
            forall|j: int| 0 <= j < i ==> buttons@[j] != key,
        decreases buttons.len() - i,
    {
        if buttons[i] == key {
            assert(gamepad_buttons()[i as int] == key);
            return true;
        }
        i = i + 1;
    }
    false
}

/// The button that the virtual controller shows for `key`: the upper and the left button of the
/// right hand change places.
pub open spec fn xbox_key(key: u16) -> u16 {
    if key == BTN_NORTH {
        BTN_WEST
    } else if key == BTN_WEST {
        BTN_NORTH
    } else {
        key
    }
}

/// The button that the virtual controller shows for `key`.
pub fn output_key_for_xbox(key: u16) -> (r: u16)
    ensures
        r == xbox_key(key),
        key == BTN_NORTH ==> r == BTN_WEST,
        key == BTN_WEST ==> r == BTN_NORTH,
        key != BTN_NORTH && key != BTN_WEST ==> r == key,
{
    if key == BTN_NORTH {
        BTN_WEST
    } else if key == BTN_WEST {
        BTN_NORTH
    } else {
        key
    }
}

/// An event that is sent through the virtual controller.
#[derive(Debug, Clone, Copy, PartialEq, Eq, Structural)]
pub struct InputEvent {
    /// Its type.
    pub event_type: u16,
    /// What of that type it is about.
    pub code: u16,
    /// The new value.
    pub value: i32,
}

/// The event that moves `axis` to `value`.
pub fn abs_event(axis: u16, value: i32) -> (r: InputEvent)
    ensures
        r == (InputEvent { event_type: EV_ABS, code: axis, value }),
{
    InputEvent { event_type: EV_ABS, code: axis, value }
}

/// What an event is about.
#[derive(Debug, Clone, Copy, PartialEq, Eq, Structural)]
pub enum EventSummary {
    /// The end or the interruption of a report: which, and a value.
    Synchronization(u16, i32),
    /// A key and its state.
    Key(u16, i32),
    /// An absolute axis and its position.
    AbsoluteAxis(u16, i32),
    /// Anything else.
    Other,
}

/// What an event of type `event_type` is about.
pub open spec fn summary_of(event_type: u16, code: u16, value: i32) -> EventSummary {
    if event_type == EV_SYN {
        EventSummary::Synchronization(code, value)
    } else if event_type == EV_KEY {
        EventSummary::Key(code, value)
    } else if event_type == EV_ABS {
        EventSummary::AbsoluteAxis(code, value)
    } else {
        EventSummary::Other
    }
}

/// Trusted: `evdev::InputEvent::destructure`, on the event that `evdev::InputEvent::new` makes of
/// the three values. It tells events apart by their type alone: type 0 is a synchronization, type
/// 1 a key, type 3 an absolute axis, each with the code and the value of the event, and every
/// other type is none of these.
#[verifier::external_body]
pub(crate) fn destructure(event_type: u16, code: u16, value: i32) -> (r: EventSummary)
    ensures
        r == summary_of(event_type, code, value),
{
    match evdev::InputEvent::new(event_type, code, value).destructure() {
        evdev::EventSummary::Synchronization(_, code, value) => EventSummary::Synchronization(code.0, value),
        evdev::EventSummary::Key(_, code, value) => EventSummary::Key(code.0, value),
        evdev::EventSummary::AbsoluteAxis(_, code, value) => EventSummary::AbsoluteAxis(code.0, value),
        _ => EventSummary::Other,
    }
}

/// Trusted: the type `evdev::KeyCode`, a key code.
#[verifier::external_type_specification]
#[verifier::external_body]
pub struct ExKeyCode(evdev::KeyCode);

/// Trusted: the type `evdev::AbsoluteAxisCode`, the code of an absolute axis.
#[verifier::external_type_specification]
#[verifier::external_body]
pub struct ExAbsoluteAxisCode(evdev::AbsoluteAxisCode);

/// Trusted: the type `evdev::AttributeSetRef`, the set of codes that a device supports.
#[verifier::external_type_specification]
#[verifier::external_body]
#[verifier::reject_recursive_types(T)]
pub struct ExAttributeSetRef<T>(evdev::AttributeSetRef<T>);

/// The codes in a set of keys.
pub uninterp spec fn key_codes(keys: &evdev::AttributeSetRef<evdev::KeyCode>) -> Set<u16>;

/// The codes in a set of absolute axes.
pub uninterp spec fn axis_codes(axes: &evdev::AttributeSetRef<evdev::AbsoluteAxisCode>) -> Set<u16>;

/// Trusted: `evdev::AttributeSetRef::contains` on keys. It says whether the set holds the code.
#[verifier::external_body]
pub(crate) fn has_key(keys: &evdev::AttributeSetRef<evdev::KeyCode>, code: u16) -> (r: bool)
    ensures
        r == key_codes(keys).contains(code),
{
    keys.contains(evdev::KeyCode(code))
}

/// Trusted: `evdev::AttributeSetRef::contains` on absolute axes. It says whether the set holds
/// the code.
#[verifier::external_body]
pub(crate) fn has_axis(
    axes: &evdev::AttributeSetRef<evdev::AbsoluteAxisCode>,
    code: u16,
) -> (r: bool)
    ensures
        r == axis_codes(axes).contains(code),
{
    axes.contains(evdev::AbsoluteAxisCode(code))
}

/// Trusted: a set of keys of its own, `evdev::AttributeSet`. The trait that bounds the parameter of
/// that type is private to its crate, so the type stands in a field here.
#[verifier::external_body]
pub struct KeySet {
    keys: evdev::AttributeSet<evdev::KeyCode>,
}

/// The codes in a key set.
pub uninterp spec fn key_set_codes(keys: KeySet) -> Set<u16>;

impl KeySet {
    /// Trusted: `evdev::AttributeSet::new`. The new set is empty.
    #[verifier::external_body]
    fn new() -> (r: KeySet)
        ensures
            key_set_codes(r) == Set::<u16>::empty(),
    {
        KeySet { keys: evdev::AttributeSet::new() }
    }

    /// Trusted: `evdev::AttributeSetRef::insert`. It puts the code into the set. The set has room
    /// for the codes below `KEY_COUNT`.
    #[verifier::external_body]
    fn insert(&mut self, code: u16)
        requires
            code < KEY_COUNT,
        ensures
            key_set_codes(*final(self)) == key_set_codes(*old(self)).insert(code),
    {
        self.keys.insert(evdev::KeyCode(code));
    }

    /// Trusted: `evdev::AttributeSet::deref`. The set as a device description takes it holds the
    /// same codes.
    #[verifier::external_body]
    fn deref(&self) -> (r: &evdev::AttributeSetRef<evdev::KeyCode>)
        ensures
            key_codes(r) == key_set_codes(*self),
    {
        &self.keys
    }

    /// The set as a device description takes it.
    pub fn as_attributes(&self) -> (r: &evdev::AttributeSetRef<evdev::KeyCode>)
        ensures
            key_codes(r) == key_set_codes(*self),
    {
        self.deref()
    }
}

/// The keys of the virtual controller.
pub fn virtual_keys() -> (r: KeySet)
    ensures
        key_set_codes(r) == gamepad_buttons().to_set(),
{
    let buttons = gamepad_button_codes();
    let mut keys = KeySet::new();
    let mut i: usize = 0;
    assert(buttons@.take(0).to_set() =~= Set::<u16>::empty());
    while i < buttons.len()
        invariant
            i <= buttons.len(),
            buttons@ == gamepad_buttons(),
            key_set_codes(keys) == buttons@.take(i as int).to_set(),
        decreases buttons.len() - i,
    {
        keys.insert(buttons[i]);
        proof {
            let head = buttons@.take(i as int);
            assert(buttons@.take(i + 1) =~= head.push(buttons@[i as int]));
            assert(head.push(buttons@[i as int]).to_set() =~= head.to_set().insert(buttons@[i as int]))
                by {
                assert forall|c: u16| head.to_set().insert(buttons@[i as int]).contains(c) implies
                    head.push(buttons@[i as int]).to_set().contains(c) by {
                    if c == buttons@[i as int] {
                        assert(head.push(buttons@[i as int])[i as int] == c);
                    } else {
                        let j = choose|j: int| 0 <= j < head.len() && head[j] == c;
                        assert(head.push(buttons@[i as int])[j] == c);
                    }
                }
            }
        }
        i = i + 1;
    }
    assert(buttons@.take(buttons@.len() as int) =~= buttons@);
    keys
}

/// An axis of the virtual controller.
#[derive(Debug, Clone, Copy, PartialEq, Eq, Structural)]
pub struct AxisSetup {
    /// Its code.
    pub axis: u16,
    /// Its value at rest.
    pub value: i32,
    /// Its smallest value.
    pub minimum: i32,
    /// Its largest value.
    pub maximum: i32,
    /// The noise that is filtered out of it.
    pub fuzz: i32,
    /// The range around its rest that counts as rest.
    pub flat: i32,
    /// Its resolution.
    pub resolution: i32,
}

/// An axis with a range, which rests at zero and is neither filtered nor flat.
pub open spec fn plain_axis(axis: u16, minimum: i32, maximum: i32) -> AxisSetup {
    AxisSetup { axis, value: 0, minimum, maximum, fuzz: 0, flat: 0, resolution: 0 }
}

/// An axis with a range, which rests at zero and is neither filtered nor flat.
fn make_axis(axis: u16, minimum: i32, maximum: i32) -> (r: AxisSetup)
    ensures
        r == plain_axis(axis, minimum, maximum),
{
    AxisSetup { axis, value: 0, minimum, maximum, fuzz: 0, flat: 0, resolution: 0 }
}

/// The axes of the virtual controller: two sticks, two triggers, a directional pad.
pub open spec fn axis_setups() -> Seq<AxisSetup> {
    seq![
        plain_axis(ABS_X, STICK_MINIMUM, STICK_MAXIMUM),
        plain_axis(ABS_Y, STICK_MINIMUM, STICK_MAXIMUM),
        plain_axis(ABS_RX, STICK_MINIMUM, STICK_MAXIMUM),
        plain_axis(ABS_RY, STICK_MINIMUM, STICK_MAXIMUM),
        plain_axis(ABS_Z, 0, TRIGGER_MAXIMUM),
        plain_axis(ABS_RZ, 0, TRIGGER_MAXIMUM),
        plain_axis(ABS_HAT0X, HAT_MINIMUM, HAT_MAXIMUM),
        plain_axis(ABS_HAT0Y, HAT_MINIMUM, HAT_MAXIMUM),
    ]
}

/// What the virtual controller is.
pub struct VirtualDeviceSetup {
    /// The name that it shows.
    pub name: String,
    /// The bus that it shows.
    pub bus: u16,
    /// The USB vendor that it shows.
    pub vendor: u16,
    /// The USB product that it shows.
    pub product: u16,
    /// The version that it shows.
    pub version: u16,
    /// Its buttons.
    pub keys: KeySet,
    /// Its axes.
    pub axes: Vec<AxisSetup>,
}

/// What the virtual controller is: an Xbox 360 controller on USB with the buttons of a game pad.
/// All its axes rest at zero.
pub fn virtual_device_setup() -> (r: VirtualDeviceSetup)
    ensures
        r.name@ == VIRTUAL_XBOX360_NAME@,
        r.name@ == "DS4Linux Virtual Xbox 360 Controller"@,
        r.bus == 0x03,
        r.vendor == VIRTUAL_XBOX360_VID,
        r.vendor == 0x045e,
        r.product == VIRTUAL_XBOX360_PID,
        r.product == 0x028e,
        r.version == 0x0110,
        key_set_codes(r.keys) == gamepad_buttons().to_set(),
        r.axes@ == axis_setups(),
{
    let axes = vec![
        make_axis(ABS_X, STICK_MINIMUM, STICK_MAXIMUM),
        make_axis(ABS_Y, STICK_MINIMUM, STICK_MAXIMUM),
        make_axis(ABS_RX, STICK_MINIMUM, STICK_MAXIMUM),
        make_axis(ABS_RY, STICK_MINIMUM, STICK_MAXIMUM),
        make_axis(ABS_Z, 0, TRIGGER_MAXIMUM),
        make_axis(ABS_RZ, 0, TRIGGER_MAXIMUM),
        make_axis(ABS_HAT0X, HAT_MINIMUM, HAT_MAXIMUM),
        make_axis(ABS_HAT0Y, HAT_MINIMUM, HAT_MAXIMUM),
    ];
    VirtualDeviceSetup {
        name: VIRTUAL_XBOX360_NAME.to_owned(),
        bus: BUS_USB,
        vendor: VIRTUAL_XBOX360_VID,
        product: VIRTUAL_XBOX360_PID,
        version: 0x0110,
        keys: virtual_keys(),
        axes,
    }
}

/// The virtual controller can send `event`: a button that it has, or an axis that it has at a
/// value in the range of that axis.
pub open spec fn is_offered(event: InputEvent) -> bool {
    ||| event.event_type == EV_KEY && gamepad_buttons().contains(event.code)
    ||| event.event_type == EV_ABS && exists|i: int|
        0 <= i < axis_setups().len() && (#[trigger] axis_setups()[i]).axis == event.code
            && axis_setups()[i].minimum <= event.value <= axis_setups()[i].maximum
}

/// The change of places undoes itself.
pub proof fn changing_places_twice_is_nothing(key: u16)
    ensures
        xbox_key(xbox_key(key)) == key,
{
}

/// The virtual controller has every button that it is asked to show, and shows no button for
/// two.
pub proof fn shown_buttons_are_offered(key: u16, other: u16)
    ensures
        gamepad_buttons().contains(key) <==> gamepad_buttons().contains(xbox_key(key)),
        xbox_key(key) == xbox_key(other) ==> key == other,
{
    assert(gamepad_buttons()[2] == BTN_NORTH);
    assert(gamepad_buttons()[3] == BTN_WEST);
}

} // verus!
