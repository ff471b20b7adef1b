//! Counting the reports of a controller at its raw HID node, and what is told about polling.
use vstd::prelude::*;

#[allow(unused_imports)]
use crate::arithmetic::integer;
use crate::daemon::SharedState;
use crate::polling::{parse_usb_oc_binterval, usb_oc_persistent};
#[allow(unused_imports)]
use crate::polling::{file_has_line, file_has_text, set_binterval};
use crate::single::{high_speed_hz_from_binterval, high_speed_interval_ms_from_binterval, Single};
#[allow(unused_imports)]
use crate::single::{high_speed_hz, high_speed_interval_ms};
use crate::status::Metrics;
use crate::text::{same_optional, trim};
#[allow(unused_imports)]
use crate::text::{str_text_of, text_of, trimmed_optional};

verus! {

/// How long the meter works on without looking for its node, in milliseconds.
pub const PATH_CHECK_MS: u64 = 250;

/// How long the meter counts, in milliseconds.
pub const METER_TICK_MS: u64 = 1000;

/// How long the meter rests between two reads, in milliseconds.
pub const METER_REST_MS: u64 = 1;

/// Whether it is time to look for the node.
pub fn path_check_due(since_check_ms: u64) -> (r: bool)
    ensures
        r == (since_check_ms >= 250),
{
    since_check_ms >= PATH_CHECK_MS
}

/// Whether it is time to tell the reports a second.
pub fn meter_tick_due(since_tick_ms: u64) -> (r: bool)
    ensures
        r == (since_tick_ms >= 1000),
{
    since_tick_ms >= METER_TICK_MS
}

/// The bit by which the kernel says that there is something to read.
pub const POLLIN: i16 = 1;

/// What reading from the node gave.
#[derive(Debug, Clone, Copy, PartialEq, Eq, Structural)]
pub enum ReadResult {
    /// So many bytes.
    Bytes(usize),
    /// Nothing is there yet.
    WouldBlock,
    /// It failed.
    Failed,
}

/// What the draining of the node does next.
#[derive(Debug, Clone, Copy, PartialEq, Eq, Structural)]
pub enum DrainStep {
    /// It reads on.
    ReadOn,
    /// It is done.
    Done,
    /// It failed.
    Failed,
}

/// The read gave a report.
pub open spec fn gives_a_report(result: ReadResult) -> bool {
    result matches ReadResult::Bytes(n) && n > 0
}

/// The reports counted behind a read, where `count` were counted before, and what comes next. A
/// read that gives bytes gives one report.
pub open spec fn drained(count: int, result: ReadResult) -> (int, DrainStep) {
    match result {
        ReadResult::Bytes(n) => if n == 0 {
            (count, DrainStep::Done)
        } else {
            (count + 1, DrainStep::ReadOn)
        },
        ReadResult::WouldBlock => (count, DrainStep::Done),
        ReadResult::Failed => (count, DrainStep::Failed),
    }
}

/// Takes in what reading from the node gave.
pub fn drain_hidraw_reports(result: ReadResult, count: &mut u32) -> (step: DrainStep)
    requires
        gives_a_report(result) ==> *old(count) < u32::MAX,
    ensures
        (*final(count) as int, step) == drained(*old(count) as int, result),
{
    match result {
        ReadResult::Bytes(n) => {
            if n == 0 {
                DrainStep::Done
            } else {
                *count = *count + 1;
                DrainStep::ReadOn
            }
        },
        ReadResult::WouldBlock => DrainStep::Done,
        ReadResult::Failed => DrainStep::Failed,
    }
}

/// The reports counted behind one read after the other, up to the one that ends the draining, and
/// what comes next.
pub open spec fn drained_all(count: int, results: Seq<ReadResult>) -> (int, DrainStep)
    decreases results.len(),
{
    if results.len() == 0 {
        (count, DrainStep::ReadOn)
    } else {
        let (next, step) = drained(count, results[0]);
        if step == DrainStep::ReadOn {
            drained_all(next, results.drop_first())
        } else {
            (next, step)
        }
    }
}

/// Draining counts the reports in front of the read that ends it.
pub proof fn draining_counts_the_reports(count: int, results: Seq<ReadResult>, reports: int)
    requires
        0 <= reports < results.len(),
        forall|i: int|
            0 <= i < reports ==> gives_a_report(#[trigger] results[i]),
        !gives_a_report(results[reports]),
    ensures
        drained_all(count, results).0 == count + reports,
        drained_all(count, results).1 == (if results[reports] is Failed {
            DrainStep::Failed
        } else {
            DrainStep::Done
        }),
    decreases results.len(),
{
    if reports > 0 {
        assert(gives_a_report(results[0]));
        let rest = results.drop_first();
        assert forall|i: int| 0 <= i < reports - 1 implies gives_a_report(#[trigger] rest[i]) by {
            assert(gives_a_report(results[i + 1]));
        }
        draining_counts_the_reports(count + 1, rest, reports - 1);
    }
}

/// Whether there is something to read, by what waiting for it returned and by the bits it left.
pub fn wait_for_input(result: i32, revents: i16) -> (r: Result<bool, String>)
    ensures
        r is Err <==> result < 0,
        r matches Err(message) ==> message@ == "poll failed"@,
        r matches Ok(ready) ==> ready == (result > 0 && revents & POLLIN != 0),
        r matches Ok(ready) ==> ready == (result > 0 && revents & 1 != 0),
{
    if result < 0 {
        return Err("poll failed".to_owned());
    }
    Ok(result > 0 && revents & POLLIN != 0)
}

/// What a look for the node calls for.
#[derive(Debug, PartialEq)]
pub enum PathStep {
    /// Nothing: the node in use is the one to use.
    Unchanged,
    /// Letting go of the node in use; there is no other.
    Gone,
    /// Letting go of the node in use, and opening this one.
    Open(String),
}

/// The meter.
#[derive(Debug, PartialEq)]
pub struct HidrawMeter {
    /// The node in use.
    pub current_path: Option<String>,
    /// Whether it is open.
    pub file_open: bool,
    /// Reports since the last tick.
    pub count: u32,
}

/// The node to use. Where the state cannot be looked at, there is none.
pub open spec fn wanted_node(state: Option<&SharedState>) -> Option<Seq<char>> {
    match state {
        Some(state) => text_of(state.metrics.hidraw_path),
        None => None,
    }
}

impl HidrawMeter {
    /// Only a node in use is open.
    pub open spec fn well_formed(self) -> bool {
        self.file_open ==> self.current_path is Some
    }

    /// A meter that has counted nothing yet.
    pub fn new() -> (r: HidrawMeter)
        ensures
            r.well_formed(),
            r == (HidrawMeter { current_path: None, file_open: false, count: 0 }),
    {
        HidrawMeter { current_path: None, file_open: false, count: 0 }
    }

    /// Looks for the node to use. Where it is another than the one in use, that one is let go.
    pub fn check_path(&mut self, state: Option<&SharedState>) -> (r: PathStep)
        requires
            old(self).well_formed(),
        ensures
            final(self).well_formed(),
            final(self).count == old(self).count,
            wanted_node(state) == text_of(old(self).current_path) ==> r is Unchanged
                && *final(self) == *old(self),
            wanted_node(state) != text_of(old(self).current_path) ==> {
                &&& text_of(final(self).current_path) == wanted_node(state)
                &&& !final(self).file_open
                &&& match wanted_node(state) {
                    Some(wanted) => r matches PathStep::Open(path) && path@ == wanted,
                    None => r is Gone,
                }
            },
    {
        let wanted = match state {
            Some(state) => state.metrics.hidraw_path.clone(),
            None => None,
        };
        if same_optional(&wanted, &self.current_path) {
            return PathStep::Unchanged;
        }
        self.file_open = false;
        self.current_path = wanted.clone();
        match wanted {
            Some(path) => PathStep::Open(path),
            None => PathStep::Gone,
        }
    }

    /// Takes in that the node to use is open.
    pub fn opened(&mut self)
        requires
            old(self).well_formed(),
            old(self).current_path is Some,
        ensures
            final(self).well_formed(),
            *final(self) == (HidrawMeter { file_open: true, ..*old(self) }),
    {
        self.file_open = true;
    }

    /// Takes in that `read` reports came.
    pub fn reports_read(&mut self, read: u32)
        requires
            old(self).well_formed(),
            old(self).count + read <= u32::MAX,
        ensures
            final(self).well_formed(),
            *final(self) == (HidrawMeter { count: (old(self).count + read) as u32, ..*old(self) }),
    {
        self.count = self.count + read;
    }

    /// Takes in that the node in use cannot be read any more. The next look opens it again.
    pub fn read_failed(&mut self)
        requires
            old(self).well_formed(),
        ensures
            final(self).well_formed(),
            *final(self) == (HidrawMeter { current_path: None, file_open: false, ..*old(self) }),
    {
        self.file_open = false;
        self.current_path = None;
    }

    /// The reports a second in the `elapsed` seconds since the last tick; the counting starts
    /// again.
    pub fn take_rate(&mut self, elapsed: Single) -> (r: Single)
        requires
            old(self).well_formed(),
        ensures
            final(self).well_formed(),
            r == integer(old(self).count as int).quotient(elapsed),
            *final(self) == (HidrawMeter { count: 0, ..*old(self) }),
    {
        let rate = Single::from_integer(self.count as i64).over(elapsed);
        self.count = 0;
        rate
    }
}

/// The polling interval in force: the one that the parameter of the kernel module holds, else the
/// one of the profile.
pub open spec fn interval_in_force(parameter: Option<Seq<char>>, profile_binterval: u8) -> u8 {
    match parameter {
        Some(text) => match set_binterval(text) {
            Some(binterval) => binterval,
            None => profile_binterval,
        },
        None => profile_binterval,
    }
}

/// Tells the reports a second at the raw HID node, and how polling is set up: `parameter` is the
/// parameter of the kernel module, `modules_load` and `modprobe` are the contents of its set-up
/// files, each where it could be read.
pub fn publish_hidraw_rate(
    state: &mut SharedState,
    hidraw_hz: Single,
    usb_oc_loaded: bool,
    parameter: Option<&str>,
    modules_load: Option<&str>,
    modprobe: Option<&str>,
)
    ensures
        final(state).config == old(state).config,
        final(state).devices == old(state).devices,
        final(state).raw == old(state).raw,
        final(state).output == old(state).output,
        text_of(final(state).metrics.usb_oc_value) == trimmed_optional(str_text_of(parameter)),
        final(state).metrics == ({
            let binterval = interval_in_force(
                trimmed_optional(str_text_of(parameter)),
                old(state).config.profile.polling_binterval,
            );
            Metrics {
                hidraw_hz,
                configured_polling_hz: Some(high_speed_hz(binterval)),
                configured_polling_ms: Some(high_speed_interval_ms(binterval)),
                usb_oc_value: final(state).metrics.usb_oc_value,
                usb_oc_loaded,
                usb_oc_persistent: file_has_line(str_text_of(modules_load), "usb_oc"@)
                    && file_has_text(str_text_of(modprobe), "interrupt_interval_override="@),
                ..old(state).metrics
            }
        }),
{
    let usb_oc_value = match parameter {
        Some(text) => Some(trim(text)),
        None => None,
    };
    let parsed: Option<u8> = match &usb_oc_value {
        Some(text) => parse_usb_oc_binterval(text.as_str()),
        None => None,
    };
    let binterval: u8 = match parsed {
        Some(binterval) => binterval,
        None => state.config.profile.polling_binterval,
    };
    state.metrics.hidraw_hz = hidraw_hz;
    state.metrics.configured_polling_hz = Some(high_speed_hz_from_binterval(binterval));
    state.metrics.configured_polling_ms = Some(high_speed_interval_ms_from_binterval(binterval));
    state.metrics.usb_oc_value = usb_oc_value;
    state.metrics.usb_oc_loaded = usb_oc_loaded;
    state.metrics.usb_oc_persistent = usb_oc_persistent(modules_load, modprobe);
}

} // verus!
