//! The kernel module that overrides the polling interval: its parameter and its set-up files.
use vstd::prelude::*;

#[allow(unused_imports)]
use crate::number::{all_digits, byte_value, decimal, decimal_bytes_are_read_back, is_digit, lemma_decimal_read_back};
use crate::number::parse_byte;
#[allow(unused_imports)]
use crate::profile::override_text;
use crate::text::{after_last, contains_text, has_trimmed_line, trim};
#[allow(unused_imports)]
use crate::text::{
    behind_last, blank, has_part, has_trimmed, lemma_trimmed_before, lemma_trimmed_behind,
    str_text_of, trimmed, white_space,
};

verus! {

/// The file that has the module loaded at boot.
pub const USB_OC_MODULES_LOAD_PATH: &'static str = "/etc/modules-load.d/usb_oc.conf";

/// The file that has the parameter of the module set at boot.
pub const USB_OC_MODPROBE_PATH: &'static str = "/etc/modprobe.d/usb_oc.conf";

/// The interval that a value of the parameter sets: the number behind the last colon.
pub open spec fn set_binterval(value: Seq<char>) -> Option<u8> {
    byte_value(behind_last(trimmed(value), ':'))
}

/// The interval that a value of the parameter sets.
pub fn parse_usb_oc_binterval(value: &str) -> (r: Option<u8>)
    ensures
        r == set_binterval(value@),
{
    parse_byte(after_last(trim(value).as_str(), ':').as_str())
}

/// The text is there, and some line of it, apart from white space at its ends, is `wanted`.
pub open spec fn file_has_line(text: Option<Seq<char>>, wanted: Seq<char>) -> bool {
    match text {
        Some(text) => has_trimmed(text, wanted),
        None => false,
    }
}

/// The text is there, and some stretch of it is `wanted`.
pub open spec fn file_has_text(text: Option<Seq<char>>, wanted: Seq<char>) -> bool {
    match text {
        Some(text) => has_part(text, wanted),
        None => false,
    }
}

/// Whether a file with the content `text`, where it could be read, has the line `wanted`.
pub fn file_contains_line(text: Option<&str>, wanted: &str) -> (r: bool)
    ensures
        r == file_has_line(str_text_of(text), wanted@),
{
    match text {
        Some(text) => has_trimmed_line(text, wanted),
        None => false,
    }
}

/// Whether a file with the content `text`, where it could be read, holds `wanted`.
pub fn file_contains_text(text: Option<&str>, wanted: &str) -> (r: bool)
    ensures
        r == file_has_text(str_text_of(text), wanted@),
{
    match text {
        Some(text) => contains_text(text, wanted),
        None => false,
    }
}

/// Whether the module and its parameter are set up for every boot, by the contents of its two
/// files.
pub fn usb_oc_persistent(modules_load: Option<&str>, modprobe: Option<&str>) -> (r: bool)
    ensures
        r == (file_has_line(str_text_of(modules_load), "usb_oc"@) && file_has_text(
            str_text_of(modprobe),
            "interrupt_interval_override="@,
        )),
{
    file_contains_line(modules_load, "usb_oc") && file_contains_text(
        modprobe,
        "interrupt_interval_override=",
    )
}

/// Taking white space from the ends of `head + ":" + digits` leaves the digits behind the colon.
proof fn lemma_trimmed_keeps_digits(head: Seq<char>, digits: Seq<char>)
    requires
        digits.len() > 0,
        all_digits(digits),
    ensures
        behind_last(trimmed(head.push(':') + digits), ':') == digits,
    decreases head.len(),
{
    let s = head.push(':') + digits;
    assert(s.last() == digits.last());
    assert(is_digit(digits[digits.len() - 1]));
    if head.len() > 0 && white_space(head[0]) {
        assert(s.drop_first() =~= head.drop_first().push(':') + digits);
        lemma_trimmed_keeps_digits(head.drop_first(), digits);
    } else {
        if head.len() > 0 {
            assert(s.first() == head[0]);
        } else {
            assert(s.first() == ':');
        }
        assert(trimmed(s) == s);
        lemma_behind_last(head, digits, digits.len() as int);
        assert(digits.take(digits.len() as int) =~= digits);
    }
}

proof fn lemma_behind_last(head: Seq<char>, digits: Seq<char>, n: int)
    requires
        0 <= n <= digits.len(),
        all_digits(digits),
    ensures
        behind_last(head.push(':') + digits.take(n), ':') == digits.take(n),
    decreases n,
{
    let s = head.push(':') + digits.take(n);
    if n == 0 {
        assert(s =~= head.push(':'));
        assert(digits.take(0) =~= Seq::<char>::empty());
    } else {
        assert(is_digit(digits[n - 1]));
        assert(s.last() == digits[n - 1]);
        assert(s.drop_last() =~= head.push(':') + digits.take(n - 1));
        lemma_behind_last(head, digits, n - 1);
        assert(digits.take(n) =~= digits.take(n - 1).push(digits[n - 1]));
    }
}

/// What is written to the parameter sets the interval that it was made of, whatever the device, and
/// also when it is read back with white space around it.
pub proof fn written_interval_is_read_back(
    vid: Seq<char>,
    pid: Seq<char>,
    binterval: u8,
    before: Seq<char>,
    behind: Seq<char>,
)
    requires
        blank(before),
        blank(behind),
    ensures
        set_binterval(override_text(vid, pid, binterval)) == Some(binterval),
        set_binterval(before + override_text(vid, pid, binterval) + behind) == Some(binterval),
{
    reveal_strlit(":");
    let digits = decimal(binterval as nat);
    let head = vid + ":"@ + pid;
    let s = override_text(vid, pid, binterval);
    lemma_decimal_read_back(binterval as nat);
    decimal_bytes_are_read_back(binterval);
    assert(s =~= head.push(':') + digits);
    lemma_trimmed_keeps_digits(head, digits);
    lemma_trimmed_before(before, s + behind);
    assert(before + (s + behind) =~= before + s + behind);
    lemma_trimmed_behind(s, behind);
}

} // verus!
