//! Bytes that are text.
use vstd::prelude::*;
#[allow(unused_imports)]
use vstd::utf8::{decode_utf8, valid_utf8};

verus! {

/// Trusted: `String::from_utf8`. It succeeds on well-formed UTF-8, and on nothing else, and the
/// string then is the text that the bytes encode.
#[verifier::external_body]
pub(crate) fn from_utf8(bytes: Vec<u8>) -> (r: Option<String>)
    ensures
        r is Some <==> valid_utf8(bytes@),
        r matches Some(s) ==> s@ == decode_utf8(bytes@),
{
    String::from_utf8(bytes).ok()
}

/// The text that `String::from_utf8_lossy` makes of `bytes`.
pub uninterp spec fn lossy_text(bytes: Seq<u8>) -> Seq<char>;

/// Trusted: `String::from_utf8_lossy`. The string is a function of the bytes alone. Where they
/// are well-formed UTF-8 it is the text that they encode; how much of other bytes each
/// replacement character stands for is left unsaid.
#[verifier::external_body]
pub(crate) fn from_utf8_lossy(bytes: &[u8]) -> (r: String)
    ensures
        r@ == lossy_text(bytes@),
        valid_utf8(bytes@) ==> r@ == decode_utf8(bytes@),
{
    String::from_utf8_lossy(bytes).into_owned()
}

/// The output of a program as text.
pub fn output_text(output: &[u8]) -> (r: String)
    ensures
        r@ == lossy_text(output@),
        valid_utf8(output@) ==> r@ == decode_utf8(output@),
{
    from_utf8_lossy(output)
}

} // verus!
