//! The requests that the daemon takes and the responses that it gives.
use vstd::prelude::*;

use crate::profile::{Profile, ProfilePatch};
use crate::status::StatusSnapshot;
use crate::text::trim;
#[allow(unused_imports)]
use crate::text::{blank, lemma_trimmed_behind, trimmed, white_space};

verus! {

/// What the daemon can be asked for.
#[derive(Debug, PartialEq)]
pub enum DaemonRequest {
    /// Tell the status.
    GetStatus,
    /// Use a profile.
    SetProfile {
        /// The profile.
        profile: Profile,
    },
    /// Change the profile.
    PatchProfile {
        /// The changes.
        patch: ProfilePatch,
    },
    /// Write the configuration to disk.
    SaveProfile,
    /// Change the polling interval.
    ApplyPolling {
        /// The new interval exponent.
        binterval: u8,
    },
    /// Hide the physical controller, or show it.
    SetHidePhysical {
        /// Whether it is hidden.
        enabled: bool,
    },
    /// Come to an end.
    Stop,
}

/// What the daemon answers.
#[derive(Debug, PartialEq)]
pub enum DaemonResponse {
    /// The request was carried out.
    Done,
    /// The status.
    Status {
        /// The status.
        status: StatusSnapshot,
    },
    /// The request failed.
    Error {
        /// Why.
        message: String,
    },
}

impl Clone for DaemonRequest {
    fn clone(&self) -> (r: DaemonRequest)
        ensures
            r == *self,
    {
        match self {
            DaemonRequest::GetStatus => DaemonRequest::GetStatus,
            DaemonRequest::SetProfile { profile } => DaemonRequest::SetProfile {
                profile: profile.clone(),
            },
            DaemonRequest::PatchProfile { patch } => DaemonRequest::PatchProfile {
                patch: patch.clone(),
            },
            DaemonRequest::SaveProfile => DaemonRequest::SaveProfile,
            DaemonRequest::ApplyPolling { binterval } => DaemonRequest::ApplyPolling {
                binterval: *binterval,
            },
            DaemonRequest::SetHidePhysical { enabled } => DaemonRequest::SetHidePhysical {
                enabled: *enabled,
            },
            DaemonRequest::Stop => DaemonRequest::Stop,
        }
    }
}

impl Clone for DaemonResponse {
    fn clone(&self) -> (r: DaemonResponse)
        ensures
            match *self {
                DaemonResponse::Done => r is Done,
                DaemonResponse::Status { status } => r matches DaemonResponse::Status {
                    status: copy,
                } && copy.holds(
                    status.profile,
                    status.devices@,
                    status.raw,
                    status.output,
                    status.metrics,
                ),
                DaemonResponse::Error { message } => r == (DaemonResponse::Error { message }),
            },
    {
        match self {
            DaemonResponse::Done => DaemonResponse::Done,
            DaemonResponse::Status { status } => DaemonResponse::Status { status: status.clone() },
            DaemonResponse::Error { message } => DaemonResponse::Error { message: message.clone() },
        }
    }
}

/// A message as one line.
pub fn message_line(text: String) -> (r: String)
    ensures
        r@ == text@ + "\n"@,
{
    let mut line = text;
    line.append("\n");
    line
}

/// The message in a line.
pub fn line_message(line: &str) -> (r: String)
    ensures
        r@ == trimmed(line@),
{
    trim(line)
}

/// A message that neither starts nor ends with white space is read back from its line.
pub proof fn messages_are_read_back(text: Seq<char>)
    requires
        text.len() > 0 ==> !white_space(text.first()) && !white_space(text.last()),
    ensures
        trimmed(text + "\n"@) == text,
{
    reveal_strlit("\n");
    assert(blank("\n"@));
    lemma_trimmed_behind(text, "\n"@);
}

/// What a client that waits for no status makes of a response.
pub fn response_ok(response: DaemonResponse) -> (r: Result<(), String>)
    ensures
        r is Ok <==> response is Done,
        response matches DaemonResponse::Error { message } ==> r == Err::<(), String>(message),
        response is Status ==> (r matches Err(message) && message@ == "unexpected status response"@),
{
    match response {
        DaemonResponse::Done => Ok(()),
        DaemonResponse::Error { message } => Err(message),
        DaemonResponse::Status { status: _ } => Err("unexpected status response".to_owned()),
    }
}

/// What a client that asked for the status makes of a response.
pub fn daemon_status(response: DaemonResponse) -> (r: Result<StatusSnapshot, String>)
    ensures
        response matches DaemonResponse::Status { status } ==> r == Ok::<StatusSnapshot, String>(
            status,
        ),
        response matches DaemonResponse::Error { message } ==> r == Err::<StatusSnapshot, String>(
            message,
        ),
        response is Done ==> (r matches Err(message) && message@ == "unexpected ok response"@),
{
    match response {
        DaemonResponse::Status { status } => Ok(status),
        DaemonResponse::Error { message } => Err(message),
        DaemonResponse::Done => Err("unexpected ok response".to_owned()),
    }
}

/// The response to a request that was carried out with the response in `outcome`, or that
/// failed with the message in it.
pub fn response_of(outcome: Result<DaemonResponse, String>) -> (r: DaemonResponse)
    ensures
        r == match outcome {
            Ok(response) => response,
            Err(message) => DaemonResponse::Error { message },
        },
{
    match outcome {
        Ok(response) => response,
        Err(message) => DaemonResponse::Error { message },
    }
}

} // verus!
