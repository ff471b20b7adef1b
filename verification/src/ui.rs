//! What the desktop program decides: its environment and the control of the service.
use vstd::prelude::*;
#[allow(unused_imports)]
use vstd::utf8::{decode_utf8, valid_utf8};

use crate::bytes::output_text;
#[allow(unused_imports)]
use crate::bytes::lossy_text;
use crate::text::{same_text, strings, trim};
#[allow(unused_imports)]
use crate::text::{texts_of, trimmed};

verus! {

/// An environment variable and the value that it is set to.
#[derive(Debug, PartialEq)]
pub struct VariableSetting {
    /// The variable.
    pub name: &'static str,
    /// Its value.
    pub value: &'static str,
}

/// The environment variables that the desktop program sets for itself, given which variables are
/// set already: the browser engine is kept from its DMA buffer renderer, and the toolkit is kept
/// on X11 where there is Wayland but X11 too. What is set already stays.
pub fn install_graphics_workarounds(
    renderer_set: bool,
    backend_set: bool,
    wayland_display_set: bool,
    display_set: bool,
) -> (r: Vec<VariableSetting>)
    ensures
        r@ == (if renderer_set {
            Seq::<VariableSetting>::empty()
        } else {
            seq![VariableSetting { name: "WEBKIT_DISABLE_DMABUF_RENDERER", value: "1" }]
        }) + (if !backend_set && wayland_display_set && display_set {
            seq![VariableSetting { name: "GDK_BACKEND", value: "x11" }]
        } else {
            Seq::empty()
        }),
{
    let mut settings: Vec<VariableSetting> = Vec::new();
    if !renderer_set {
        settings.push(VariableSetting { name: "WEBKIT_DISABLE_DMABUF_RENDERER", value: "1" });
    }
    if !backend_set && wayland_display_set && display_set {
        settings.push(VariableSetting { name: "GDK_BACKEND", value: "x11" });
    }
    settings
}

/// The command that does `action` to the service.
pub open spec fn service_command(action: Seq<char>) -> Option<Seq<Seq<char>>> {
    if action == "start"@ || action == "stop"@ || action == "restart"@ {
        Some(seq!["systemctl"@, action, "ds4linuxd.service"@])
    } else if action == "enable"@ || action == "disable"@ {
        Some(seq!["systemctl"@, action, "--now"@, "ds4linuxd.service"@])
    } else {
        None
    }
}

/// The command that does `action` to the service, where there is such an action.
pub fn service_action(action: &str) -> (r: Result<Vec<String>, String>)
    ensures
        r is Ok <==> service_command(action@) is Some,
        r matches Ok(args) ==> Some(texts_of(args@)) == service_command(action@),
        r matches Err(message) ==> message@ == "unknown service action: "@ + action@,
{
    if same_text(action, "start") || same_text(action, "stop") || same_text(action, "restart") {
        let args = strings(&["systemctl", action, "ds4linuxd.service"]);
        assert(texts_of(args@) =~= seq!["systemctl"@, action@, "ds4linuxd.service"@]);
        Ok(args)
    } else if same_text(action, "enable") || same_text(action, "disable") {
        let args = strings(&["systemctl", action, "--now", "ds4linuxd.service"]);
        assert(texts_of(args@) =~= seq!["systemctl"@, action@, "--now"@, "ds4linuxd.service"@]);
        Ok(args)
    } else {
        let mut message = "unknown service action: ".to_owned();
        message.append(action);
        Err(message)
    }
}

/// What the user is told about a command that has run: what it printed, or, where it failed, what
/// it complained about.
pub fn service_result(success: bool, stdout: &[u8], stderr: &[u8]) -> (r: Result<String, String>)
    ensures
        r is Ok <==> success,
        r matches Ok(text) ==> text@ == trimmed(lossy_text(stdout@)),
        r matches Err(text) ==> text@ == trimmed(lossy_text(stderr@)),
        r matches Ok(text) ==> (valid_utf8(stdout@) ==> text@ == trimmed(decode_utf8(stdout@))),
        r matches Err(text) ==> (valid_utf8(stderr@) ==> text@ == trimmed(decode_utf8(stderr@))),
{
    if success {
        Ok(service_status(stdout))
    } else {
        Err(service_status(stderr))
    }
}

/// What the user is told about the service: what the command that looked at it printed, whether it
/// succeeded or not.
pub fn service_status(output: &[u8]) -> (r: String)
    ensures
        r@ == trimmed(lossy_text(output@)),
        valid_utf8(output@) ==> r@ == trimmed(decode_utf8(output@)),
{
    trim(output_text(output).as_str())
}

} // verus!
