use ds4linux::ui::{
    install_graphics_workarounds, service_action, service_result, service_status, VariableSetting,
};

const RENDERER: VariableSetting = VariableSetting { name: "WEBKIT_DISABLE_DMABUF_RENDERER", value: "1" };
const BACKEND: VariableSetting = VariableSetting { name: "GDK_BACKEND", value: "x11" };

#[test]
fn variables_are_set_where_they_help() {
    assert_eq!(install_graphics_workarounds(false, false, true, true), vec![RENDERER, BACKEND]);
    assert_eq!(install_graphics_workarounds(true, false, true, true), vec![BACKEND]);
    assert_eq!(install_graphics_workarounds(false, true, true, true), vec![RENDERER]);
    assert_eq!(install_graphics_workarounds(true, false, false, true), vec![]);
    assert_eq!(install_graphics_workarounds(true, false, true, false), vec![]);
}

#[test]
fn service_actions_have_commands() {
    for action in vec!["start", "stop", "restart"] {
        assert_eq!(
            service_action(action).unwrap(),
            vec!["systemctl".to_string(), action.to_string(), "ds4linuxd.service".to_string()]
        );
    }
    for action in vec!["enable", "disable"] {
        assert_eq!(
            service_action(action).unwrap(),
            vec![
                "systemctl".to_string(),
                action.to_string(),
                "--now".to_string(),
                "ds4linuxd.service".to_string(),
            ]
        );
    }
    assert_eq!(service_action("reload"), Err("unknown service action: reload".to_string()));
    assert_eq!(service_action(""), Err("unknown service action: ".to_string()));
}

#[test]
fn commands_tell_what_they_printed() {
    assert_eq!(service_result(true, b" done\n", b"warning\n"), Ok("done".to_string()));
    assert_eq!(service_result(false, b"done\n", b"not authorized\n"), Err("not authorized".to_string()));
    assert_eq!(service_status(b"active\n"), "active");
    assert_eq!(service_status(&[0xff, 0x0a]), "\u{fffd}");
}
