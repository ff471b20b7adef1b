use ds4linux::bytes::output_text;
use ds4linux::polling::{
    file_contains_line, file_contains_text, parse_usb_oc_binterval, usb_oc_persistent,
};
use ds4linux::profile::polling_override;
use ds4linux::protocol::{line_message, message_line};
use ds4linux::text::{
    after_last, before_first, behind_prefix, chars_of, contains_text, has_line, has_trimmed_line,
    is_blank, is_text, is_white_space, same_optional, same_text, starts_with, strings, trim,
    trim_optional,
};

fn samples() -> Vec<&'static str> {
    vec![
        "",
        " ",
        "\n",
        "\r\n",
        "a",
        " a ",
        "\t a b \r\n",
        "\u{2003}x\u{3000}",
        "usb_oc",
        "usb_oc\n",
        "# comment\r\n usb_oc \r\nother",
        "a\n\nb",
        "a\r",
        "a\r\r\n",
        "054c:0ce6:4",
        "card0",
        "hidraw3",
        "\u{e9}t\u{e9}",
    ]
}

#[test]
fn white_space_is_that_of_unicode() {
    for code in 0..=0x10ffffu32 {
        if let Some(c) = char::from_u32(code) {
            assert_eq!(is_white_space(c), c.is_whitespace(), "{code:x}");
        }
    }
}

#[test]
fn trimming_is_that_of_the_standard_library() {
    for s in samples() {
        assert_eq!(trim(s), s.trim(), "{s:?}");
        assert_eq!(trim(&trim(s)), trim(s));
        assert_eq!(is_blank(s), s.trim().is_empty());
        assert_eq!(trim_optional(&Some(s.to_string())), Some(s.trim().to_string()));
        assert_eq!(chars_of(s), s.chars().collect::<Vec<char>>());
    }
    assert_eq!(trim_optional(&None), None);
}

#[test]
fn lines_are_those_of_the_standard_library() {
    for s in samples() {
        for wanted in samples() {
            assert_eq!(has_line(s, wanted), s.lines().any(|line| line == wanted), "{s:?} {wanted:?}");
            assert_eq!(
                has_trimmed_line(s, wanted),
                s.lines().any(|line| line.trim() == wanted),
                "{s:?} {wanted:?}"
            );
        }
    }
    assert!(has_line("a\r\nb\n", "a"));
    assert!(!has_line("a\r\nb\n", ""));
}

#[test]
fn parts_are_those_of_the_standard_library() {
    for s in samples() {
        for part in samples() {
            assert_eq!(contains_text(s, part), s.contains(part), "{s:?} {part:?}");
            assert_eq!(starts_with(s, part), s.starts_with(part), "{s:?} {part:?}");
            assert_eq!(
                behind_prefix(s, part),
                s.strip_prefix(part).map(String::from),
                "{s:?} {part:?}"
            );
            assert_eq!(same_text(s, part), s == part);
            assert_eq!(is_text(&Some(s.to_string()), part), s == part);
            assert_eq!(
                same_optional(&Some(s.to_string()), &Some(part.to_string())),
                s == part
            );
        }
        assert_eq!(
            before_first(s, ':'),
            s.split_once(':').map(|(head, _)| head.to_string())
        );
        assert_eq!(Some(after_last(s, ':').as_str()), s.rsplit(':').next());
    }
    assert!(!is_text(&None, ""));
    assert!(same_optional(&None, &None));
    assert!(!same_optional(&None, &Some(String::new())));
    assert_eq!(strings(&["a", "b"]), vec!["a".to_string(), "b".to_string()]);
}

#[test]
fn polling_parameter_is_read() {
    assert_eq!(parse_usb_oc_binterval("054c:0ce6:4\n"), Some(4));
    assert_eq!(parse_usb_oc_binterval(" 054c:0ce6:16 "), Some(16));
    assert_eq!(parse_usb_oc_binterval("7"), Some(7));
    assert_eq!(parse_usb_oc_binterval("054c:0ce6:"), None);
    assert_eq!(parse_usb_oc_binterval("054c:0ce6:300"), None);
    assert_eq!(parse_usb_oc_binterval("054c:0ce6: 4"), None);
    assert_eq!(parse_usb_oc_binterval(""), None);
}

#[test]
fn written_intervals_are_read_back() {
    for binterval in 0..=255u8 {
        let written = polling_override("045e", "028e", binterval);
        assert_eq!(parse_usb_oc_binterval(&written), Some(binterval));
        assert_eq!(parse_usb_oc_binterval(&format!("{written}\n")), Some(binterval));
        assert_eq!(parse_usb_oc_binterval(&format!(" \t{written} \r\n\n")), Some(binterval));
    }
}

#[test]
fn files_are_searched() {
    assert!(file_contains_line(Some("# x\n  usb_oc\t\n"), "usb_oc"));
    assert!(!file_contains_line(Some("usb_oc2\n"), "usb_oc"));
    assert!(!file_contains_line(None, "usb_oc"));
    assert!(file_contains_text(Some("options usb_oc a=b"), "a=b"));
    assert!(!file_contains_text(Some(""), "a=b"));
    assert!(!file_contains_text(None, ""));
}

#[test]
fn persistence_takes_both_files() {
    let load = Some("usb_oc\n");
    let options = Some("options usb_oc interrupt_interval_override=054c:0ce6:4\n");
    assert!(usb_oc_persistent(load, options));
    assert!(!usb_oc_persistent(None, options));
    assert!(!usb_oc_persistent(load, None));
    assert!(!usb_oc_persistent(load, Some("options usb_oc\n")));
}

#[test]
fn messages_are_lines() {
    assert_eq!(message_line("{\"type\":\"ok\"}".to_string()), "{\"type\":\"ok\"}\n");
    assert_eq!(line_message("{\"type\":\"ok\"}\n"), "{\"type\":\"ok\"}");
    assert_eq!(line_message("  \n"), "");
}

#[test]
fn output_is_text_whatever_its_bytes() {
    assert_eq!(output_text("ID_MODEL_ID=0ce6\n".as_bytes()), "ID_MODEL_ID=0ce6\n");
    assert_eq!(output_text("\u{e9}".as_bytes()), "\u{e9}");
    assert_eq!(output_text(&[0x61, 0xff, 0x62]), "a\u{fffd}b");
    assert_eq!(output_text(&[]), "");
}
