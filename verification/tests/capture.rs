use usahp::config::{InputKind, Mapping};
use usahp::input::{
    binary_edges, gamepad_action, gamepad_devices, gamepad_mapping_ids, keyboard_mapping_ids,
    backend_failure, mac_keycode, mac_keycode_ids, suppresses_key, BackendFailure, name_to_keycode, parse_key, validate, validate_gamepad, InputError, KeyName,
};
use usahp::protocol::Action;

fn keyboard(id: &str, code: &str) -> Mapping {
    Mapping {
        id: id.into(),
        switch_id: "switch_1".into(),
        input: InputKind::Keyboard,
        code: code.into(),
        device: None,
    }
}

fn gamepad(id: &str, device: Option<&str>, code: &str) -> Mapping {
    Mapping {
        id: id.into(),
        switch_id: "switch_1".into(),
        input: InputKind::Gamepad,
        code: code.into(),
        device: device.map(|d| d.to_owned()),
    }
}

#[test]
fn accepts_documented_keyboard_codes() {
    for code in ["Space", "Return", "Escape", "A", "Z", "LeftArrow"] {
        assert!(parse_key(code).is_ok(), "{code}");
    }
}

#[test]
fn keyboard_codes_ignore_ascii_case_and_accept_aliases() {
    assert_eq!(parse_key("SPACE"), Ok(KeyName::Space));
    assert_eq!(parse_key("enter"), Ok(KeyName::Return));
    assert_eq!(parse_key("Esc"), Ok(KeyName::Escape));
    assert_eq!(parse_key("tab"), Ok(KeyName::Tab));
    assert_eq!(parse_key("up"), Ok(KeyName::UpArrow));
    assert_eq!(parse_key("DownArrow"), Ok(KeyName::DownArrow));
    assert_eq!(parse_key("right"), Ok(KeyName::RightArrow));
    assert_eq!(parse_key("q"), Ok(KeyName::Q));
}

#[test]
fn unsupported_keyboard_codes_are_named_in_the_error() {
    assert_eq!(parse_key("F13"), Err(InputError::UnsupportedKeyboardCode("F13".into())));
    assert_eq!(parse_key(""), Err(InputError::UnsupportedKeyboardCode("".into())));
    assert_eq!(parse_key("é"), Err(InputError::UnsupportedKeyboardCode("é".into())));
    assert_eq!(parse_key("1"), Err(InputError::UnsupportedKeyboardCode("1".into())));
}

#[test]
fn macos_virtual_key_codes() {
    assert_eq!(name_to_keycode("Space"), Some(49));
    assert_eq!(name_to_keycode("return"), Some(36));
    assert_eq!(name_to_keycode("Escape"), Some(53));
    assert_eq!(name_to_keycode("Tab"), Some(48));
    assert_eq!(name_to_keycode("LeftArrow"), Some(123));
    assert_eq!(name_to_keycode("right"), Some(124));
    assert_eq!(name_to_keycode("down"), Some(125));
    assert_eq!(name_to_keycode("UP"), Some(126));
    assert_eq!(name_to_keycode("a"), Some(0));
    assert_eq!(name_to_keycode("Z"), Some(6));
    assert_eq!(name_to_keycode("unknown"), None);
    assert_eq!(mac_keycode(KeyName::S), 1);
}

#[test]
fn validate_accepts_keyboard_and_linux_gamepad_mappings() {
    let mappings = vec![keyboard("space", "Space"), gamepad("pad", Some("/dev/input/event3"), "304")];
    assert_eq!(validate(&mappings, "linux"), Ok(()));
}

#[test]
fn validate_rejects_unsupported_keyboard_code() {
    let mappings = vec![keyboard("space", "Space"), keyboard("f", "F13")];
    assert_eq!(
        validate(&mappings, "linux"),
        Err(InputError::UnsupportedMappingCode { mapping_id: "f".into(), code: "F13".into() })
    );
}

#[test]
fn validate_rejects_keyboard_device() {
    let mut m = keyboard("space", "Space");
    m.device = Some("/dev/input/event0".into());
    assert_eq!(validate(&[m], "linux"), Err(InputError::KeyboardDevice("space".into())));
}

#[test]
fn gamepads_are_refused_outside_linux() {
    let m = gamepad("pad", Some("/dev/input/event3"), "304");
    assert_eq!(
        validate_gamepad(&m, "macos"),
        Err(InputError::GamepadUnsupported { mapping_id: "pad".into(), os: "macos".into() })
    );
    assert_eq!(
        validate(&[m], "windows"),
        Err(InputError::GamepadUnsupported { mapping_id: "pad".into(), os: "windows".into() })
    );
}

#[test]
fn gamepads_need_a_device_path() {
    assert_eq!(
        validate_gamepad(&gamepad("pad", None, "304"), "linux"),
        Err(InputError::MissingDevice("pad".into()))
    );
    assert_eq!(
        validate_gamepad(&gamepad("pad", Some(""), "304"), "linux"),
        Err(InputError::MissingDevice("pad".into()))
    );
}

#[test]
fn gamepad_codes_must_be_numeric() {
    assert_eq!(
        validate_gamepad(&gamepad("pad", Some("/dev/x"), "BTN_SOUTH"), "linux"),
        Err(InputError::NonNumericCode { mapping_id: "pad".into(), code: "BTN_SOUTH".into() })
    );
    assert_eq!(
        validate_gamepad(&gamepad("pad", Some("/dev/x"), "65536"), "linux"),
        Err(InputError::NonNumericCode { mapping_id: "pad".into(), code: "65536".into() })
    );
    assert_eq!(validate_gamepad(&gamepad("pad", Some("/dev/x"), "+65535"), "linux"), Ok(()));
}

#[test]
fn keyboard_mappings_are_grouped_by_key() {
    let mappings = vec![
        keyboard("a", "Space"),
        keyboard("b", "Return"),
        keyboard("c", "space"),
        gamepad("d", Some("/dev/x"), "304"),
    ];
    assert_eq!(keyboard_mapping_ids(&mappings, KeyName::Space), vec!["a".to_string(), "c".to_string()]);
    assert_eq!(keyboard_mapping_ids(&mappings, KeyName::Return), vec!["b".to_string()]);
    assert!(keyboard_mapping_ids(&mappings, KeyName::Tab).is_empty());
}

#[test]
fn gamepad_mappings_are_grouped_by_device_and_code() {
    let mappings = vec![
        gamepad("a", Some("/dev/x"), "304"),
        gamepad("b", Some("/dev/y"), "304"),
        gamepad("c", Some("/dev/x"), "305"),
        gamepad("d", Some("/dev/x"), "304"),
        keyboard("e", "Space"),
    ];
    assert_eq!(gamepad_devices(&mappings), vec!["/dev/x".to_string(), "/dev/y".to_string()]);
    assert_eq!(gamepad_mapping_ids(&mappings, "/dev/x", 304), vec!["a".to_string(), "d".to_string()]);
    assert_eq!(gamepad_mapping_ids(&mappings, "/dev/y", 304), vec!["b".to_string()]);
    assert!(gamepad_mapping_ids(&mappings, "/dev/y", 305).is_empty());
}

#[test]
fn gamepad_key_values_become_edges() {
    assert_eq!(gamepad_action(1), Some(Action::Pressed));
    assert_eq!(gamepad_action(0), Some(Action::Released));
    assert_eq!(gamepad_action(2), None);
    assert_eq!(gamepad_action(-1), None);
}

#[test]
fn binary_edges_carry_binary_confidence() {
    let ids = vec!["a".to_string(), "b".to_string()];
    let pressed = binary_edges(&ids, Action::Pressed);
    assert_eq!(pressed.len(), 2);
    assert_eq!(pressed[1].mapping_id, "b");
    assert_eq!(pressed[0].action, Action::Pressed);
    assert_eq!(pressed[0].confidence.map(|c| f32::from_bits(c.bits)), Some(100.0));
    let released = binary_edges(&ids, Action::Released);
    assert_eq!(released[0].confidence.map(|c| f32::from_bits(c.bits)), Some(0.0));
}

#[test]
fn keyboard_mappings_are_grouped_by_macos_key_code() {
    let mappings = vec![
        keyboard("a", "Space"),
        keyboard("b", "return"),
        keyboard("c", "SPACE"),
        keyboard("d", "F13"),
        gamepad("e", Some("/dev/x"), "49"),
    ];
    assert_eq!(mac_keycode_ids(&mappings, 49), vec!["a".to_string(), "c".to_string()]);
    assert_eq!(mac_keycode_ids(&mappings, 36), vec!["b".to_string()]);
    assert!(mac_keycode_ids(&mappings, 53).is_empty());
}

#[test]
fn keyboard_codes_agree_up_to_ascii_case_and_aliases() {
    for (a, b) in [("sPaCe", "SPACE"), ("Enter", "RETURN"), ("esc", "Escape"), ("Up", "UPARROW"),
        ("down", "DownArrow"), ("LEFT", "leftarrow"), ("Right", "rightArrow"), ("q", "Q")]
    {
        assert_eq!(parse_key(a).unwrap(), parse_key(b).unwrap(), "{a} {b}");
    }
    assert!(parse_key("ÉSC").is_err());
}

#[test]
fn keys_are_suppressed_only_when_captured_mapped_and_delivered() {
    assert!(suppresses_key(true, true, true));
    assert!(!suppresses_key(false, true, true));
    assert!(!suppresses_key(true, false, true));
    assert!(!suppresses_key(true, true, false));
}

#[test]
fn backend_failures_report_a_stopped_backend_first() {
    assert_eq!(backend_failure(&[true, true], &[true, true]), None);
    assert_eq!(backend_failure(&[], &[]), None);
    assert_eq!(backend_failure(&[true, false, true], &[false, true]), Some(BackendFailure::Stopped));
    assert_eq!(backend_failure(&[true, true, true], &[true, false, false]), Some(BackendFailure::Reply(1)));
}
