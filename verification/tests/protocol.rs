use usahp::protocol::{
    binary_confidence, valid_app_id, validate_confidence, validate_confidence_opt, Action,
    Confidence, RequestedMode, CONFIDENCE_FULL_BITS, PROTOCOL_VERSION,
};

fn conf(value: f32) -> Confidence {
    Confidence { bits: value.to_bits() }
}

#[test]
fn app_ids_are_strict_ascii_identifiers() {
    for valid in ["app", "org.example.Switch_1", "a-b"] {
        assert!(valid_app_id(valid));
    }
    for invalid in ["", "has space", "café", "slash/app"] {
        assert!(!valid_app_id(invalid));
    }
    assert!(!valid_app_id(&"a".repeat(129)));
}

#[test]
fn app_id_length_limit_is_inclusive() {
    assert!(valid_app_id(&"a".repeat(128)));
    assert!(valid_app_id("A.Z_0-9"));
    assert!(!valid_app_id("tab\tapp"));
}

#[test]
fn validate_confidence_rejects_invalid() {
    assert_eq!(validate_confidence(conf(0.0)), Some(conf(0.0)));
    assert_eq!(validate_confidence(conf(100.0)), Some(conf(100.0)));
    assert_eq!(validate_confidence(conf(50.5)), Some(conf(50.5)));
    assert_eq!(validate_confidence(conf(-0.1)), None);
    assert_eq!(validate_confidence(conf(100.1)), None);
    assert_eq!(validate_confidence(conf(f32::NAN)), None);
    assert_eq!(validate_confidence(conf(f32::INFINITY)), None);
    assert_eq!(validate_confidence(conf(f32::NEG_INFINITY)), None);
}

#[test]
fn negative_zero_confidence_is_kept_unchanged() {
    let negative_zero = conf(-0.0);
    assert_eq!(validate_confidence(negative_zero), Some(negative_zero));
    assert_eq!(negative_zero.bits, 0x8000_0000);
}

#[test]
fn full_confidence_constant_is_one_hundred() {
    assert_eq!(f32::from_bits(CONFIDENCE_FULL_BITS), 100.0);
}

#[test]
fn optional_confidence_validation() {
    assert_eq!(validate_confidence_opt(None), Some(None));
    assert_eq!(validate_confidence_opt(Some(conf(72.5))), Some(Some(conf(72.5))));
    assert_eq!(validate_confidence_opt(Some(conf(f32::NAN))), None);
    assert_eq!(validate_confidence_opt(Some(conf(101.0))), None);
}

#[test]
fn binary_switches_report_full_or_no_confidence() {
    assert_eq!(f32::from_bits(binary_confidence(Action::Pressed).bits), 100.0);
    assert_eq!(f32::from_bits(binary_confidence(Action::Released).bits), 0.0);
}

#[test]
fn requested_mode_round_trips_through_its_wire_name() {
    let exclusive = RequestedMode::from(String::from("exclusive_foreground"));
    assert_eq!(exclusive, RequestedMode::ExclusiveForeground);
    assert_eq!(exclusive.name(), "exclusive_foreground");
    let shared = RequestedMode::from(String::from("shared"));
    assert_eq!(shared, RequestedMode::Unsupported("shared".into()));
    assert_eq!(shared.name(), "shared");
    assert_eq!(RequestedMode::from(shared.name()), shared);
    let odd = RequestedMode::Unsupported("exclusive_foreground".into());
    assert_eq!(RequestedMode::from(odd.name()), RequestedMode::ExclusiveForeground);
}

#[test]
fn protocol_version_is_current() {
    assert_eq!(PROTOCOL_VERSION, "0.3.0");
}
