use hl7conv2::errors::Hl7Error;
use hl7conv2::escape::Hl7EscapeHandler;
use hl7conv2::json_hl7::JsonHl7;
use hl7conv2::segments::Hl7Segment;
use hl7conv2::validation::Hl7Validator;

fn pairs(items: &[(&str, &str)]) -> Vec<(String, String)> {
    let mut v = Vec::new();
    for (k, val) in items {
        v.push((k.to_string(), val.to_string()));
    }
    v
}

fn valid_header() -> Hl7Segment {
    Hl7Segment::from_string(
        "MSH|^~\\&|APP|FAC|APP2|FAC2|20240101120000|SEC|ADT^A01^ADT_A01|MSG1|P|2.5.1|2.5.1",
        None,
    )
}

#[test]
fn test_decode_repetitions_with_components_scenario() {
    let segment_json = pairs(&[
        ("3[0].1", "ID1"),
        ("3[0].2", "TYPE1"),
        ("3[1].1", "ID2"),
        ("3[1].2", "TYPE2"),
    ]);
    let json_hl7 = JsonHl7::new(vec![segment_json]);
    let hl7_string = json_hl7._convert_json_to_hl7();
    assert_eq!(hl7_string, "|||ID1^TYPE1~ID2^TYPE2");
}

#[test]
fn test_decode_gap_filling_scenario() {
    let segment_json = pairs(&[
        ("segment_name", "OBX"),
        ("3[0]", "HbA1c"),
        ("3[1]", "CBC"),
        ("3[2]", "Glucose"),
        ("5", "Result"),
    ]);
    let json_hl7 = JsonHl7::new(vec![segment_json]);
    let hl7_string = json_hl7._convert_json_to_hl7();
    assert_eq!(hl7_string, "OBX|||HbA1c~CBC~Glucose||Result");
}

#[test]
fn test_validator_missing_required_segment() {
    let segments = vec![valid_header()];

    let with_required = Hl7Validator::new();
    let result = with_required.validate_message(&segments);
    assert!(matches!(
        result,
        Err(Hl7Error::MissingRequiredSegment { .. })
    ));

    let without_required = Hl7Validator::new().with_required_fields_validation(false);
    assert!(without_required.validate_message(&segments).is_ok());
}

#[test]
fn test_validator_invalid_segment_name_two_characters() {
    let segments = vec![valid_header(), Hl7Segment::from_string("PID|1", None), Hl7Segment::from_string("AB|x", None)];
    let validator = Hl7Validator::new();
    let result = validator.validate_message(&segments);
    match result {
        Err(Hl7Error::InvalidSegmentName { name }) => assert_eq!(name, "AB"),
        other => panic!("expected an invalid segment name error, got {:?}", other),
    }
}

#[test]
fn test_validator_invalid_segment_name_digit() {
    let segments = vec![valid_header(), Hl7Segment::from_string("PID|1", None), Hl7Segment::from_string("ab1|x", None)];
    let validator = Hl7Validator::new();
    let result = validator.validate_message(&segments);
    match result {
        Err(Hl7Error::InvalidSegmentName { name }) => assert_eq!(name, "ab1"),
        other => panic!("expected an invalid segment name error, got {:?}", other),
    }
}

#[test]
fn test_validator_unsupported_version_strict_vs_lenient() {
    let header = Hl7Segment::from_string(
        "MSH|^~\\&|APP|FAC|APP2|FAC2|20240101120000|SEC|ADT^A01^ADT_A01|MSG1|P|2.5.1|9.9",
        None,
    );
    let pid = Hl7Segment::from_string("PID|1", None);
    let segments = vec![header, pid];

    let strict = Hl7Validator::new();
    match strict.validate_message(&segments) {
        Err(Hl7Error::UnsupportedVersion {
            version,
            supported_versions,
        }) => {
            assert_eq!(version, "9.9");
            assert_eq!(
                supported_versions,
                "2.1, 2.2, 2.3, 2.4, 2.5, 2.5.1, 2.6, 2.7, 2.8, 2.9"
            );
        }
        other => panic!("expected an unsupported version error, got {:?}", other),
    }

    let lenient = Hl7Validator::new().with_strict_mode(false);
    assert!(lenient.validate_message(&segments).is_ok());
}

#[test]
fn test_validator_empty_message() {
    let validator = Hl7Validator::new();
    let result = validator.validate_message(&Vec::new());
    assert!(matches!(result, Err(Hl7Error::ValidationError(_))));
}

#[test]
fn test_validator_header_too_short() {
    let segments = vec![Hl7Segment::from_string("MSH|^~\\&|APP", None)];
    let validator = Hl7Validator::new();
    let result = validator.validate_message(&segments);
    assert!(matches!(result, Err(Hl7Error::ValidationFailed { .. })));
}

#[test]
fn test_validator_bad_encoding_characters() {
    let segments = vec![Hl7Segment::from_string(
        "MSH|^~\\&#|APP|FAC|APP2|FAC2|20240101120000|SEC|ADT^A01^ADT_A01|MSG1|P|2.5.1|2.5.1",
        None,
    )];
    let validator = Hl7Validator::new();
    let result = validator.validate_message(&segments);
    match result {
        Err(Hl7Error::InvalidFieldSeparators { separators }) => {
            assert_eq!(separators, "^~\\&#")
        }
        other => panic!("expected a field separators error, got {:?}", other),
    }
}

#[test]
fn test_validator_message_type_components() {
    let segments = vec![
        Hl7Segment::from_string(
            "MSH|^~\\&|APP|FAC|APP2|FAC2|20240101120000|SEC|ADT|MSG1|P|2.5.1|2.5.1",
            None,
        ),
        Hl7Segment::from_string("PID|1", None),
    ];
    let strict = Hl7Validator::new();
    assert!(matches!(
        strict.validate_message(&segments),
        Err(Hl7Error::ValidationFailed { .. })
    ));

    let lenient = Hl7Validator::new().with_strict_mode(false);
    assert!(lenient.validate_message(&segments).is_ok());
}

#[test]
fn test_validator_field_too_long() {
    let long_value = "x".repeat(65537);
    let line = format!("PID|{}", long_value);
    let segments = vec![valid_header(), Hl7Segment::from_string(&line, None)];
    let validator = Hl7Validator::new();
    match validator.validate_message(&segments) {
        Err(Hl7Error::FieldTooLong { length, max_length }) => {
            assert_eq!(length, 65537);
            assert_eq!(max_length, 65536);
        }
        other => panic!("expected a field length error, got {:?}", other),
    }
}

#[test]
fn test_validator_component_too_long() {
    let long_value = "y".repeat(65537);
    let mut fields = std::collections::BTreeMap::new();
    fields.insert(
        1,
        hl7conv2::segments::Hl7Field {
            value: "a".to_string(),
            components: Some(vec![long_value]),
            repetitions: None,
        },
    );
    let pid = Hl7Segment {
        segment_name: "PID".to_string(),
        fields,
    };
    let segments = vec![valid_header(), pid];
    let validator = Hl7Validator::new();
    match validator.validate_message(&segments) {
        Err(Hl7Error::ComponentTooLong { length, max_length }) => {
            assert_eq!(length, 65537);
            assert_eq!(max_length, 65536);
        }
        other => panic!("expected a component length error, got {:?}", other),
    }
}

#[test]
fn test_validator_wrong_first_segment() {
    let segments = vec![
        Hl7Segment::from_string("PID|1", None),
        valid_header(),
    ];
    let validator = Hl7Validator::new();
    assert!(matches!(
        validator.validate_message(&segments),
        Err(Hl7Error::MissingRequiredSegment { .. })
    ));
}

#[test]
fn test_decoder_ignores_malformed_keys() {
    let segment_json = pairs(&[
        ("segment_name", "OBX"),
        ("1", "one"),
        ("notakey", "ignored"),
        ("2x", "ignored"),
        ("3[", "ignored"),
        ("3[0]x", "ignored"),
        ("4.", "ignored"),
        ("99999999999999999999999999", "ignored"),
    ]);
    let json_hl7 = JsonHl7::new(vec![segment_json]);
    assert_eq!(json_hl7._convert_json_to_hl7(), "OBX|one");
}

#[test]
fn test_round_trip_flat_encoding_stable() {
    let handler = Hl7EscapeHandler::default();
    let text = "MSH|^~\\&|APP|FAC|APP2|FAC2|20240101120000|SEC|ADT^A01^ADT_A01|MSG1|P|2.5.1|2.5.1\nPID|1||ID1^TYPE1~ID2^TYPE2||A\\F\\B^C\\R\\D||X\\X0A\\Y";
    let lines: Vec<&str> = text.split('\n').collect();

    let mut first_maps = Vec::new();
    for line in &lines {
        let seg = Hl7Segment::from_string(line, Some(&handler));
        first_maps.push(seg.to_json());
    }

    let decoder = JsonHl7::new(first_maps.clone());
    let rebuilt = decoder._convert_json_to_hl7();

    let mut second_maps = Vec::new();
    for line in rebuilt.split('\n') {
        let seg = Hl7Segment::from_string(line, Some(&handler));
        second_maps.push(seg.to_json());
    }

    assert_eq!(first_maps.len(), second_maps.len());
    for (first, second) in first_maps.iter().zip(second_maps.iter()) {
        let mut a = first.clone();
        let mut b = second.clone();
        a.sort();
        b.sort();
        assert_eq!(a, b);
    }
}
