use hl7conv2::json_hl7::JsonHl7;

fn pairs(items: &[(&str, &str)]) -> Vec<(String, String)> {
    let mut v = Vec::new();
    for (k, val) in items {
        v.push((k.to_string(), val.to_string()));
    }
    v
}

#[test]
fn test_json_to_hl7_with_repetitions() {
    let segment_json = pairs(&[
        ("segment_name", "OBX"),
        ("1", "1"),
        ("2", "TX"),
        ("3[0]", "HbA1c"),
        ("3[1]", "CBC"),
        ("3[2]", "Glucose"),
        ("4", ""),
        ("5", "Result"),
    ]);

    let json_hl7 = JsonHl7::new(vec![segment_json]);
    let hl7_string = json_hl7._convert_json_to_hl7();

    assert_eq!(hl7_string, "OBX|1|TX|HbA1c~CBC~Glucose||Result");
}

#[test]
fn test_json_to_hl7_with_repetitions_and_components() {
    let segment_json = pairs(&[
        ("segment_name", "OBX"),
        ("1", "1"),
        ("2", "TX"),
        ("3[0].1", "HbA1c"),
        ("3[0].2", "Test1"),
        ("3[1].1", "CBC"),
        ("3[1].2", "Test2"),
        ("4", ""),
        ("5", "Result"),
    ]);

    let json_hl7 = JsonHl7::new(vec![segment_json]);
    let hl7_string = json_hl7._convert_json_to_hl7();

    assert_eq!(hl7_string, "OBX|1|TX|HbA1c^Test1~CBC^Test2||Result");
}

#[test]
fn test_json_to_hl7_roundtrip() {
    let original_hl7 = "OBX|1|TX|HbA1c^Test1~CBC^Test2||Result";

    let segment_json = pairs(&[
        ("segment_name", "OBX"),
        ("1", "1"),
        ("2", "TX"),
        ("3[0].1", "HbA1c"),
        ("3[0].2", "Test1"),
        ("3[1].1", "CBC"),
        ("3[1].2", "Test2"),
        ("4", ""),
        ("5", "Result"),
    ]);

    let json_hl7 = JsonHl7::new(vec![segment_json]);
    let converted_hl7 = json_hl7._convert_json_to_hl7();

    assert_eq!(converted_hl7, original_hl7);
}

#[test]
fn test_json_to_hl7_mixed_repetitions_and_regular_fields() {
    let segment_json = pairs(&[
        ("segment_name", "OBX"),
        ("1", "1"),
        ("2", "TX"),
        ("3[0]", "HbA1c"),
        ("3[1]", "CBC"),
        ("4.1", "Component1"),
        ("4.2", "Component2"),
        ("5", "Result"),
    ]);

    let json_hl7 = JsonHl7::new(vec![segment_json]);
    let hl7_string = json_hl7._convert_json_to_hl7();

    assert_eq!(
        hl7_string,
        "OBX|1|TX|HbA1c~CBC|Component1^Component2|Result"
    );
}

#[test]
fn test_json_to_hl7_escaping_component_separator() {
    let segment_json = pairs(&[
        ("segment_name", "PID"),
        ("1", "1"),
        ("5.1", "DOE^JOHN"),
        ("5.2", "JOHN"),
    ]);

    let json_hl7 = JsonHl7::new(vec![segment_json]);
    let hl7_string = json_hl7._convert_json_to_hl7();

    assert_eq!(hl7_string, "PID|1||||DOE\\S\\JOHN^JOHN");
}

#[test]
fn test_json_to_hl7_escaping_field_separator() {
    let segment_json = pairs(&[("segment_name", "PID"), ("1", "1"), ("5.1", "DOE|JOHN")]);

    let json_hl7 = JsonHl7::new(vec![segment_json]);
    let hl7_string = json_hl7._convert_json_to_hl7();

    assert_eq!(hl7_string, "PID|1||||DOE\\F\\JOHN");
}

#[test]
fn test_json_to_hl7_escaping_repetition_separator() {
    let segment_json = pairs(&[("segment_name", "PID"), ("1", "1"), ("5.1", "DOE~JOHN")]);

    let json_hl7 = JsonHl7::new(vec![segment_json]);
    let hl7_string = json_hl7._convert_json_to_hl7();

    assert_eq!(hl7_string, "PID|1||||DOE\\R\\JOHN");
}

#[test]
fn test_json_to_hl7_escaping_escape_character() {
    let segment_json = pairs(&[("segment_name", "PID"), ("1", "1"), ("5.1", "DOE\\JOHN")]);

    let json_hl7 = JsonHl7::new(vec![segment_json]);
    let hl7_string = json_hl7._convert_json_to_hl7();

    assert_eq!(hl7_string, "PID|1||||DOE\\\\JOHN");
}

#[test]
fn test_json_to_hl7_escaping_subcomponent_separator() {
    let segment_json = pairs(&[("segment_name", "PID"), ("1", "1"), ("5.1", "DOE&JOHN")]);

    let json_hl7 = JsonHl7::new(vec![segment_json]);
    let hl7_string = json_hl7._convert_json_to_hl7();

    assert_eq!(hl7_string, "PID|1||||DOE\\T\\JOHN");
}

#[test]
fn test_json_to_hl7_escaping_multiple_special_chars() {
    let segment_json = pairs(&[
        ("segment_name", "PID"),
        ("1", "1"),
        ("5.1", "DOE^JOHN|SMITH~BROWN\\JONES&WILSON"),
    ]);

    let json_hl7 = JsonHl7::new(vec![segment_json]);
    let hl7_string = json_hl7._convert_json_to_hl7();

    assert_eq!(
        hl7_string,
        "PID|1||||DOE\\S\\JOHN\\F\\SMITH\\R\\BROWN\\\\JONES\\T\\WILSON"
    );
}

#[test]
fn test_json_to_hl7_escaping_with_repetitions() {
    let segment_json = pairs(&[
        ("segment_name", "PID"),
        ("1", "1"),
        ("3[0]", "ID1^TYPE1"),
        ("3[1]", "ID2^TYPE2"),
    ]);

    let json_hl7 = JsonHl7::new(vec![segment_json]);
    let hl7_string = json_hl7._convert_json_to_hl7();

    assert_eq!(hl7_string, "PID|1||ID1\\S\\TYPE1~ID2\\S\\TYPE2");
}

#[test]
fn test_json_to_hl7_escaping_with_components() {
    let segment_json = pairs(&[
        ("segment_name", "PID"),
        ("1", "1"),
        ("5.1", "DOE"),
        ("5.2", "JOHN^MIDDLE"),
        ("5.3", "A"),
    ]);

    let json_hl7 = JsonHl7::new(vec![segment_json]);
    let hl7_string = json_hl7._convert_json_to_hl7();

    assert_eq!(hl7_string, "PID|1||||DOE^JOHN\\S\\MIDDLE^A");
}

#[test]
fn test_json_to_hl7_escaping_newlines_and_spaces() {
    let segment_json = pairs(&[
        ("segment_name", "NTE"),
        ("1", "1"),
        ("2", "L"),
        ("3", "Line1\nLine2\rLine3\r\n  Spaces  \tTab"),
    ]);

    let json_hl7 = JsonHl7::new(vec![segment_json]);
    let hl7_string = json_hl7._convert_json_to_hl7();

    assert_eq!(hl7_string, "NTE|1|L|Line1\\X0A\\Line2\\X0D\\Line3\\X0D\\\\X0A\\\\X20\\\\X20\\Spaces\\X20\\\\X20\\\\X09\\Tab");
}
