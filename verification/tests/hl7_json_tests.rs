use hl7conv2::hl7_json::Hl7Json;

fn lookup<'a>(pairs: &'a [(String, String)], key: &str) -> Option<&'a String> {
    let mut found = None;
    for p in pairs {
        if p.0 == key {
            found = Some(&p.1);
        }
    }
    found
}

fn create_test_hl7_json() -> Hl7Json {
    let hl7_string = "MSH|^~\\&|ADT1|HOSPITAL|LAB|HOSPITAL|20240101120000|SECURITY|ADT^A01^ADT_A01|MSG00001|T|2.5.1\nEVN||20240101120000||\nPID|1||PATID1234^5^M11^ADT1^MR^HOSPITAL||EVERYMAN^ADAM^A^III||19610615|M||2106-3|2222 HOME STREET^^GREENSBORO^NC^27401-1020".to_string();
    Hl7Json::new(hl7_string, None, None, None)
}

#[test]
fn test_new() {
    let hl7_string = "MSH|^~\\&|ADT1|HOSPITAL|LAB|HOSPITAL|20240101120000|SECURITY|ADT^A01^ADT_A01|MSG00001|T|2.5.1".to_string();
    let hl7_json = Hl7Json::new(hl7_string.clone(), None, None, None);
    assert_eq!(hl7_json.hl7_string, hl7_string);
}

#[test]
fn test_split_hl7_seg_to_json() {
    let hl7_json = create_test_hl7_json();
    let result = hl7_json._split_hl7_seg_to_json("MSH|^~\\&|ADT1|HOSPITAL|LAB|HOSPITAL|20240101120000|SECURITY|ADT^A01^ADT_A01|MSG00001|T|2.5.1");

    let expected: Vec<(String, String)> = [
        ("segment_name", "MSH"),
        ("1", "^~\\&"),
        ("2", "ADT1"),
        ("3", "HOSPITAL"),
        ("4", "LAB"),
        ("5", "HOSPITAL"),
        ("6", "20240101120000"),
        ("7", "SECURITY"),
        ("8.1", "ADT"),
        ("8.2", "A01"),
        ("8.3", "ADT_A01"),
        ("9", "MSG00001"),
        ("10", "T"),
        ("11", "2.5.1"),
    ]
    .iter()
    .map(|(k, v)| (k.to_string(), v.to_string()))
    .collect();

    assert_eq!(result, expected);
}

#[test]
fn test_convert_hl7_to_json() {
    let hl7_json = create_test_hl7_json();
    let result = hl7_json._convert_hl7_to_json().unwrap();

    assert_eq!(result.len(), 3);
    let msh_segment = &result[0];
    assert_eq!(lookup(msh_segment, "segment_name"), Some(&"MSH".to_string()));
    assert_eq!(lookup(msh_segment, "2"), Some(&"ADT1".to_string()));

    let evn_segment = &result[1];
    assert_eq!(lookup(evn_segment, "segment_name"), Some(&"EVN".to_string()));
    let pid_segment = &result[2];
    assert_eq!(lookup(pid_segment, "segment_name"), Some(&"PID".to_string()));
    assert_eq!(lookup(pid_segment, "3.1"), Some(&"PATID1234".to_string()));
}

#[test]
fn test_convert_hl7_to_json_empty() {
    let hl7_json = Hl7Json::new("".to_string(), None, None, None);
    let result = hl7_json._convert_hl7_to_json().unwrap();
    assert_eq!(result.len(), 1);
    assert_eq!(lookup(&result[0], "segment_name"), Some(&"".to_string()));
}

#[test]
fn test_convert_hl7_to_json_single_segment() {
    let hl7_json = Hl7Json::new("MSH|^~\\&|ADT1|HOSPITAL".to_string(), None, None, None);
    let result = hl7_json._convert_hl7_to_json().unwrap();
    assert_eq!(result.len(), 1);
    assert_eq!(lookup(&result[0], "segment_name"), Some(&"MSH".to_string()));
    assert_eq!(lookup(&result[0], "2"), Some(&"ADT1".to_string()));
}

#[test]
fn test_convert_hl7_to_json_with_validation_failure() {
    let hl7_json = Hl7Json::new(
        "MSH|^~\\&|ADT1".to_string(),
        Some(true),
        Some(true),
        None,
    );
    let result = hl7_json._convert_hl7_to_json();
    assert!(result.is_err());
}

#[test]
fn test_convert_hl7_to_json_with_escaping() {
    let hl7_json = Hl7Json::new(
        "PID|1||||DOE\\F\\JOHN".to_string(),
        None,
        None,
        Some(true),
    );
    let result = hl7_json._convert_hl7_to_json().unwrap();
    assert_eq!(lookup(&result[0], "5"), Some(&"DOE|JOHN".to_string()));
}
