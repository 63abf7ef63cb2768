use hl7conv2::segments::Hl7Segment;
use hl7conv2::utils;

fn lookup<'a>(pairs: &'a [(String, String)], key: &str) -> Option<&'a String> {
    let mut found = None;
    for p in pairs {
        if p.0 == key {
            found = Some(&p.1);
        }
    }
    found
}

fn encode_message(text: &str) -> Vec<Vec<(String, String)>> {
    let hl7_string = utils::replace_eof(text.to_string());
    let lines = utils::split_segments(hl7_string);
    let mut out = Vec::new();
    for line in &lines {
        let segment = Hl7Segment::from_string(line, None);
        out.push(segment.to_json());
    }
    out
}

#[test]
fn test_full_hl7_to_json_complex_adt() {
    let hl7_content = "MSH|^~\\&|ADT1|HOSPITAL|LAB|HOSPITAL|20240101120000|SECURITY|ADT^A01^ADT_A01|MSG00001|P|2.5.1\r\nEVN|A01|20240101120000\r\nPID|1||PATID1234^5^M11^ADT1^MR^HOSPITAL~123456789^^^USA^SS~987654321^^^USSSA^SS||EVERYMAN^ADAM^A^III||19610615|M||2106-3|2222 HOME STREET^^GREENSBORO^NC^27401-1020~3333 WORK STREET^^GREENSBORO^NC^27401\r\n";
    let json_result = encode_message(hl7_content);

    assert!(!json_result.is_empty());
    assert_eq!(lookup(&json_result[0], "segment_name").unwrap(), "MSH");
    assert_eq!(lookup(&json_result[1], "segment_name").unwrap(), "EVN");
    assert_eq!(lookup(&json_result[2], "segment_name").unwrap(), "PID");

    let msh = &json_result[0];
    assert_eq!(lookup(msh, "1").unwrap(), "^~\\&");
    assert_eq!(lookup(msh, "2").unwrap(), "ADT1");
    assert_eq!(lookup(msh, "8.1").unwrap(), "ADT");
    assert_eq!(lookup(msh, "8.2").unwrap(), "A01");

    let pid = &json_result[2];
    assert_eq!(lookup(pid, "3[0].1").unwrap(), "PATID1234");
    assert_eq!(lookup(pid, "3[0].2").unwrap(), "5");
    assert_eq!(lookup(pid, "3[1].1").unwrap(), "123456789");
    assert_eq!(lookup(pid, "3[2].1").unwrap(), "987654321");

    assert_eq!(lookup(pid, "5.1").unwrap(), "EVERYMAN");
    assert_eq!(lookup(pid, "5.2").unwrap(), "ADAM");
    assert_eq!(lookup(pid, "5.3").unwrap(), "A");
    assert_eq!(lookup(pid, "5.4").unwrap(), "III");

    assert_eq!(lookup(pid, "11[0].1").unwrap(), "2222 HOME STREET");
    assert_eq!(lookup(pid, "11[0].3").unwrap(), "GREENSBORO");
    assert_eq!(lookup(pid, "11[0].4").unwrap(), "NC");
    assert_eq!(lookup(pid, "11[1].1").unwrap(), "3333 WORK STREET");
}

#[test]
fn test_full_hl7_to_json_complex_oru() {
    let hl7_content = "MSH|^~\\&|LAB|HOSPITAL|EHR|HOSPITAL|20240102080000|SECURITY|ORU^R01^ORU_R01|MSG00002|P|2.5.1\nPID|1||PATID1234||EVERYMAN^ADAM\nOBR|1||LAB001|PANEL^Metabolic Panel\nOBX|1|NM|GLU^Glucose Lvl||mg/dL|65-99^mg/dL|H\nNTE|1|L|Patient was fasting for 12 hours prior to test\nOBX|2|NM|NA^Sodium||mmol/L|136-145^mmol/L|N\nNTE|2|L|Specimen slightly hemolyzed\nOBX|3|NM|K^Potassium||mmol/L|3.5-5.1^mmol/L|N\nOBX|4|NM|CL^Chloride||mmol/L|98-107^mmol/L|N\nOBX|5|NM|CO2^Carbon Dioxide||mmol/L|21-32^mmol/L|N\nOBX|6|NM|BUN^Urea Nitrogen||mg/dL|7-18^mg/dL|N\nOBX|7|NM|CREAT^Creatinine||mg/dL|0.6-1.3^mg/dL|N\nOBX|8|NM|CA^Calcium||mg/dL|8.4-10.2^mg/dL|N";
    let json_result = encode_message(hl7_content);

    assert!(!json_result.is_empty());
    assert_eq!(lookup(&json_result[0], "segment_name").unwrap(), "MSH");

    let obx_segments: Vec<&Vec<(String, String)>> = json_result
        .iter()
        .filter(|seg| lookup(seg, "segment_name").unwrap() == "OBX")
        .collect();

    assert_eq!(obx_segments.len(), 8);

    assert_eq!(lookup(obx_segments[0], "3.1").unwrap(), "GLU");
    assert_eq!(lookup(obx_segments[0], "3.2").unwrap(), "Glucose Lvl");
    assert_eq!(lookup(obx_segments[0], "5").unwrap(), "mg/dL");
    assert_eq!(lookup(obx_segments[0], "6.1").unwrap(), "65-99");

    assert_eq!(lookup(obx_segments[1], "3.1").unwrap(), "NA");
    assert_eq!(lookup(obx_segments[1], "3.2").unwrap(), "Sodium");

    let nte_segments: Vec<&Vec<(String, String)>> = json_result
        .iter()
        .filter(|seg| lookup(seg, "segment_name").unwrap() == "NTE")
        .collect();

    assert_eq!(nte_segments.len(), 2);
    assert_eq!(
        lookup(nte_segments[0], "3").unwrap(),
        "Patient was fasting for 12 hours prior to test"
    );
}

#[test]
fn test_full_hl7_to_json_lipid_panel() {
    let hl7_content = "MSH|^~\\&|LAB|HOSPITAL|EHR|HOSPITAL|20240103090000|SECURITY|ORU^R01^ORU_R01|MSG00003|P|2.5.1\nPID|1||PATID5678||LASTNAME^FIRSTNAME\nOBR|1||LIPID|LIPID^Lipid Panel\nOBX|1|NM|13457-7^LDL (CALCULATED)||49.000|mg/dL|N\nOBX|2|NM|2093-3^CHOLESTEROL||138.000|mg/dL|N\nOBX|3|NM|2085-9^HDL||24.000|mg/dL|L\nOBX|4|NM|2571-8^TRIGLYCERIDES||324.000|mg/dL|H";
    let json_result = encode_message(hl7_content);

    assert!(!json_result.is_empty());

    let pid = &json_result[1];
    assert_eq!(lookup(pid, "segment_name").unwrap(), "PID");
    assert_eq!(lookup(pid, "5.1").unwrap(), "LASTNAME");
    assert_eq!(lookup(pid, "5.2").unwrap(), "FIRSTNAME");

    let obx_segments: Vec<&Vec<(String, String)>> = json_result
        .iter()
        .filter(|seg| lookup(seg, "segment_name").unwrap() == "OBX")
        .collect();

    assert_eq!(obx_segments.len(), 4);

    assert_eq!(lookup(obx_segments[0], "3.1").unwrap(), "13457-7");
    assert_eq!(lookup(obx_segments[0], "3.2").unwrap(), "LDL (CALCULATED)");
    assert_eq!(lookup(obx_segments[0], "5").unwrap(), "49.000");

    assert_eq!(lookup(obx_segments[3], "3.1").unwrap(), "2571-8");
    assert_eq!(lookup(obx_segments[3], "3.2").unwrap(), "TRIGLYCERIDES");
    assert_eq!(lookup(obx_segments[3], "5").unwrap(), "324.000");
}

#[test]
fn test_full_hl7_to_json_edge_case_repetitions() {
    let hl7_content = "MSH|^~\\&|SYS|HOSPITAL|LAB|HOSPITAL|20240104100000|SECURITY|ADT^A01^ADT_A01|MSG00004|P|2.5\nPID|1||12345~67890~ABCDE||DOE^JOHN^MIDDLE^JR^DR||||||123 MAIN ST~APT 4B~BUILDING C^^CITY^ST\nOBX|1|TX|NOTE||Value1~Value2~Value3";
    let json_result = encode_message(hl7_content);

    assert!(!json_result.is_empty());

    let pid = json_result
        .iter()
        .find(|s| lookup(s, "segment_name").map(|n| n.as_str()) == Some("PID"));
    assert!(pid.is_some(), "PID segment not found");
    let pid = pid.unwrap();

    assert_eq!(
        lookup(pid, "3[0]").expect("Field 3[0] not found in PID segment"),
        "12345"
    );
    assert_eq!(
        lookup(pid, "3[1]").expect("Field 3[1] not found in PID segment"),
        "67890"
    );
    assert_eq!(
        lookup(pid, "3[2]").expect("Field 3[2] not found in PID segment"),
        "ABCDE"
    );

    assert_eq!(lookup(pid, "5.1").unwrap(), "DOE");
    assert_eq!(lookup(pid, "5.2").unwrap(), "JOHN");
    assert_eq!(lookup(pid, "5.3").unwrap(), "MIDDLE");
    assert_eq!(lookup(pid, "5.4").unwrap(), "JR");
    assert_eq!(lookup(pid, "5.5").unwrap(), "DR");

    assert_eq!(
        lookup(pid, "11[0]").expect("Field 11[0] not found"),
        "123 MAIN ST"
    );
    assert_eq!(lookup(pid, "11[1]").expect("Field 11[1] not found"), "APT 4B");
    assert_eq!(
        lookup(pid, "11[2].1").expect("Field 11[2].1 not found"),
        "BUILDING C"
    );
    assert_eq!(lookup(pid, "11[2].3").expect("Field 11[2].3 not found"), "CITY");
    assert_eq!(lookup(pid, "11[2].4").expect("Field 11[2].4 not found"), "ST");

    let obx = json_result.iter().find(|s| {
        lookup(s, "segment_name").map(|n| n.as_str()) == Some("OBX")
            && lookup(s, "1").map(|n| n.as_str()) == Some("1")
    });
    assert!(obx.is_some(), "OBX segment with ID 1 not found");
    let obx = obx.unwrap();
    assert_eq!(lookup(obx, "5[0]").unwrap(), "Value1");
    assert_eq!(lookup(obx, "5[1]").unwrap(), "Value2");
    assert_eq!(lookup(obx, "5[2]").unwrap(), "Value3");
}
