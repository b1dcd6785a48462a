use eigen_ai_avs_example::llm::{get_member, parse_answer, parse_spelling_correction, JsonNumber, JsonValue, LlmError};

fn parse_error(r: Result<eigen_ai_avs_example::jobs::github::SpellingCorrection, LlmError>) -> String {
    match r {
        Err(LlmError::ParseError(m)) => m,
        _ => panic!("expected a parse error"),
    }
}

#[test]
fn test_parse_spelling_correction() {
    let llm_response = r#"{
            "file_path": "src/main.rs",
            "start_line": 1,
            "end_line": 10,
            "corrections": [
                {
                    "line_number": 3,
                    "original_text": "exmaple",
                    "corrected_text": "example",
                    "start_column": 10,
                    "end_column": 17,
                    "confidence": 0.95
                }
            ]
        }"#;

    let result = parse_spelling_correction(llm_response, "src/main.rs".to_string(), 1, 10).unwrap();

    assert_eq!(result.file_path, "src/main.rs");
    assert_eq!(result.start_line, 1);
    assert_eq!(result.end_line, 10);
    assert_eq!(result.corrections.len(), 1);

    let correction = &result.corrections[0];
    assert_eq!(correction.line_number, 3);
    assert_eq!(correction.original_text, "exmaple");
    assert_eq!(correction.corrected_text, "example");
    assert_eq!(correction.start_column, 10);
    assert_eq!(correction.end_column, 17);
    match correction.confidence {
        JsonNumber::Float(bits) => assert_eq!(f64::from_bits(bits), 0.95),
        _ => panic!("confidence should be a float"),
    }
}

#[test]
fn test_parse_invalid_json() {
    let result = parse_spelling_correction("invalid json", "test.rs".to_string(), 1, 10);

    assert!(matches!(result, Err(LlmError::ParseError(_))));
}

#[test]
fn parse_error_message_carries_the_reader_error() {
    let reader_error = serde_json::from_str::<serde_json::Value>("invalid json").unwrap_err().to_string();
    let m = parse_error(parse_spelling_correction("invalid json", "t.rs".to_string(), 1, 2));
    assert_eq!(m, format!("Failed to parse JSON: {}", reader_error));
}

#[test]
fn parse_without_corrections_array_gives_none() {
    for text in ["{}", "[]", "3", "{\"corrections\": 7}", "{\"corrections\": {}}"] {
        let r = parse_spelling_correction(text, "f.rs".to_string(), 4, 9).unwrap();
        assert!(r.corrections.is_empty(), "answer {}", text);
        assert_eq!((r.start_line, r.end_line), (4, 9));
    }
}

#[test]
fn parse_reports_the_first_bad_field() {
    let cases = [
        (r#"{"corrections":[{}]}"#, "Missing or invalid 'line_number'"),
        (r#"{"corrections":[{"line_number":-1}]}"#, "Missing or invalid 'line_number'"),
        (r#"{"corrections":[{"line_number":1}]}"#, "Missing 'original_text'"),
        (r#"{"corrections":[{"line_number":1,"original_text":"a"}]}"#, "Missing 'corrected_text'"),
        (r#"{"corrections":[{"line_number":1,"original_text":"a","corrected_text":"b","start_column":1.5}]}"#, "Missing or invalid 'start_column'"),
        (r#"{"corrections":[{"line_number":1,"original_text":"a","corrected_text":"b","start_column":0}]}"#, "Missing or invalid 'end_column'"),
        (r#"{"corrections":[{"line_number":1,"original_text":"a","corrected_text":"b","start_column":0,"end_column":1,"confidence":"high"}]}"#, "Missing or invalid 'confidence'"),
        (r#"{"corrections":[5]}"#, "Missing or invalid 'line_number'"),
    ];
    for (text, expected) in cases {
        assert_eq!(parse_error(parse_spelling_correction(text, "f.rs".to_string(), 1, 1)), expected, "answer {}", text);
    }
}

#[test]
fn parse_stops_at_the_first_bad_entry() {
    let text = r#"{"corrections":[
        {"line_number":1,"original_text":"a","corrected_text":"b","start_column":0,"end_column":1,"confidence":1},
        {"line_number":2},
        {"original_text":"c"}
    ]}"#;
    assert_eq!(parse_error(parse_spelling_correction(text, "f.rs".to_string(), 1, 1)), "Missing 'original_text'");
}

#[test]
fn parse_keeps_every_correction_in_order() {
    let text = r#"{"corrections":[
        {"line_number":1,"original_text":"teh","corrected_text":"the","start_column":0,"end_column":3,"confidence":1},
        {"line_number":7,"original_text":"recieve","corrected_text":"receive","start_column":4,"end_column":11,"confidence":-2}
    ]}"#;
    let r = parse_spelling_correction(text, "doc.md".to_string(), 1, 20).unwrap();
    assert_eq!(r.corrections.len(), 2);
    assert_eq!(r.corrections[0].original_text, "teh");
    assert_eq!(r.corrections[0].confidence, JsonNumber::PosInt(1));
    assert_eq!(r.corrections[1].line_number, 7);
    assert_eq!(r.corrections[1].corrected_text, "receive");
    assert_eq!(r.corrections[1].confidence, JsonNumber::NegInt(-2));
}

#[test]
fn get_member_reads_object_members_only() {
    let v = JsonValue::Object(vec![
        ("a".to_string(), JsonValue::Number(JsonNumber::PosInt(1))),
        ("b".to_string(), JsonValue::String("x".to_string())),
    ]);
    assert!(matches!(get_member(&v, "a"), Some(JsonValue::Number(JsonNumber::PosInt(1)))));
    assert!(get_member(&v, "c").is_none());
    assert!(get_member(&JsonValue::Array(vec![]), "a").is_none());
}

#[test]
fn parse_answer_takes_a_read_value_or_the_reader_error() {
    let m = parse_error(parse_answer(Err("oops".to_string()), "t.rs".to_string(), 1, 2));
    assert_eq!(m, "Failed to parse JSON: oops");
    let answer = JsonValue::Object(vec![("corrections".to_string(), JsonValue::Array(vec![]))]);
    let r = parse_answer(Ok(answer), "t.rs".to_string(), 3, 4).unwrap();
    assert!(r.corrections.is_empty());
    assert_eq!((r.file_path.as_str(), r.start_line, r.end_line), ("t.rs", 3, 4));
}

#[test]
fn parse_reads_numbers_by_kind() {
    let text = r#"{"corrections":[{"line_number":18446744073709551615,"original_text":"a","corrected_text":"b","start_column":0,"end_column":1,"confidence":-9223372036854775808}]}"#;
    let r = parse_spelling_correction(text, "f.rs".to_string(), 1, 1).unwrap();
    assert_eq!(r.corrections[0].line_number as u64, u64::MAX);
    assert_eq!(r.corrections[0].confidence, JsonNumber::NegInt(i64::MIN));
}
