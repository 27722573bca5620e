use slog_extlog::json::{first_mismatch, parse_json_lines, JsonNumber, JsonValue};

fn conv(v: &serde_json::Value) -> JsonValue {
    match v {
        serde_json::Value::Null => JsonValue::Null,
        serde_json::Value::Bool(b) => JsonValue::Bool(*b),
        serde_json::Value::Number(n) => JsonValue::Number(if let Some(u) = n.as_u64() {
            JsonNumber::PosInt(u)
        } else if let Some(i) = n.as_i64() {
            JsonNumber::NegInt(i)
        } else {
            JsonNumber::Float(n.as_f64().unwrap().to_bits())
        }),
        serde_json::Value::String(s) => JsonValue::Str(s.clone()),
        serde_json::Value::Array(items) => JsonValue::Array(items.iter().map(conv).collect()),
        serde_json::Value::Object(m) => {
            JsonValue::Object(m.iter().map(|(k, v)| (k.clone(), conv(v))).collect())
        }
    }
}

fn j(text: &str) -> JsonValue {
    conv(&serde_json::from_str::<serde_json::Value>(text).unwrap())
}

fn matches(actual: &JsonValue, expected: &JsonValue) -> bool {
    first_mismatch(actual, expected).is_none()
}

#[test]
fn test_assert_json_matches() {
    let v_0 = &j(r#"{}"#);
    let v_a = &j(r#"{ "a": "alpha"}"#);
    let v_b = &j(r#"{ "b": "42" }"#);
    let v_ab = &j(r#"{ "a": "alpha", "b": "42" }"#);
    let v_ab_alt = &j(r#"{ "a": "aleph", "b": "42" }"#);
    let v_b_i = &j(r#"{ "b": 42 }"#);
    let v_b_n = &j(r#"{ "b": null }"#);
    let v_b_o = &j(r#"{ "b": { "b": "42" }}"#);
    let v_b_a = &j(r#"{ "b": [ "b", "42"]}"#);
    let v_nested_1 = &j(r#"{ "a": { "aa": 42, "ab": 52 }, "b": { "bb": { "bbb": 62 }}}"#);
    let v_nested_2 = &j(r#"{ "a": { "aa": 42, "ab": 52 }, "b": { "bb": { "bbb": 62 }, "bc": 67 }, "c": 72 }"#);
    let v_array_1 = &j(r#"[99, 97, 95, [94, 93, 92, 91, []], 90]"#);
    let v_array_2 = &j(r#"[99, 97, 95, [94, 93, 92, 91, ["boo"], ["ign"]], 90, "more"]"#);

    // simple
    assert!(matches(v_ab, v_ab));

    // various matches and mismatches
    assert!(matches(v_b, v_b));
    assert!(matches(v_b_i, v_b_i));
    assert!(matches(v_b_n, v_b_n));
    assert!(matches(v_b_o, v_b_o));
    assert!(matches(v_b_a, v_b_a));
    assert!(!matches(v_b_i, v_b));
    assert!(!matches(v_b_n, v_b));
    assert!(!matches(v_b_o, v_b));
    assert!(!matches(v_b_a, v_b));
    assert!(!matches(v_ab, v_ab_alt));

    // ignore additional values
    assert!(matches(v_ab, v_0));
    assert!(matches(v_ab, v_a));
    assert!(matches(v_ab, v_b));

    // ...but not the other way around
    assert!(!matches(v_0, v_ab));
    assert!(!matches(v_a, v_ab));
    assert!(!matches(v_b, v_ab));

    // nesting objects
    assert!(matches(v_nested_2, v_nested_1));
    assert!(!matches(v_nested_1, v_nested_2));

    // nesting arrays
    assert!(matches(v_array_2, v_array_1));
    assert!(!matches(v_array_1, v_array_2));
}

#[test]
fn json_mismatch_paths() {
    assert_eq!(first_mismatch(&j(r#"{"a": 1}"#), &j(r#"{"a": 2}"#)), Some(".a".to_string()));
    assert_eq!(
        first_mismatch(&j(r#"{"a": {"b": [1, 2, 3]}}"#), &j(r#"{"a": {"b": [1, 5]}}"#)),
        Some(".a.b.1".to_string())
    );
    // The first mismatch in the order of the expected value.
    assert_eq!(
        first_mismatch(&j(r#"{"a": 1, "b": 2}"#), &j(r#"{"a": 0, "b": 0}"#)),
        Some(".a".to_string())
    );
    assert_eq!(first_mismatch(&j("1"), &j("true")), Some("".to_string()));
    // A missing member or item mismatches whatever is expected there.
    assert_eq!(first_mismatch(&j("[]"), &j("[null]")), Some(".0".to_string()));
    assert_eq!(first_mismatch(&j("{}"), &j(r#"{"b": null}"#)), Some(".b".to_string()));
    assert_eq!(first_mismatch(&j(r#"{"b": null}"#), &j(r#"{"b": null}"#)), None);
    assert_eq!(first_mismatch(&j(r#"[1,2,3,4,5,6,7,8,9,10,11]"#), &j(r#"[1,2,3,4,5,6,7,8,9,10,12]"#)), Some(".10".to_string()));
}

#[test]
fn json_numbers_compare_by_form() {
    assert!(!matches(&j("1"), &j("1.0")));
    assert!(matches(&j("0.0"), &j("-0.0")));
    assert!(matches(&j("2.5"), &j("2.5")));
    assert!(matches(&j("-0.0"), &j("0.0")));
    assert!(!matches(&j("-1.0"), &j("1.0")));
    assert!(matches(&j(r#"{"a": [1, "x", null]}"#), &j(r#"{"a": [1, "x", null]}"#)));
    assert!(!matches(&j(r#"{"a": [1]}"#), &j(r#"{"a": [1, 2]}"#)));
    assert!(!matches(&j(r#"{"a": 1}"#), &j(r#"{"b": 1}"#)));
    assert!(!matches(&j("[1]"), &j("{}")));
}

#[test]
fn parse_json_lines_reads_each_line() {
    use_parse();
}

fn use_parse() {
    let v = parse_json_lines("{\"a\": 1}\n[true, null]\r\n\"x\"").unwrap();
    assert_eq!(v.len(), 3);
    assert!(first_mismatch(&v[0], &j(r#"{"a": 1}"#)).is_none());
    assert!(first_mismatch(&v[1], &j("[true, null]")).is_none());
    assert!(first_mismatch(&v[2], &j(r#""x""#)).is_none());
    // A final newline ends the last line; it starts no empty one.
    assert_eq!(parse_json_lines("1\n2\n").unwrap().len(), 2);
    assert_eq!(parse_json_lines("").unwrap().len(), 0);
    // A line that holds no JSON value.
    assert!(parse_json_lines("1\nnot json\n3").is_none());
    assert!(parse_json_lines("1\n\n2").is_none());
}
