use slog_extlog::attrs::{LogLevel, StatTriggerAction};
use slog_extlog::derive_input::{
    collate_field_references, collect_stat_triggers, parse_fixed_fields, parse_log_details,
    parse_stat_trigger, AttrParam, FieldAttr, FieldRefKind, FieldReferences, ParamValue,
    TriggerValue,
};

fn s(name: &str, v: &str) -> AttrParam {
    AttrParam { name: name.to_string(), value: ParamValue::Str(v.to_string()) }
}

fn int_param(name: &str, digits: &str) -> AttrParam {
    AttrParam { name: name.to_string(), value: ParamValue::Int(digits.to_string()) }
}

fn p(name: &str, value: ParamValue) -> AttrParam {
    AttrParam { name: name.to_string(), value }
}

fn no_refs() -> FieldReferences {
    FieldReferences { stat_group_refs: vec![], bucket_by_ref: vec![] }
}

fn err<T: std::fmt::Debug>(r: Result<T, String>) -> String {
    r.unwrap_err()
}

#[test]
fn log_details_basic() {
    let d = parse_log_details(&vec![vec![
        s("Id", "123"),
        s("Text", "This is a basic log"),
        s("Level", "Warning"),
    ]])
    .unwrap();
    assert_eq!(d.id, 123);
    assert_eq!(d.text, "This is a basic log");
    assert_eq!(d.level, LogLevel::Warning);
}

#[test]
fn log_details_integer_id_and_info_level() {
    let d = parse_log_details(&vec![vec![int_param("Id", "456"), s("Level", "Info"), s("Text", "t")]]).unwrap();
    assert_eq!(d.id, 456);
    assert_eq!(d.level, LogLevel::Info);
}

#[test]
fn log_details_needs_exactly_one_attribute() {
    assert_eq!(err(parse_log_details(&vec![])), "Unable to find LogDetails attribute");
    let one = vec![s("Id", "1"), s("Text", "t"), s("Level", "Info")];
    assert_eq!(err(parse_log_details(&vec![one.clone(), one])), "Multiple LogDetails attributes found");
}

#[test]
fn log_details_errors() {
    let cases: Vec<(Vec<AttrParam>, &str)> = vec![
        (vec![s("Id", "1"), s("Id", "2")], "Id attribute passed twice in LogDetails"),
        (vec![p("Id", ParamValue::Absent)], "Id parameter of LogDetails needs a value"),
        (vec![p("Id", ParamValue::NotLit)], "Id parameter of LogDetails needs to be a literal"),
        (
            vec![p("Id", ParamValue::OtherLit)],
            "Id parameter of LogDetails needs to be an unsigned integer (literal or string representation",
        ),
        (
            vec![s("Id", "-1")],
            "Invalid format for LogDetails - Id attribute must be an unsigned integer",
        ),
        (vec![s("Level", "Loud")], "Invalid log level provided: Loud"),
        (vec![int_param("Level", "3")], "Level parameter of LogDetails must be a string"),
        (vec![s("Level", "Info"), s("Level", "Info")], "Level attribute passed twice in LogDetails"),
        (vec![p("Text", ParamValue::Absent)], "Text parameter of LogDetails needs a value"),
        (vec![s("Colour", "red")], "Unexpected key 'Colour' in LogDetails attribute"),
        (vec![s("Id", "1"), s("Text", "t")], "No Level provided in LogDetails"),
        (vec![s("Id", "1"), s("Level", "Info")], "No Text provided in LogDetails"),
        (vec![s("Level", "Info"), s("Text", "t")], "No Id provided in LogDetails"),
    ];
    for (params, msg) in cases {
        assert_eq!(err(parse_log_details(&vec![params])), msg);
    }
}

#[test]
fn log_details_first_error_wins() {
    let params = vec![s("Colour", "red"), s("Id", "1"), s("Id", "2")];
    assert_eq!(err(parse_log_details(&vec![params])), "Unexpected key 'Colour' in LogDetails attribute");
}

#[test]
fn fixed_fields_in_order() {
    let expected =
        vec![("field".to_string(), "Foo".to_string()), ("Answer".to_string(), "Hello".to_string())];
    let r = parse_fixed_fields(&vec![vec![s("field", "Foo"), s("Answer", "Hello")]]).unwrap();
    assert_eq!(r, expected);
    // The same fields spread over two attributes.
    let r2 = parse_fixed_fields(&vec![vec![s("field", "Foo")], vec![], vec![s("Answer", "Hello")]]).unwrap();
    assert_eq!(r2, expected);
    assert_eq!(parse_fixed_fields(&vec![]).unwrap(), vec![]);
}

#[test]
fn fixed_fields_errors() {
    assert_eq!(
        err(parse_fixed_fields(&vec![vec![s("ok", "1")], vec![p("key", ParamValue::Absent)]])),
        "Field \"key\" in FixedFields must have a value"
    );
    assert_eq!(
        err(parse_fixed_fields(&vec![vec![int_param("key", "4")]])),
        "Field \"key\" in FixedFields must have a literal string value"
    );
}

fn group(field: &str, stat: &str) -> FieldAttr {
    FieldAttr { field: field.to_string(), kind: FieldRefKind::StatGroup, params: vec![s("StatName", stat)] }
}

fn bucket(field: &str, stat: &str) -> FieldAttr {
    FieldAttr { field: field.to_string(), kind: FieldRefKind::BucketBy, params: vec![s("StatName", stat)] }
}

#[test]
fn field_references_collated() {
    let refs = collate_field_references(&vec![
        group("name", "test_double_grouped"),
        group("error", "test_double_grouped"),
        group("name", "test_double_grouped"),
        bucket("bucket_value", "test_bucket_counter"),
        group("user", "other"),
    ])
    .unwrap();
    assert_eq!(
        refs.stat_group_refs,
        vec![
            ("test_double_grouped".to_string(), vec!["name".to_string(), "error".to_string()]),
            ("other".to_string(), vec!["user".to_string()]),
        ]
    );
    assert_eq!(refs.bucket_by_ref, vec![("test_bucket_counter".to_string(), "bucket_value".to_string())]);
}

#[test]
fn field_references_errors() {
    assert_eq!(
        err(collate_field_references(&vec![bucket("a", "s"), bucket("b", "s")])),
        "Multiple `BucketBy` attributes found for `s`"
    );
    let wrong_key = FieldAttr { field: "a".to_string(), kind: FieldRefKind::StatGroup, params: vec![s("Name", "s")] };
    assert_eq!(
        err(collate_field_references(&vec![wrong_key])),
        "Unrecognised parameter 'Name' in StatGroup attribute"
    );
    let none = FieldAttr { field: "a".to_string(), kind: FieldRefKind::BucketBy, params: vec![] };
    assert_eq!(err(collate_field_references(&vec![none])), "No `StatName` parameter provided");
    let absent = FieldAttr {
        field: "a".to_string(),
        kind: FieldRefKind::BucketBy,
        params: vec![p("StatName", ParamValue::Absent)],
    };
    assert_eq!(err(collate_field_references(&vec![absent])), "StatName parameter needs a value");
    let not_str = FieldAttr {
        field: "a".to_string(),
        kind: FieldRefKind::StatGroup,
        params: vec![int_param("StatName", "1")],
    };
    assert_eq!(err(collate_field_references(&vec![not_str])), "StatName parameter must be a string literal");
}

#[test]
fn stat_trigger_with_groups_and_bucket() {
    let refs = collate_field_references(&vec![
        group("name", "test_bucket_counter_grouped_freq"),
        group("error", "test_bucket_counter_grouped_freq"),
        bucket("floating", "test_bucket_counter_grouped_freq"),
    ])
    .unwrap();
    let t = parse_stat_trigger(
        &vec![
            s("StatName", "test_bucket_counter_grouped_freq"),
            s("Action", "Incr"),
            int_param("Value", "1"),
            s("Condition", "self.error > 0"),
        ],
        &refs,
    )
    .unwrap();
    assert_eq!(t.stat_name, "test_bucket_counter_grouped_freq");
    assert_eq!(t.action, StatTriggerAction::Increment);
    assert_eq!(t.value, TriggerValue::Literal(1));
    assert_eq!(t.condition, Some("self.error > 0".to_string()));
    assert_eq!(t.field_groups, vec!["name".to_string(), "error".to_string()]);
    assert_eq!(t.bucket_by, Some("floating".to_string()));
    assert!(t.fixed_groups.is_empty());
}

#[test]
fn stat_trigger_value_from_and_fixed_groups() {
    let t = parse_stat_trigger(
        &vec![
            s("StatName", "test_double_grouped"),
            s("Action", "SetVal"),
            s("ValueFrom", "self.bytes"),
            s("FixedGroups", "name=foo,error=23"),
            s("FixedGroups", "error=42"),
        ],
        &no_refs(),
    )
    .unwrap();
    assert_eq!(t.action, StatTriggerAction::SetValue);
    assert_eq!(t.value, TriggerValue::Expr("self.bytes".to_string()));
    assert_eq!(t.condition, None);
    assert_eq!(
        t.fixed_groups,
        vec![("name".to_string(), "foo".to_string()), ("error".to_string(), "42".to_string())]
    );
    assert!(t.field_groups.is_empty());
    assert_eq!(t.bucket_by, None);
}

#[test]
fn stat_trigger_negative_string_value() {
    let t = parse_stat_trigger(
        &vec![s("StatName", "x"), s("Action", "Decr"), s("Value", "-3")],
        &no_refs(),
    )
    .unwrap();
    assert_eq!(t.value, TriggerValue::Literal(-3));
    assert_eq!(t.action, StatTriggerAction::Decrement);
}

#[test]
fn stat_trigger_errors() {
    let cases: Vec<(Vec<AttrParam>, &str)> = vec![
        (vec![s("Action", "Incr"), int_param("Value", "1")], "StatTrigger missing value for StatName"),
        (vec![s("StatName", "x"), int_param("Value", "1")], "StatTrigger missing value for Action"),
        (vec![s("StatName", "x"), s("Action", "Incr")], "StatTrigger missing value for Value or ValueFrom"),
        (vec![s("Action", "Add")], "Unknown StatTrigger action Add"),
        (vec![p("Value", ParamValue::OtherLit)], "Invalid parameter for `Value` in `StatTrigger`"),
        (vec![s("Value", "1.5")], "Invalid number for `Value` in `StatTrigger`: 1.5"),
        (vec![int_param("Value", "9223372036854775808")], "Invalid number for `Value` in `StatTrigger`: 9223372036854775808"),
        (vec![p("Value", ParamValue::NotLit)], "Value parameter of StatTrigger must be a literal"),
        (vec![p("StatName", ParamValue::Absent)], "StatName parameter of StatTrigger needs a value"),
        (vec![int_param("Condition", "1")], "Condition parameter of StatTrigger must be a string literal"),
        (vec![s("FixedGroups", "name")], "Invalid format for FixedGroups"),
        (vec![s("Colour", "red")], "Unrecognised parameter `Colour` in StatTrigger attribute"),
    ];
    for (params, msg) in cases {
        assert_eq!(err(parse_stat_trigger(&params, &no_refs())), msg);
    }
}

#[test]
fn collect_stat_triggers_in_order_and_first_error() {
    let a = vec![s("StatName", "first"), s("Action", "Incr"), int_param("Value", "1")];
    let b = vec![s("StatName", "second"), s("Action", "None"), int_param("Value", "0")];
    let ts = collect_stat_triggers(&vec![a.clone(), b], &no_refs()).unwrap();
    assert_eq!(ts.len(), 2);
    assert_eq!(ts[0].stat_name, "first");
    assert_eq!(ts[1].stat_name, "second");
    assert_eq!(ts[1].action, StatTriggerAction::Ignore);
    let bad = vec![s("StatName", "bad")];
    assert_eq!(
        err(collect_stat_triggers(&vec![a, bad], &no_refs())),
        "StatTrigger missing value for Action"
    );
    assert_eq!(collect_stat_triggers(&vec![], &no_refs()).unwrap().len(), 0);
}

#[test]
fn stat_trigger_value_given_twice_is_an_error() {
    let msg = "StatTrigger needs exactly one of Value and ValueFrom, but was given more";
    let both = vec![s("StatName", "x"), s("Action", "Incr"), int_param("Value", "1"), s("ValueFrom", "self.a")];
    assert_eq!(err(parse_stat_trigger(&both, &no_refs())), msg);
    let twice = vec![s("StatName", "x"), s("ValueFrom", "self.a"), s("ValueFrom", "self.b")];
    assert_eq!(err(parse_stat_trigger(&twice, &no_refs())), msg);
}

#[test]
fn stat_trigger_expressions_must_parse() {
    let bad_cond = vec![s("StatName", "x"), s("Action", "Incr"), int_param("Value", "1"), s("Condition", "self.x >")];
    assert_eq!(
        err(parse_stat_trigger(&bad_cond, &no_refs())),
        "Condition parameter of StatTrigger is not an expression: self.x >"
    );
    let bad_value = vec![s("StatName", "x"), s("Action", "Incr"), s("ValueFrom", "(self.bytes")];
    assert_eq!(
        err(parse_stat_trigger(&bad_value, &no_refs())),
        "ValueFrom parameter of StatTrigger is not an expression: (self.bytes"
    );
    let good = vec![
        s("StatName", "x"),
        s("Action", "Incr"),
        s("ValueFrom", "self.bytes - (self.unbytes as u32)"),
        s("Condition", "self.error != 0"),
    ];
    let t = parse_stat_trigger(&good, &no_refs()).unwrap();
    assert_eq!(t.value, TriggerValue::Expr("self.bytes - (self.unbytes as u32)".to_string()));
    assert_eq!(t.condition, Some("self.error != 0".to_string()));
}

#[test]
fn stat_names_and_fixed_field_keys_must_be_identifiers() {
    let bad = vec![s("StatName", "not-an-ident"), s("Action", "Incr"), int_param("Value", "1")];
    assert_eq!(
        err(parse_stat_trigger(&bad, &no_refs())),
        "StatName parameter of StatTrigger is not an identifier: not-an-ident"
    );
    assert_eq!(
        err(parse_fixed_fields(&vec![vec![s("a::b", "x")]])),
        "Field \"a::b\" in FixedFields must be an identifier"
    );
    assert!(parse_fixed_fields(&vec![vec![s("field_1", "x")]]).is_ok());
}

#[test]
fn stat_name_identifier_kinds() {
    let with_name = |n: &str| vec![s("StatName", n), s("Action", "Incr"), int_param("Value", "1")];
    assert!(parse_stat_trigger(&with_name("_"), &no_refs()).is_ok());
    assert!(parse_stat_trigger(&with_name("fn"), &no_refs()).is_ok());
    assert!(parse_stat_trigger(&with_name("r#foo"), &no_refs()).is_err());
    assert!(parse_stat_trigger(&with_name(" foo"), &no_refs()).is_err());
    assert!(parse_stat_trigger(&with_name("foo bar"), &no_refs()).is_err());
    assert!(parse_stat_trigger(&with_name(""), &no_refs()).is_err());
    assert!(parse_fixed_fields(&vec![vec![s("r#type", "x")]]).is_ok());
}
