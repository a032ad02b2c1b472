use record_history::extract::{get_json_data, ContentFault};
use record_history::value::{deep_diff_json, JsonValue};

fn num(s: &str) -> JsonValue {
    JsonValue::Number(String::from(s))
}

fn text(s: &str) -> JsonValue {
    JsonValue::Text(String::from(s))
}

fn obj(pairs: Vec<(&str, JsonValue)>) -> JsonValue {
    JsonValue::Mapping(pairs.into_iter().map(|(k, v)| (String::from(k), v)).collect())
}

#[test]
fn mapping_key_order_is_irrelevant() {
    let a = obj(vec![("a", num("1")), ("b", num("2"))]);
    let b = obj(vec![("b", num("2")), ("a", num("1"))]);
    assert!(!deep_diff_json(&a, &b));
    assert!(!deep_diff_json(&b, &a));
}

#[test]
fn sequence_order_is_significant() {
    let a = JsonValue::Sequence(vec![num("1"), num("2")]);
    let b = JsonValue::Sequence(vec![num("2"), num("1")]);
    assert!(deep_diff_json(&a, &b));
}

#[test]
fn mismatched_shapes_differ() {
    let a = obj(vec![("a", num("1"))]);
    let b = JsonValue::Sequence(vec![num("1")]);
    assert!(deep_diff_json(&a, &b));
    assert!(deep_diff_json(&JsonValue::Null, &JsonValue::Boolean(false)));
    assert!(!deep_diff_json(&JsonValue::Null, &JsonValue::Null));
}

#[test]
fn nested_values_compare_recursively() {
    let a = obj(vec![("k", obj(vec![("x", num("1")), ("y", text("s"))]))]);
    let b = obj(vec![("k", obj(vec![("y", text("s")), ("x", num("1"))]))]);
    let c = obj(vec![("k", obj(vec![("y", text("t")), ("x", num("1"))]))]);
    assert!(!deep_diff_json(&a, &b));
    assert!(deep_diff_json(&a, &c));
}

#[test]
fn missing_and_extra_keys_differ() {
    let a = obj(vec![("a", num("1"))]);
    let b = obj(vec![("a", num("1")), ("b", num("2"))]);
    assert!(deep_diff_json(&a, &b));
    assert!(deep_diff_json(&b, &a));
}

#[test]
fn extracts_records_by_primary_key() {
    let content = br#"[{"id":"x","v":1},{"id":"y","v":2}]"#;
    let m = get_json_data(content, &String::from("id")).unwrap();
    assert_eq!(m.len(), 2);
    assert_eq!(m[0].0, "x");
    assert_eq!(m[1].0, "y");
}

#[test]
fn later_record_with_same_key_wins() {
    let content = br#"[{"id":"x","v":1},{"id":"x","v":2}]"#;
    let m = get_json_data(content, &String::from("id")).unwrap();
    assert_eq!(m.len(), 1);
    let v = obj(vec![("id", text("x")), ("v", num("2"))]);
    assert!(!deep_diff_json(&m[0].1, &v));
}

#[test]
fn non_array_content_is_rejected() {
    let content = br#"{"id":"x"}"#;
    match get_json_data(content, &String::from("id")) {
        Err(ContentFault::NotArray) => {},
        _ => panic!("expected a not-an-array fault"),
    }
}

#[test]
fn record_without_string_key_is_rejected() {
    let no_key = br#"[{"v":1}]"#;
    match get_json_data(no_key, &String::from("id")) {
        Err(ContentFault::BadRecord) => {},
        _ => panic!("expected a bad-record fault"),
    }
    let non_string = br#"[{"id":7}]"#;
    match get_json_data(non_string, &String::from("id")) {
        Err(ContentFault::BadRecord) => {},
        _ => panic!("expected a bad-record fault"),
    }
    let non_object = br#"[3]"#;
    match get_json_data(non_object, &String::from("id")) {
        Err(ContentFault::BadRecord) => {},
        _ => panic!("expected a bad-record fault"),
    }
}
