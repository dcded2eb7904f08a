use risc::json::{compact_array, compact_object, pretty_array, pretty_object};

fn strings(v: &[&str]) -> Vec<String> {
    v.iter().map(|s| s.to_string()).collect()
}

fn members(v: &[(&str, &str)]) -> Vec<(String, String)> {
    v.iter().map(|(k, x)| (k.to_string(), x.to_string())).collect()
}

#[test]
fn json_compact_arrays() {
    assert_eq!(compact_array(&strings(&["1", "\"a\"", "null"])), "[1,\"a\",null]");
    assert_eq!(compact_array(&[]), "[]");
}

#[test]
fn json_compact_objects_sort_members() {
    assert_eq!(compact_object(&members(&[("b", "2"), ("a", "1")])), "{\"a\":1,\"b\":2}");
    assert_eq!(compact_object(&[]), "{}");
    assert_eq!(compact_object(&members(&[("q\"k", "1")])), "{\"q\\\"k\":1}");
}

#[test]
fn json_pretty_arrays() {
    assert_eq!(pretty_array(&strings(&["1", "2"]), 2, 0), "[\n  1,\n  2\n]");
    assert_eq!(pretty_array(&strings(&["1"]), 2, 1), "[\n    1\n  ]");
    assert_eq!(pretty_array(&[], 2, 3), "[]");
}

#[test]
fn json_pretty_objects() {
    assert_eq!(
        pretty_object(&members(&[("b", "2"), ("a", "[]")]), 2, 0),
        "{\n  \"a\": [],\n  \"b\": 2\n}"
    );
    assert_eq!(pretty_object(&[], 4, 0), "{}");
}

#[test]
fn json_member_order_does_not_matter() {
    let one = members(&[("x", "1"), ("y", "true"), ("é", "\"s\"")]);
    let other = members(&[("é", "\"s\""), ("x", "1"), ("y", "true")]);
    assert_eq!(compact_object(&one), compact_object(&other));
    assert_eq!(pretty_object(&one, 1, 2), pretty_object(&other, 1, 2));
    assert_eq!(compact_object(&one), "{\"x\":1,\"y\":true,\"é\":\"s\"}");
}
