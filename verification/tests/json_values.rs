//! JSON values and their text.
use agent_hooks::json::{json_uint, read_json, write_json, Json};
use agent_hooks::installer::join_path;

#[test]
fn values_are_read_and_written() {
    let text = "{\n  \"a\": [\n    1,\n    -2,\n    null,\n    true\n  ],\n  \"b\": {},\n  \"c\": \"x\\ny\"\n}";
    let value = read_json(text).unwrap();
    assert_eq!(write_json(value), text);
}

#[test]
fn values_are_taken_apart() {
    let value = read_json("{\"b\": \"x\", \"a\": [false], \"b\": \"y\"}").unwrap();
    assert_eq!(value.str_at("b"), Some("y"));
    assert_eq!(value.get("a"), Some(&Json::Array(vec![Json::Bool(false)])));
    assert_eq!(value.get("c"), None);
    assert_eq!(Json::Null.get("c"), None);
    assert_eq!(value.str_at("a"), None);
}

#[test]
fn the_last_of_two_members_counts_when_they_are_written() {
    let value = Json::Object(vec![
        ("k".to_string(), json_uint(1)),
        ("j".to_string(), Json::Null),
        ("k".to_string(), json_uint(30000)),
    ]);
    assert_eq!(write_json(value), "{\n  \"j\": null,\n  \"k\": 30000\n}");
}

#[test]
fn floating_point_numbers_are_kept() {
    let value = read_json("[0.1, -2.5e3, 1e-7]").unwrap();
    assert_eq!(write_json(value), "[\n  0.1,\n  -2500.0,\n  1e-7\n]");
}

#[test]
fn what_is_wrong_with_a_text_is_said() {
    let message = read_json("[1,").unwrap_err();
    assert_eq!(
        message,
        serde_json::from_str::<serde_json::Value>("[1,")
            .unwrap_err()
            .to_string()
    );
    assert!(message.contains("EOF"));
    assert!(read_json("").is_err());
}

#[test]
fn nesting_is_read_down_to_a_limit() {
    let deepest = format!("{}{}", "[".repeat(127), "]".repeat(127));
    let value = read_json(&deepest).unwrap();
    let text = write_json(value);
    assert!(read_json(&text).is_ok());
    let deeper = format!("{}{}", "[".repeat(128), "]".repeat(128));
    assert!(read_json(&deeper).is_err());
}

#[test]
fn paths_are_joined() {
    assert_eq!(join_path("/a", "b"), "/a/b");
    assert_eq!(join_path("/a/", "b"), "/a/b");
    assert_eq!(join_path("/a", "/b"), "/b");
    assert_eq!(join_path("", "b"), "b");
    assert_eq!(join_path("/a", ""), "/a/");
}
