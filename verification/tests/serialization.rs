use config_tree::json::format_as_json;
use config_tree::parse::parse_config_lines;
use config_tree::value::{insert_config_value, ConfigValue};

fn lines(v: &[&str]) -> Vec<String> {
    v.iter().map(|s| s.to_string()).collect()
}

#[test]
fn empty_tree_renders_as_empty_object() {
    let tree = parse_config_lines(&lines(&["# nothing here"])).unwrap();
    assert_eq!(format_as_json(&tree), "{}");
}

#[test]
fn exact_json_text_in_entry_order() {
    let tree = parse_config_lines(&lines(&["b = true", "a = x"])).unwrap();
    assert_eq!(format_as_json(&tree), "{\"b\":true,\"a\":\"x\"}");
}

#[test]
fn nested_tables_render_as_nested_objects() {
    let tree = parse_config_lines(&lines(&["x.y.z = deep", "x.w = false"])).unwrap();
    assert_eq!(
        format_as_json(&tree),
        "{\"x\":{\"y\":{\"z\":\"deep\"},\"w\":false}}"
    );
}

#[test]
fn round_trip_through_a_json_parser() {
    let tree = parse_config_lines(&lines(&[
        "name = Alice",
        "active = true",
        "server.host = localhost",
        "server.tls = false",
        "server.limits.depth = 3",
    ]))
    .unwrap();
    let text = format_as_json(&tree);
    let parsed: serde_json::Value = serde_json::from_str(&text).unwrap();

    let mut limits = serde_json::Map::new();
    limits.insert(
        "depth".to_string(),
        serde_json::Value::String("3".to_string()),
    );
    let mut server = serde_json::Map::new();
    server.insert(
        "host".to_string(),
        serde_json::Value::String("localhost".to_string()),
    );
    server.insert("tls".to_string(), serde_json::Value::Bool(false));
    server.insert("limits".to_string(), serde_json::Value::Object(limits));
    let mut root = serde_json::Map::new();
    root.insert(
        "name".to_string(),
        serde_json::Value::String("Alice".to_string()),
    );
    root.insert("active".to_string(), serde_json::Value::Bool(true));
    root.insert("server".to_string(), serde_json::Value::Object(server));

    assert_eq!(parsed, serde_json::Value::Object(root));
}

#[test]
fn round_trip_preserves_characters_that_need_escaping() {
    let mut tree: Vec<(String, ConfigValue)> = Vec::new();
    let tricky = "he said \"hi\" \\ done\tand\nmore";
    insert_config_value(&mut tree, "quote", ConfigValue::Text(tricky.to_string())).unwrap();
    insert_config_value(&mut tree, "ctrl", ConfigValue::Text("bell\u{7}end".to_string()))
        .unwrap();
    let text = format_as_json(&tree);
    let parsed: serde_json::Value = serde_json::from_str(&text).unwrap();
    assert_eq!(parsed["quote"], serde_json::Value::String(tricky.to_string()));
    assert_eq!(
        parsed["ctrl"],
        serde_json::Value::String("bell\u{7}end".to_string())
    );
}

#[test]
fn control_characters_use_unicode_escapes() {
    let mut tree: Vec<(String, ConfigValue)> = Vec::new();
    insert_config_value(&mut tree, "ctrl", ConfigValue::Text("a\u{7}b\u{1f}c".to_string()))
        .unwrap();
    assert_eq!(format_as_json(&tree), "{\"ctrl\":\"a\\u0007b\\u001fc\"}");
}

#[test]
fn round_trip_preserves_unicode_text() {
    let tree = parse_config_lines(&lines(&["greeting = héllo ✓"])).unwrap();
    let text = format_as_json(&tree);
    let parsed: serde_json::Value = serde_json::from_str(&text).unwrap();
    assert_eq!(
        parsed["greeting"],
        serde_json::Value::String("héllo ✓".to_string())
    );
}
