use config_tree::parse::parse_config_lines;
use config_tree::schema::{load_schema_lines, SchemaError, SchemaType};
use config_tree::validate::{validate_config, IssueKind};
use config_tree::value::{get_path, ConfigValue};

fn lines(v: &[&str]) -> Vec<String> {
    v.iter().map(|s| s.to_string()).collect()
}

#[test]
fn schema_lines_load_into_a_mapping() {
    let schema = load_schema_lines(&lines(&[
        "# expected types",
        "name = string",
        "active = bool",
        "",
    ]))
    .unwrap();
    assert_eq!(
        schema,
        vec![
            ("name".to_string(), SchemaType::Text),
            ("active".to_string(), SchemaType::Flag),
        ]
    );
}

#[test]
fn schema_type_tokens_are_case_insensitive() {
    let schema = load_schema_lines(&lines(&["a = STRING", "b = Bool"])).unwrap();
    assert_eq!(schema[0].1, SchemaType::Text);
    assert_eq!(schema[1].1, SchemaType::Flag);
}

#[test]
fn malformed_schema_line_fails_the_load() {
    let r = load_schema_lines(&lines(&["name = string", "what is this"]));
    assert_eq!(r, Err(SchemaError::BadLine("what is this".to_string())));
}

#[test]
fn unknown_schema_type_token_fails_the_load() {
    let r = load_schema_lines(&lines(&["count = number"]));
    assert_eq!(r, Err(SchemaError::BadLine("count = number".to_string())));
    let r2 = load_schema_lines(&lines(&["tree = map"]));
    assert_eq!(r2, Err(SchemaError::BadLine("tree = map".to_string())));
}

#[test]
fn later_schema_declarations_win() {
    let schema = load_schema_lines(&lines(&["a = string", "a = bool"])).unwrap();
    assert_eq!(schema, vec![("a".to_string(), SchemaType::Flag)]);
}

#[test]
fn unrecognized_boolean_text_fails_bool_validation() {
    let schema = load_schema_lines(&lines(&["name = string", "active = bool"])).unwrap();
    let tree = parse_config_lines(&lines(&["name = Alice", "active = yes"])).unwrap();
    assert_eq!(get_path(&tree, "name"), Some(&ConfigValue::Text("Alice".to_string())));
    assert_eq!(get_path(&tree, "active"), Some(&ConfigValue::Text("yes".to_string())));
    let report = validate_config(&tree, &schema);
    assert!(!report.valid);
    assert_eq!(report.issues.len(), 1);
    assert_eq!(report.issues[0].key, "active");
    assert_eq!(report.issues[0].kind, IssueKind::TypeMismatch);
}

#[test]
fn boolean_literal_text_passes_bool_validation() {
    let schema = load_schema_lines(&lines(&["active = bool"])).unwrap();
    let mut tree: Vec<(String, ConfigValue)> = Vec::new();
    config_tree::value::insert_config_value(
        &mut tree,
        "active",
        ConfigValue::Text("TRUE".to_string()),
    )
    .unwrap();
    let report = validate_config(&tree, &schema);
    assert!(report.valid);
    assert!(report.issues.is_empty());
}

#[test]
fn missing_key_warns_but_does_not_fail() {
    let schema = load_schema_lines(&lines(&["missing.key = string"])).unwrap();
    let tree = parse_config_lines(&lines(&["present = 1"])).unwrap();
    let report = validate_config(&tree, &schema);
    assert!(report.valid);
    assert_eq!(report.issues.len(), 1);
    assert_eq!(report.issues[0].key, "missing.key");
    assert_eq!(report.issues[0].kind, IssueKind::MissingKey);
}

#[test]
fn present_but_wrong_typed_key_fails_even_beside_missing_keys() {
    let schema = load_schema_lines(&lines(&["missing.key = string", "port = bool"])).unwrap();
    let tree = parse_config_lines(&lines(&["port = 8080"])).unwrap();
    let report = validate_config(&tree, &schema);
    assert!(!report.valid);
    assert_eq!(report.issues.len(), 2);
    assert_eq!(report.issues[0].kind, IssueKind::MissingKey);
    assert_eq!(report.issues[1].kind, IssueKind::TypeMismatch);
}

#[test]
fn extra_tree_keys_are_permitted() {
    let schema = load_schema_lines(&lines(&["a = string"])).unwrap();
    let tree = parse_config_lines(&lines(&["a = x", "extra = true", "more.stuff = y"])).unwrap();
    let report = validate_config(&tree, &schema);
    assert!(report.valid);
    assert!(report.issues.is_empty());
}

#[test]
fn nested_keys_validate_through_tables() {
    let schema = load_schema_lines(&lines(&["server.port = string", "server.tls = bool"]))
        .unwrap();
    let tree = parse_config_lines(&lines(&["server.port = 8080", "server.tls = true"]))
        .unwrap();
    let report = validate_config(&tree, &schema);
    assert!(report.valid, "issues: {:?}", report.issues);
}

#[test]
fn empty_schema_accepts_everything() {
    let schema = load_schema_lines(&lines(&[])).unwrap();
    let tree = parse_config_lines(&lines(&["anything = goes"])).unwrap();
    let report = validate_config(&tree, &schema);
    assert!(report.valid);
    assert!(report.issues.is_empty());
}
