use config_tree::line::{classify_line, LineClass};
use config_tree::parse::parse_config_lines;
use config_tree::value::{get_path, insert_config_value, ConfigError, ConfigValue};

fn lines(v: &[&str]) -> Vec<String> {
    v.iter().map(|s| s.to_string()).collect()
}

#[test]
fn comment_lines_are_skipped() {
    assert_eq!(classify_line("# a comment"), LineClass::Skip);
    assert_eq!(classify_line("   # indented comment"), LineClass::Skip);
    assert_eq!(classify_line("#no space"), LineClass::Skip);
}

#[test]
fn blank_lines_are_skipped() {
    assert_eq!(classify_line(""), LineClass::Skip);
    assert_eq!(classify_line("   "), LineClass::Skip);
    assert_eq!(classify_line("\t \t"), LineClass::Skip);
}

#[test]
fn key_value_lines_are_extracted() {
    assert_eq!(
        classify_line("key = value"),
        LineClass::KeyValue("key".to_string(), "value".to_string())
    );
    assert_eq!(
        classify_line("  a.b-c_d9 =  spaced out value  "),
        LineClass::KeyValue("a.b-c_d9".to_string(), "spaced out value".to_string())
    );
    assert_eq!(
        classify_line("a=b"),
        LineClass::KeyValue("a".to_string(), "b".to_string())
    );
}

#[test]
fn value_may_contain_equals_signs() {
    assert_eq!(
        classify_line("a = b = c"),
        LineClass::KeyValue("a".to_string(), "b = c".to_string())
    );
}

#[test]
fn malformed_lines_are_unmatched() {
    assert_eq!(classify_line("no equals sign"), LineClass::Unmatched);
    assert_eq!(classify_line("= value"), LineClass::Unmatched);
    assert_eq!(classify_line("key ="), LineClass::Unmatched);
    assert_eq!(classify_line("key ! value"), LineClass::Unmatched);
}

#[test]
fn comments_and_blanks_leave_the_tree_alone() {
    let with_noise = parse_config_lines(&lines(&[
        "# header",
        "",
        "a = 1",
        "   ",
        "# trailing",
    ]))
    .unwrap();
    let plain = parse_config_lines(&lines(&["a = 1"])).unwrap();
    assert_eq!(with_noise, plain);
}

#[test]
fn boolean_coercion_is_case_insensitive() {
    for lit in ["true", "TRUE", "True", "tRuE"] {
        let tree = parse_config_lines(&vec![format!("key.sub = {}", lit)]).unwrap();
        assert_eq!(get_path(&tree, "key.sub"), Some(&ConfigValue::Flag(true)));
    }
    for lit in ["false", "FALSE", "False"] {
        let tree = parse_config_lines(&vec![format!("key.sub = {}", lit)]).unwrap();
        assert_eq!(get_path(&tree, "key.sub"), Some(&ConfigValue::Flag(false)));
    }
}

#[test]
fn other_values_stay_verbatim_text() {
    let tree = parse_config_lines(&lines(&["a = yes", "b = truth"])).unwrap();
    assert_eq!(get_path(&tree, "a"), Some(&ConfigValue::Text("yes".to_string())));
    assert_eq!(get_path(&tree, "b"), Some(&ConfigValue::Text("truth".to_string())));
}

#[test]
fn reparsing_the_same_lines_gives_equal_trees() {
    let input = lines(&["# settings", "a.b = 1", "a.c = true", "d = x y z"]);
    let first = parse_config_lines(&input).unwrap();
    let second = parse_config_lines(&input).unwrap();
    assert_eq!(first, second);
}

#[test]
fn leaf_then_table_conflicts() {
    let r = parse_config_lines(&lines(&["a = 1", "a.b = 2"]));
    assert_eq!(r, Err(ConfigError::TypeConflict));
}

#[test]
fn table_then_leaf_conflicts() {
    let r = parse_config_lines(&lines(&["a.b = 2", "a = 1"]));
    assert_eq!(r, Err(ConfigError::TypeConflict));
}

#[test]
fn later_identical_keys_overwrite() {
    let tree = parse_config_lines(&lines(&["a = 1", "a = 2"])).unwrap();
    assert_eq!(get_path(&tree, "a"), Some(&ConfigValue::Text("2".to_string())));
}

#[test]
fn nested_keys_build_nested_tables() {
    let tree = parse_config_lines(&lines(&["x.y.z = deep", "x.w = true"])).unwrap();
    assert_eq!(get_path(&tree, "x.y.z"), Some(&ConfigValue::Text("deep".to_string())));
    assert_eq!(get_path(&tree, "x.w"), Some(&ConfigValue::Flag(true)));
    assert!(matches!(get_path(&tree, "x"), Some(ConfigValue::Table(_))));
    assert_eq!(get_path(&tree, "x.missing"), None);
    assert_eq!(get_path(&tree, "x.y.z.too.far"), None);
}

#[test]
fn insert_then_read_back() {
    let mut tree: Vec<(String, ConfigValue)> = Vec::new();
    insert_config_value(&mut tree, "server.port", ConfigValue::Text("8080".to_string()))
        .unwrap();
    insert_config_value(&mut tree, "server.tls", ConfigValue::Flag(true)).unwrap();
    assert_eq!(
        get_path(&tree, "server.port"),
        Some(&ConfigValue::Text("8080".to_string()))
    );
    assert_eq!(get_path(&tree, "server.tls"), Some(&ConfigValue::Flag(true)));
    let conflict = insert_config_value(&mut tree, "server.port.sub", ConfigValue::Flag(false));
    assert_eq!(conflict, Err(ConfigError::TypeConflict));
    assert_eq!(
        get_path(&tree, "server.port"),
        Some(&ConfigValue::Text("8080".to_string()))
    );
}

#[test]
fn as_map_mut_distinguishes_tables_from_leaves() {
    let tree = parse_config_lines(&lines(&["a.b = 1"])).unwrap();
    let (_, a) = tree.into_iter().next().unwrap();
    let inner = a.as_map_mut().unwrap();
    assert_eq!(inner.len(), 1);
    assert_eq!(inner[0].0, "b");
    assert_eq!(ConfigValue::Text("leaf".to_string()).as_map_mut(), None);
    assert_eq!(ConfigValue::Flag(false).as_map_mut(), None);
}

#[test]
fn unicode_keys_and_values_survive() {
    let tree = parse_config_lines(&lines(&["greeting = héllo wörld ✓"])).unwrap();
    assert_eq!(
        get_path(&tree, "greeting"),
        Some(&ConfigValue::Text("héllo wörld ✓".to_string()))
    );
}
