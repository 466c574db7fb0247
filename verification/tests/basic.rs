use list_features::test_parse_feature_keys_from_lines as parse_feature_keys_from_lines;

fn parse_from_str(s: &str) -> Vec<String> {
    let lines: Vec<String> = s.lines().map(str::to_string).collect();
    parse_feature_keys_from_lines(&lines)
}

fn has(v: &Vec<String>, key: &str) -> bool {
    v.iter().any(|x| x == key)
}

#[test]
fn single_feature() {
    let toml = r#"
    [features]
    default = []
  "#;

    let features = parse_from_str(toml);
    assert_eq!(features.len(), 1);
    assert!(has(&features, "default"));
}

#[test]
fn multiple_features_with_comments() {
    let toml = r#"
    [features]
    # default feature
    default = ["foo"] # comment
    foo = []
    bar = ["baz", "qux"]
  "#;

    let features = parse_from_str(toml);
    assert_eq!(features.len(), 3);
    assert!(has(&features, "default"));
    assert!(has(&features, "foo"));
    assert!(has(&features, "bar"));
}

#[test]
fn ignores_other_sections() {
    let toml = r#"
    [features]
    a = []
    b = []

    [dependencies]
    c = "1.0"
  "#;

    let features = parse_from_str(toml);
    assert_eq!(features.len(), 2);
    assert!(has(&features, "a"));
    assert!(has(&features, "b"));
    assert!(!has(&features, "c"));
}

#[test]
fn ignores_multiline_values() {
    let toml = r#"
    [features]
    big = [
      "one",
      "two",
    ]
    small = []
  "#;

    let features = parse_from_str(toml);
    assert_eq!(features.len(), 2);
    assert!(has(&features, "big"));
    assert!(has(&features, "small"));
}
