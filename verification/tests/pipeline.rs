use list_features::{list_enabled, list_enabled_as_string};

fn lines_of(s: &str) -> Vec<String> {
    s.lines().map(str::to_string).collect()
}

fn make_environment(names: &[&str]) -> Vec<(String, String)> {
    names.iter().map(|n| (n.to_string(), String::from("1"))).collect()
}

#[test]
fn full_pipeline_orders_and_filters() {
    let lines = lines_of(
        r#"
    [features]
    default = ["zeta"]
    zeta = []
    alpha = []
    beta = []
  "#,
    );
    let environment = make_environment(
        &[
            "CARGO_FEATURE_DEFAULT",
            "CARGO_FEATURE_ZETA",
            "CARGO_FEATURE_BETA",
            "CARGO_FEATURE_UNDECLARED",
            "UNRELATED",
        ],
    );

    let result = list_enabled(&lines, &environment);

    assert_eq!(
        result,
        vec!["default".to_string(), "beta".to_string(), "zeta".to_string()],
    );
}

#[test]
fn pipeline_without_declared_default() {
    let lines = lines_of(
        r#"
    [features]
    b = []
    a = []
  "#,
    );
    let environment = make_environment(&["CARGO_FEATURE_A", "CARGO_FEATURE_B"]);

    let result = list_enabled(&lines, &environment);

    assert_eq!(result, vec!["a".to_string(), "b".to_string()]);
}

#[test]
fn renders_constant_declaration() {
    let lines = lines_of(
        r#"
    [features]
    default = []
    foo = []
    bar = []
  "#,
    );
    let environment = make_environment(
        &["CARGO_FEATURE_DEFAULT", "CARGO_FEATURE_FOO", "CARGO_FEATURE_BAR"],
    );

    let text = list_enabled_as_string("ENABLED_FEATURES", &lines, &environment);

    let expected = "pub const ENABLED_FEATURES: &[&str] = &[\n\"default\",\n\"bar\",\n\"foo\",\n];\n";
    assert_eq!(text, expected);
}

#[test]
fn renders_empty_list() {
    let lines = lines_of("[dependencies]\nserde = \"1\"\n");
    let environment = make_environment(&["CARGO_FEATURE_SERDE"]);

    let text = list_enabled_as_string("FEATURES", &lines, &environment);

    assert_eq!(text, "pub const FEATURES: &[&str] = &[\n];\n");
}
