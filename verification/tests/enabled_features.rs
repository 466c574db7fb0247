use list_features::test_list_enabled_among as list_enabled_among;

fn make_features(keys: &[&str]) -> Vec<String> {
    keys.iter().map(|s| s.to_string()).collect()
}

fn make_environment(names: &[&str]) -> Vec<(String, String)> {
    names.iter().map(|n| (n.to_string(), String::from("1"))).collect()
}

fn has(v: &Vec<String>, key: &str) -> bool {
    v.iter().any(|x| x == key)
}

#[test]
fn detects_enabled_features() {
    let all = make_features(&["foo-bar", "baz"]);
    let environment = make_environment(&["CARGO_FEATURE_FOO_BAR", "CARGO_FEATURE_UNUSED"]);

    let result = list_enabled_among(&all, &environment);

    assert_eq!(result.len(), 1);
    assert!(has(&result, "foo-bar"));
}

#[test]
fn detects_enabled_features_with_underscore() {
    let all = make_features(
        &["under_scored", "dashed-name", "under_scored_and-dashed", "disabled_feature"],
    );
    let environment = make_environment(
        &[
            "CARGO_FEATURE_UNDER_SCORED",
            "CARGO_FEATURE_DASHED_NAME",
            "CARGO_FEATURE_UNDER_SCORED_AND_DASHED",
            "CARGO_FEATURE_UNUSED",
        ],
    );

    let result = list_enabled_among(&all, &environment);

    assert_eq!(result.len(), 3);
    assert!(has(&result, "under_scored"));
    assert!(has(&result, "dashed-name"));
    assert!(has(&result, "under_scored_and-dashed"));
}

#[test]
fn detects_enabled_features_with_caps() {
    let all = make_features(&["Not_a-Good_name"]);
    let environment = make_environment(&["CARGO_FEATURE_NOT_A_GOOD_NAME"]);

    let result = list_enabled_among(&all, &environment);

    assert_eq!(result.len(), 1);
    assert!(has(&result, "Not_a-Good_name"));
}

#[test]
fn alphabetical_order_with_underscore_dash_ambiguity() {
    let all = make_features(&["under_scored", "dashed-name"]);
    let environment = make_environment(&["CARGO_FEATURE_UNDER_SCORED", "CARGO_FEATURE_DASHED_NAME"]);

    let result = list_enabled_among(&all, &environment);

    assert_eq!(result, vec!["dashed-name".to_string(), "under_scored".to_string()]);
}

#[test]
fn default_promoted_to_front() {
    let all = make_features(&["beta", "default", "alpha"]);
    let environment = make_environment(
        &["CARGO_FEATURE_BETA", "CARGO_FEATURE_DEFAULT", "CARGO_FEATURE_ALPHA"],
    );

    let result = list_enabled_among(&all, &environment);

    assert_eq!(
        result,
        vec!["default".to_string(), "alpha".to_string(), "beta".to_string()],
    );
}

#[test]
fn ignores_unprefixed_environment_names() {
    let all = make_features(&["foo", "path"]);
    let environment = make_environment(&["PATH", "FOO", "CARGO_FEATURE_FOO"]);

    let result = list_enabled_among(&all, &environment);

    assert_eq!(result, vec!["foo".to_string()]);
}

#[test]
fn empty_environment_yields_empty_result() {
    let all = make_features(&["foo", "default"]);
    let environment: Vec<(String, String)> = Vec::new();

    let result = list_enabled_among(&all, &environment);

    assert!(result.is_empty());
}

#[test]
fn empty_declared_set_yields_empty_result() {
    let all: Vec<String> = Vec::new();
    let environment = make_environment(&["CARGO_FEATURE_FOO"]);

    let result = list_enabled_among(&all, &environment);

    assert!(result.is_empty());
}

#[test]
fn prefix_match_is_case_sensitive() {
    let all = make_features(&["foo"]);
    let environment = make_environment(&["cargo_feature_foo"]);

    let result = list_enabled_among(&all, &environment);

    assert!(result.is_empty());
}

#[test]
fn environment_values_are_ignored() {
    let all = make_features(&["foo"]);
    let environment = vec![("CARGO_FEATURE_FOO".to_string(), String::new())];

    let result = list_enabled_among(&all, &environment);

    assert_eq!(result, vec!["foo".to_string()]);
}
