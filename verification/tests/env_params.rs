use std::collections::HashMap;

use bract::env_params::{candidate_names, is_truthy, pick, resolve, EnvSource, NullEnv};

struct FakeEnv(HashMap<String, String>);
impl EnvSource for FakeEnv {
    fn get(&self, key: &str) -> Option<String> {
        self.0.get(key).cloned()
    }
}
fn env(pairs: &[(&str, &str)]) -> FakeEnv {
    FakeEnv(pairs.iter().map(|(k, v)| (k.to_string(), v.to_string())).collect())
}
fn path(segs: &[&str]) -> Vec<String> {
    segs.iter().map(|s| s.to_string()).collect()
}

#[test]
fn matches_an_exact_path_and_param() {
    let e = env(&[("BRACT_AZ_DEVOPS__ORG", "myorg")]);
    let got = resolve(&e, &path(&["az", "devops"]), "--org").unwrap();
    assert_eq!(got.value, "myorg");
    assert_eq!(got.var_name, "BRACT_AZ_DEVOPS__ORG");
}

#[test]
fn applies_to_the_whole_subtree_as_a_prefix() {
    let e = env(&[("BRACT_AZ_DEVOPS__ORG", "myorg")]);
    let got = resolve(&e, &path(&["az", "devops", "project", "create"]), "org");
    assert_eq!(got.unwrap().value, "myorg");
}

#[test]
fn the_most_specific_prefix_wins() {
    let e = env(&[
        ("BRACT_AZ__ORG", "tool-wide"),
        ("BRACT_AZ_DEVOPS__ORG", "devops-specific"),
    ]);
    let got = resolve(&e, &path(&["az", "devops", "project"]), "org").unwrap();
    assert_eq!(got.value, "devops-specific");
}

#[test]
fn falls_back_to_a_tool_wide_value() {
    let e = env(&[("BRACT_AZ__ORG", "tool-wide")]);
    let got = resolve(&e, &path(&["az", "devops", "project"]), "org").unwrap();
    assert_eq!(got.value, "tool-wide");
}

#[test]
fn no_match_returns_none() {
    let e = env(&[("BRACT_GH_REPO__JSON", "name")]);
    assert!(resolve(&e, &path(&["az", "devops"]), "org").is_none());
}

#[test]
fn normalizes_hyphenated_flags_and_bracketed_args() {
    let e = env(&[
        ("BRACT_KUBECTL_CREATE__FIELD_MANAGER", "bract"),
        ("BRACT_MANI__NAME", "web"),
    ]);
    assert_eq!(
        resolve(&e, &path(&["kubectl", "create"]), "--field-manager").unwrap().value,
        "bract"
    );
    assert_eq!(resolve(&e, &path(&["mani"]), "<NAME>").unwrap().value, "web");
}

#[test]
fn a_shorter_prefix_does_not_match_a_different_sibling() {
    let e = env(&[("BRACT_AZ_DEVOPS__ORG", "x")]);
    assert!(resolve(&e, &path(&["az", "account"]), "org").is_none());
}

#[test]
fn truthiness_covers_common_forms() {
    for on in ["1", "true", "TRUE", "Yes", "on", " on "] {
        assert!(is_truthy(on), "{on:?} should be on");
    }
    for off in ["0", "false", "no", "off", "", "anything"] {
        assert!(!is_truthy(off), "{off:?} should be off");
    }
}

#[test]
fn candidates_run_from_the_full_path_down_to_the_tool() {
    let names = candidate_names(&path(&["az", "devops", "project"]), "--org");
    assert_eq!(names, vec![
        "BRACT_AZ_DEVOPS_PROJECT__ORG".to_string(),
        "BRACT_AZ_DEVOPS__ORG".to_string(),
        "BRACT_AZ__ORG".to_string(),
    ]);
}

#[test]
fn separator_runs_fold_to_one_underscore_and_ends_are_trimmed() {
    let names = candidate_names(&path(&["my--tool_"]), "__dry---run__");
    assert_eq!(names, vec!["BRACT_MY_TOOL__DRY_RUN".to_string()]);
}

#[test]
fn a_param_that_folds_to_nothing_asks_nothing() {
    assert!(candidate_names(&path(&["az"]), "--").is_empty());
    assert!(candidate_names(&[], "org").is_empty());
    assert!(resolve(&NullEnv, &path(&["az"]), "<>").is_none());
}

#[test]
fn a_segment_that_folds_to_nothing_keeps_its_separator() {
    let names = candidate_names(&path(&["???", "az"]), "org");
    assert_eq!(names, vec!["BRACT__AZ__ORG".to_string()]);
}

#[test]
fn pick_takes_the_first_answered_name() {
    let names = vec!["A".to_string(), "B".to_string(), "C".to_string()];
    let answers = vec![None, Some("b".to_string()), Some("c".to_string())];
    let got = pick(&names, &answers).unwrap();
    assert_eq!(got.var_name, "B");
    assert_eq!(got.value, "b");
    assert!(pick(&names, &vec![None, None]).is_none());
}

#[test]
fn the_null_environment_answers_nothing() {
    assert!(resolve(&NullEnv, &path(&["az", "devops"]), "org").is_none());
}
