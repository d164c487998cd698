use std::cell::RefCell;
use std::collections::HashMap;

use bract::env_params::{EnvSource, NullEnv};
use bract::form::{FormKey, FormOutcome, FormView};
use bract::memory::{FieldStat, FormMemory};
use bract::node::{Arg, Children, Flag, FlagKind, Node, NodeKind};

/// Serves fixed stats, remembers nothing.
struct FakeMemory(HashMap<String, (u64, Option<String>)>);
impl FormMemory for FakeMemory {
    fn record(&self, _tool: &str, _cmd: &str, _field: &str, _value: &str) {}
    fn stats(&self, _tool: &str, _cmd: &str) -> Vec<(String, FieldStat)> {
        self.0
            .iter()
            .map(|(k, (c, v))| (k.clone(), FieldStat { count: *c, last_value: v.clone() }))
            .collect()
    }
}

/// Captures every `record` call so a test can assert what was (and wasn't)
/// persisted on run.
struct RecordingMemory(RefCell<Vec<String>>);
impl FormMemory for RecordingMemory {
    fn record(&self, _tool: &str, _cmd: &str, field: &str, _value: &str) {
        self.0.borrow_mut().push(field.to_string());
    }
    fn stats(&self, _tool: &str, _cmd: &str) -> Vec<(String, FieldStat)> {
        Vec::new()
    }
}

struct FakeEnv(HashMap<String, String>);
impl EnvSource for FakeEnv {
    fn get(&self, key: &str) -> Option<String> {
        self.0.get(key).cloned()
    }
}
fn fake_env(pairs: &[(&str, &str)]) -> FakeEnv {
    FakeEnv(pairs.iter().map(|(k, v)| (k.to_string(), v.to_string())).collect())
}

fn value_flag(name: &str) -> Flag {
    Flag {
        name: format!("--{name}"),
        short: None,
        long: Some(name.to_string()),
        description: String::new(),
        required: false,
        kind: FlagKind::Value { arg_name: name.to_string(), default: String::new(), choices: vec![] },
    }
}

fn bool_flag(name: &str) -> Flag {
    Flag {
        name: format!("--{name}"),
        short: None,
        long: Some(name.to_string()),
        description: String::new(),
        required: false,
        kind: FlagKind::Boolean,
    }
}

fn leaf(flags: Vec<Flag>, args: Vec<Arg>) -> Node {
    Node {
        id: "t/cmd".into(),
        name: "cmd".into(),
        description: String::new(),
        kind: NodeKind::Leaf,
        runnable: true,
        flags,
        args,
        tool_id: "t".into(),
        command_path: vec!["cmd".into()],
        children: Children::Loaded(vec![]),
    }
}

fn build(node: &Node, stats: &[(&str, u64, Option<&str>)]) -> FormView<FakeMemory> {
    let map = stats.iter().map(|(k, c, v)| (k.to_string(), (*c, v.map(str::to_string)))).collect();
    FormView::new(&[node], &["t".to_string()], " ", "t", &NullEnv, FakeMemory(map))
}

// tool_id "t", command_path ["cmd"] → full path ["t","cmd"], so a tool-wide
// var is BRACT_T__<PARAM>.
fn env_form<M: FormMemory>(node: &Node, env: FakeEnv, memory: M) -> FormView<M> {
    FormView::new(&[node], &["t".to_string()], " ", "t", &env, memory)
}

#[test]
fn frequently_filled_fields_sort_higher() {
    let node = leaf(vec![value_flag("alpha"), value_flag("beta"), value_flag("gamma")], vec![]);
    let form = build(&node, &[("--beta", 5, None), ("--gamma", 2, None)]);
    assert_eq!(form.field_names(), vec!["--beta", "--gamma", "--alpha"]);
}

#[test]
fn required_fields_stay_on_top_regardless_of_frequency() {
    let req = Arg { name: "NAME".into(), description: String::new(), required: true, default: String::new(), choices: vec![] };
    let node = leaf(vec![value_flag("beta")], vec![req]);
    // --beta is filled far more often, but a required arg can't be buried.
    let form = build(&node, &[("--beta", 99, None)]);
    assert_eq!(form.field_names().first().map(String::as_str), Some("<NAME>"));
}

#[test]
fn previous_value_recalls_with_right_arrow() {
    let node = leaf(vec![value_flag("image")], vec![]);
    let mut form = build(&node, &[("--image", 3, Some("nginx"))]);
    // The focused field is --image; → accepts the remembered ghost.
    form.handle_key(FormKey::Right);
    assert!(
        form.run_spec().args.contains(&"--image=nginx".to_string()),
        "recalled value reaches the command: {:?}",
        form.run_spec().args
    );
}

#[test]
fn an_untouched_remembered_value_is_not_sent() {
    let node = leaf(vec![value_flag("image")], vec![]);
    let form = build(&node, &[("--image", 3, Some("nginx"))]);
    // No key pressed: the ghost is a suggestion, not a value. Only the command
    // path is emitted — the remembered --image is not.
    let args = form.run_spec().args;
    assert!(!args.iter().any(|a| a.starts_with("--image")), "remembered value stays a ghost until recalled: {args:?}");
}

#[test]
fn env_var_prefills_a_field_and_is_applied_without_a_keypress() {
    let node = leaf(vec![value_flag("org")], vec![]);
    let env = fake_env(&[("BRACT_T__ORG", "myorg")]);
    let form = env_form(&node, env, FakeMemory(HashMap::new()));
    // No interaction: the env value is already in the command.
    assert!(
        form.run_spec().args.contains(&"--org=myorg".to_string()),
        "env value is pre-filled and applied: {:?}",
        form.run_spec().args
    );
}

#[test]
fn env_var_takes_precedence_over_a_remembered_value() {
    let node = leaf(vec![value_flag("org")], vec![]);
    let env = fake_env(&[("BRACT_T__ORG", "envorg")]);
    let mut map = HashMap::new();
    map.insert("--org".to_string(), (5u64, Some("oldorg".to_string())));
    let form = env_form(&node, env, FakeMemory(map));
    // The remembered value would only be a ghost (needs →); the env value is
    // applied outright.
    assert!(
        form.run_spec().args.contains(&"--org=envorg".to_string()),
        "env wins over remembered: {:?}",
        form.run_spec().args
    );
}

#[test]
fn env_sourced_field_is_never_persisted_to_memory() {
    let node = leaf(vec![value_flag("org"), value_flag("name")], vec![]);
    let env = fake_env(&[("BRACT_T__ORG", "myorg")]);
    let mut form = env_form(&node, env, RecordingMemory(RefCell::new(Vec::new())));
    // Fill a non-env field by hand, then run.
    assert!(form.set_field("--name", "web"));
    let outcome = form.handle_key(FormKey::Run);
    assert!(matches!(outcome, Some(FormOutcome::Run(_))));

    let recorded = form.memory.0.borrow();
    assert!(recorded.contains(&"--name".to_string()), "hand-typed field is remembered");
    assert!(!recorded.contains(&"--org".to_string()), "env-provided value must not be written to disk: {recorded:?}");
}

#[test]
fn truthy_env_var_enables_a_bool_flag() {
    let node = leaf(vec![bool_flag("verbose")], vec![]);
    let env = fake_env(&[("BRACT_T__VERBOSE", "true")]);
    let form = env_form(&node, env, FakeMemory(HashMap::new()));
    assert!(
        form.run_spec().args.contains(&"--verbose".to_string()),
        "a truthy env var enables the toggle: {:?}",
        form.run_spec().args
    );
}

#[test]
fn falsy_env_var_leaves_a_bool_flag_off() {
    let node = leaf(vec![bool_flag("verbose")], vec![]);
    let env = fake_env(&[("BRACT_T__VERBOSE", "false")]);
    let form = env_form(&node, env, FakeMemory(HashMap::new()));
    assert!(
        !form.run_spec().args.contains(&"--verbose".to_string()),
        "a falsy env var keeps the toggle off: {:?}",
        form.run_spec().args
    );
}

#[test]
fn env_sourced_bool_flag_is_not_recorded() {
    let node = leaf(vec![bool_flag("verbose")], vec![]);
    let env = fake_env(&[("BRACT_T__VERBOSE", "true")]);
    let mut form = env_form(&node, env, RecordingMemory(RefCell::new(Vec::new())));
    form.handle_key(FormKey::Run);
    assert!(!form.memory.0.borrow().contains(&"--verbose".to_string()), "an env-enabled toggle must not be persisted");
}

#[test]
fn the_command_path_leads_the_arguments() {
    let node = leaf(vec![value_flag("org")], vec![]);
    let mut form = build(&node, &[]);
    assert!(form.set_field("--org", "acme"));
    let spec = form.run_spec();
    assert_eq!(spec.bin, vec!["t".to_string()]);
    assert_eq!(spec.args, vec!["cmd".to_string(), "--org=acme".to_string()]);
}

#[test]
fn typing_fills_the_focused_field() {
    let node = leaf(vec![value_flag("org")], vec![]);
    let mut form = build(&node, &[]);
    for c in "ab".chars() {
        form.handle_key(FormKey::Char(c));
    }
    form.handle_key(FormKey::Backspace);
    assert!(form.run_spec().args.contains(&"--org=a".to_string()), "{:?}", form.run_spec().args);
}

#[test]
fn an_unknown_field_cannot_be_set() {
    let node = leaf(vec![value_flag("org")], vec![]);
    let mut form = build(&node, &[]);
    assert!(!form.set_field("--nope", "x"));
}

#[test]
fn fills_to_record_lists_hand_filled_fields_only() {
    let node = leaf(vec![value_flag("org"), value_flag("name"), bool_flag("verbose"), bool_flag("quiet")], vec![]);
    let env = fake_env(&[("BRACT_T__ORG", "myorg"), ("BRACT_T__QUIET", "true")]);
    let mut form = env_form(&node, env, FakeMemory(HashMap::new()));
    assert!(form.set_field("--name", "web"));
    assert!(form.toggle_field("--verbose"));
    let mut fills = form.fills_to_record();
    fills.sort();
    assert_eq!(
        fills,
        vec![("--name".to_string(), "web".to_string()), ("--verbose".to_string(), "true".to_string())]
    );
}

#[test]
fn fills_to_record_skips_empty_text_and_toggles_that_are_off() {
    let node = leaf(vec![value_flag("org"), bool_flag("verbose")], vec![]);
    let form = build(&node, &[]);
    assert!(form.fills_to_record().is_empty());
}
