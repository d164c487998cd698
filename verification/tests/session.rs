use std::collections::HashMap;

use bract::env_params::NullEnv;
use bract::form::{FormKey, FormOutcome, FormView, RunSpec};
use bract::loader::SyncLoader;
use bract::memory::NullFormMemory;
use bract::miller::{Key, KeyOutcome, MillerView};
use bract::mise_tasks::nodes_from_spec;
use bract::node::{Arg, Children, Flag, FlagKind, Node, NodeKind};
use bract::source::{Loaded, Source};
use bract::spec::{Spec, SpecCommand};

/// A tool whose help for each command path is known in advance:
/// path → (description, runnable, boolean flags, children).
struct StaticTool {
    id: String,
    name: String,
    help: HashMap<Vec<String>, (String, bool, Vec<String>, Vec<(String, String)>)>,
    bin: Vec<String>,
    /// Further flags and positionals a command path declares.
    params: HashMap<Vec<String>, (Vec<Flag>, Vec<Arg>)>,
    separator: String,
    /// A task list whose whole tree is handed over at the top level.
    tasks: Option<Spec>,
}

impl StaticTool {
    fn with_params(mut self, path: &[&str], flags: Vec<Flag>, args: Vec<Arg>) -> Self {
        self.params.insert(path.iter().map(|s| s.to_string()).collect(), (flags, args));
        self
    }
}

fn value_flag(long: &str, default: &str) -> Flag {
    Flag {
        name: format!("--{long}"),
        short: None,
        long: Some(long.to_string()),
        description: String::new(),
        required: false,
        kind: FlagKind::Value { arg_name: long.to_uppercase(), default: default.to_string(), choices: vec![] },
    }
}

fn positional(name: &str) -> Arg {
    Arg { name: name.to_string(), description: String::new(), required: true, default: String::new(), choices: vec![] }
}

fn flag(long: &str) -> Flag {
    Flag {
        name: format!("--{long}"),
        short: None,
        long: Some(long.to_string()),
        description: String::new(),
        required: false,
        kind: FlagKind::Boolean,
    }
}

impl Source for StaticTool {
    fn tool_id(&self) -> String {
        self.id.clone()
    }
    fn tool_name(&self) -> String {
        self.name.clone()
    }
    fn tool_bin(&self) -> Vec<String> {
        self.bin.clone()
    }
    fn tool_path_separator(&self) -> String {
        self.separator.clone()
    }
    fn load(&self, command_path: &[String]) -> Result<Loaded, String> {
        if let (Some(spec), true) = (&self.tasks, command_path.is_empty()) {
            return Ok(Loaded {
                description: String::new(),
                runnable: false,
                flags: vec![],
                args: vec![],
                children: nodes_from_spec(spec, &self.id),
            });
        }
        let Some((desc, runnable, flags, children)) = self.help.get(command_path) else {
            return Err(format!("no help for {}", command_path.join(" ")));
        };
        let children = children
            .iter()
            .map(|(name, about)| {
                let mut path = command_path.to_vec();
                path.push(name.clone());
                Node {
                    id: format!("{}/{}", self.id, path.join("/")),
                    name: name.clone(),
                    description: about.clone(),
                    kind: NodeKind::Unknown,
                    runnable: false,
                    flags: vec![],
                    args: vec![],
                    tool_id: self.id.clone(),
                    command_path: path,
                    children: Children::Unloaded,
                }
            })
            .collect();
        let mut flags: Vec<Flag> = flags.iter().map(|f| flag(f)).collect();
        let mut args: Vec<Arg> = vec![];
        if let Some((more_flags, more_args)) = self.params.get(command_path) {
            flags.extend(more_flags.iter().map(copy_flag));
            args.extend(more_args.iter().map(|a| Arg {
                name: a.name.clone(),
                description: a.description.clone(),
                required: a.required,
                default: a.default.clone(),
                choices: a.choices.clone(),
            }));
        }
        Ok(Loaded { description: desc.clone(), runnable: *runnable, flags, args, children })
    }
    fn cached(&self, _command_path: &[String]) -> bool {
        true
    }
}

type Entry<'a> = (&'a [&'a str], &'a str, bool, &'a [&'a str], &'a [(&'a str, &'a str)]);

fn tool(id: &str, name: &str, entries: &[Entry]) -> StaticTool {
    let help = entries
        .iter()
        .map(|(path, desc, runnable, flags, children)| {
            (
                path.iter().map(|s| s.to_string()).collect(),
                (
                    desc.to_string(),
                    *runnable,
                    flags.iter().map(|s| s.to_string()).collect(),
                    children.iter().map(|(n, d)| (n.to_string(), d.to_string())).collect(),
                ),
            )
        })
        .collect();
    StaticTool {
        id: id.to_string(),
        name: name.to_string(),
        help,
        bin: vec![id.to_string()],
        params: HashMap::new(),
        separator: " ".to_string(),
        tasks: None,
    }
}

fn copy_flag(f: &Flag) -> Flag {
    Flag {
        name: f.name.clone(),
        short: f.short,
        long: f.long.clone(),
        description: f.description.clone(),
        required: f.required,
        kind: match &f.kind {
            FlagKind::Boolean => FlagKind::Boolean,
            FlagKind::Value { arg_name, default, choices } => {
                FlagKind::Value { arg_name: arg_name.clone(), default: default.clone(), choices: choices.clone() }
            }
        },
    }
}

type Browser = MillerView<SyncLoader<StaticTool>, NullFormMemory, NullEnv>;

fn browser(tools: Vec<StaticTool>) -> Browser {
    MillerView::with_loader(tools, SyncLoader::new)
}

fn az() -> StaticTool {
    tool(
        "az",
        "az",
        &[
            (&[], "Azure command-line interface", false, &[], &[
                ("account", "Manage Azure subscription information"),
                ("aks", "Manage Azure Kubernetes Services"),
                ("group", "Manage resource groups"),
            ]),
            (&["account"], "Manage Azure subscription information", false, &[], &[
                ("list", "Get a list of subscriptions"),
                ("set", "Set a subscription to be the current one"),
                ("show", "Get the details of a subscription"),
            ]),
            (&["account", "list"], "Get a list of subscriptions", true, &["all"], &[]),
            (&["account", "set"], "Set a subscription", true, &[], &[]),
            (&["account", "show"], "Get the details of a subscription", true, &[], &[]),
            (&["aks"], "Manage Azure Kubernetes Services", false, &[], &[]),
            (&["group"], "Manage resource groups", false, &[], &[]),
        ],
    )
}

fn mani() -> StaticTool {
    tool(
        "mani",
        "mani",
        &[
            (&[], "mani is a CLI tool that helps you manage multiple repositories manager", false, &[], &[
                ("describe", "Describe resources"),
                ("edit", "Open up mani config file in $EDITOR"),
                ("sync", "Clone repositories and update .gitignore"),
            ]),
            (&["describe"], "Describe resources", false, &[], &[("projects", "Describe projects")]),
            (&["edit"], "Open up mani config file in $EDITOR", true, &[], &[("task", "Edit mani task")]),
            (&["sync"], "Clone repositories and update .gitignore", true, &["parallel"], &[]),
        ],
    )
}

fn tasks() -> StaticTool {
    tool("mise_tasks", "Mise Tasks", &[])
}

#[test]
fn root_tools_are_sorted_with_mise_tasks_pinned() {
    let view = browser(vec![az(), tasks(), mani()]);
    assert_eq!(view.root_names(), ["Mise Tasks", "az", "mani"]);
}

#[test]
fn mise_self_is_pinned_directly_under_mise_tasks() {
    let view = browser(vec![az(), mani(), tool("mise", "Mise", &[]), tasks()]);
    assert_eq!(view.root_names(), ["Mise Tasks", "Mise", "az", "mani"]);
    assert_eq!(view.depth(), 0);
    assert_eq!(view.selection(), &vec![0]);
}

#[test]
fn cached_focus_load_resolves_synchronously_without_a_spinner() {
    let view = browser(vec![mani()]);
    assert_eq!(view.pending_loads(), 0);
    assert!(view.focused_loaded());
}

#[test]
fn tool_gains_its_help_description() {
    let mut view = browser(vec![mani()]);
    assert!(view.select_path(&["mani"]));
    assert!(view.focused_description().unwrap_or_default().contains("repositories manager"));
}

#[test]
fn filter_matches_on_description_text() {
    let mut view = browser(vec![az()]);
    assert!(view.select_path(&["az", "account"]));
    view.handle_key(Key::Char('/'));
    for c in "kubernetes".chars() {
        view.handle_key(Key::Char(c));
    }
    assert_eq!(view.focused_command(), Some("aks"));
}

#[test]
fn scrolling_does_not_load_until_settled() {
    let mut view = browser(vec![az()]);
    assert!(view.select_path(&["az", "account"]));
    view.handle_key(Key::Down);
    view.handle_key(Key::Down);
    assert_eq!(view.pending_loads(), 0);
    assert!(!view.focused_loaded());
    view.pump();
    assert!(view.focused_loaded());
}

#[test]
fn enter_on_empty_filter_does_not_act_on_hidden_node() {
    let mut view = browser(vec![az()]);
    assert!(view.select_path(&["az", "account"]));
    let d = view.depth();
    view.handle_key(Key::Char('/'));
    for c in "zzz-no-such-command".chars() {
        view.handle_key(Key::Char(c));
    }
    assert!(matches!(view.handle_key(Key::Enter), Some(KeyOutcome::Consumed)));
    assert_eq!(view.depth(), d);
}

#[test]
fn cobra_pure_group_is_not_runnable() {
    let mut view = browser(vec![mani()]);
    assert!(view.select_path(&["mani", "describe"]));
    assert!(!view.focused_runnable());
    let mut view = browser(vec![mani()]);
    assert!(view.select_path(&["mani", "edit"]));
    assert!(view.focused_runnable());
    let mut view = browser(vec![mani()]);
    assert!(view.select_path(&["mani", "sync"]));
    assert!(view.focused_runnable());
}

#[test]
fn knack_leaf_runs_with_full_command_path() {
    let mut view = browser(vec![az()]);
    assert!(view.select_path(&["az", "account"]));
    assert!(view.focused_expandable());
    let mut view = browser(vec![az()]);
    assert!(view.select_path(&["az", "account", "list"]));
    assert!(!view.focused_expandable());
    assert!(view.focused_runnable());
    let spec = run_focused(&mut view);
    assert_eq!(spec.bin, vec!["az"]);
    assert_eq!(spec.args, vec!["account", "list"]);
}

#[test]
fn cobra_expandability_resolved_by_background_peek() {
    let mut view = browser(vec![mani()]);
    assert!(view.select_path(&["mani"]));
    assert!(view.unresolved_visible() > 0);
    view.pump();
    assert_eq!(view.unresolved_visible(), 0);
}

/// Open the focused command's form with `r` and run it as it stands.
fn run_focused(view: &mut Browser) -> RunSpec {
    let target = match view.handle_key(Key::Char('r')) {
        Some(KeyOutcome::OpenForm(t)) => t,
        _ => panic!("the focused command opens its form"),
    };
    let chain = view.ancestor_chain();
    let mut form = FormView::new(&chain, &target.bin, &target.separator, &target.tool_id, &NullEnv, NullFormMemory);
    match form.handle_key(FormKey::Run) {
        Some(FormOutcome::Run(spec)) => spec,
        _ => panic!("Ctrl-R runs the form"),
    }
}

#[test]
fn knack_group_is_an_unrunnable_branch() {
    let mut view = browser(vec![az()]);
    assert!(view.select_path(&["az", "account"]));
    assert!(view.focused_expandable());
    assert!(!view.focused_runnable());
}

#[test]
fn cobra_leaf_runs_after_lazy_load() {
    let mut view = browser(vec![mani()]);
    assert!(view.select_path(&["mani", "sync"]));
    let spec = run_focused(&mut view);
    assert_eq!(spec.bin, vec!["mani"]);
    assert_eq!(spec.args.first().map(String::as_str), Some("sync"));
}

#[test]
fn cobra_dual_command_stays_runnable() {
    let mut view = browser(vec![mani()]);
    assert!(view.select_path(&["mani", "edit"]));
    assert!(view.focused_expandable());
    assert!(view.focused_runnable());
}

#[test]
fn cobra_leaf_is_runnable() {
    let mut view = browser(vec![mani()]);
    assert!(view.select_path(&["mani", "sync"]));
    assert!(!view.focused_expandable());
    assert!(view.focused_runnable());
}

#[test]
fn run_key_on_unloaded_node_does_not_open_form() {
    let mut view = browser(vec![mani()]);
    assert!(view.select_path(&["mani", "describe"]));
    view.handle_key(Key::Down);
    assert!(!view.focused_loaded());
    assert!(matches!(view.handle_key(Key::Char('r')), Some(KeyOutcome::Consumed)));
}

#[test]
fn filter_jumps_to_matching_subcommand() {
    let mut view = browser(vec![az()]);
    assert!(view.select_path(&["az", "account"]));
    view.handle_key(Key::Char('/'));
    for c in "group".chars() {
        view.handle_key(Key::Char(c));
    }
    assert_eq!(view.focused_command(), Some("group"));
}

#[test]
fn a_later_source_of_the_same_tool_gives_its_binary() {
    let mut first = az();
    first.bin = vec!["az-old".to_string()];
    let mut second = az();
    second.name = "az-again".to_string();
    second.bin = vec!["az-new".to_string()];
    let mut view = browser(vec![first, second]);
    assert!(view.select_path(&["az", "account", "list"]));
    let spec = run_focused(&mut view);
    assert_eq!(spec.bin, vec!["az-new"]);
}

#[test]
fn select_path_picks_the_first_tool_so_named() {
    let mut view = browser(vec![mani(), az()]);
    assert_eq!(view.root_names(), ["az", "mani"]);
    assert!(view.select_path(&["mani", "sync"]));
    assert_eq!(view.selection()[0], 1);
    assert_eq!(view.depth(), 1);
    assert_eq!(view.focused_command(), Some("sync"));
}

/// Open the focused command's form with `r`.
fn open_form(view: &mut Browser) -> FormView<NullFormMemory> {
    let target = match view.handle_key(Key::Char('r')) {
        Some(KeyOutcome::OpenForm(t)) => t,
        _ => panic!("the focused command opens its form"),
    };
    let chain = view.ancestor_chain();
    FormView::new(&chain, &target.bin, &target.separator, &target.tool_id, &NullEnv, NullFormMemory)
}

fn run_form(form: &mut FormView<NullFormMemory>) -> RunSpec {
    match form.handle_key(FormKey::Run) {
        Some(FormOutcome::Run(spec)) => spec,
        _ => panic!("Ctrl-R runs the form"),
    }
}

fn gh() -> StaticTool {
    tool(
        "gh",
        "gh",
        &[
            (&[], "Work seamlessly with GitHub from the command line", false, &[], &[("repo", "Manage repositories")]),
            (&["repo"], "Work with GitHub repositories", false, &[], &[("view", "View a repository")]),
            (&["repo", "view"], "Display the description and the README of a GitHub repository", true, &["web"], &[]),
        ],
    )
}

fn mise_self() -> StaticTool {
    tool(
        "mise",
        "Mise",
        &[
            (&[], "The front-end to your dev env", false, &[], &[("generate", "Generate files")]),
            (&["generate"], "Generate files", false, &[], &[("completion", "Generate shell completions")]),
            (&["generate", "completion"], "Generate shell completions", true, &[], &[]),
        ],
    )
}

fn kubectl() -> StaticTool {
    tool(
        "kubectl",
        "kubectl",
        &[
            (&[], "kubectl controls the Kubernetes cluster manager", false, &[], &[("create", "Create a resource")]),
            (&["create"], "Create a resource from a file or from stdin", true, &[], &[("deployment", "Create a deployment")]),
            (&["create", "deployment"], "Create a deployment with the specified name", true, &[], &[]),
        ],
    )
    .with_params(&["create"], vec![value_flag("dry-run", "none"), value_flag("field-manager", "kubectl-create"), flag("validate")], vec![])
    .with_params(
        &["create", "deployment"],
        vec![
            value_flag("dry-run", "none"),
            value_flag("field-manager", "kubectl-create"),
            flag("validate"),
            value_flag("image", ""),
        ],
        vec![positional("NAME")],
    )
}

fn atlassian() -> StaticTool {
    tool(
        "atlassian-cli",
        "atlassian-cli",
        &[
            (&[], "Unified Atlassian Cloud CLI", false, &[], &[("jira", "Jira commands"), ("bitbucket", "Bitbucket commands")]),
            (&["jira"], "Jira commands", false, &[], &[("issue", "Issue operations")]),
            (&["jira", "issue"], "Issue operations", false, &[], &[("get", "Get an issue")]),
            (&["jira", "issue", "get"], "Get an issue", true, &[], &[]),
        ],
    )
    .with_params(&[], vec![value_flag("profile", ""), value_flag("config", ""), flag("debug")], vec![])
    .with_params(&["jira", "issue", "get"], vec![], vec![positional("KEY")])
}

fn task_list() -> StaticTool {
    let mut root = SpecCommand::named("tasks".to_string());
    for (name, help) in [
        ("app:check", "Run App Check locally"),
        ("app:check:api:test", "API tests"),
        ("app:check:api:test:cov", "API tests with coverage"),
        ("app:build", "Build the app"),
        ("lint", "Lint everything"),
    ] {
        let mut c = SpecCommand::named(name.to_string());
        c.help = Some(help.to_string());
        root.insert_subcommand(c);
    }
    let mut t = tool("mise_tasks", "Mise Tasks", &[]);
    t.bin = vec!["mise".to_string(), "run".to_string()];
    t.separator = ":".to_string();
    t.tasks = Some(Spec { name: "tasks".to_string(), bin: "mise run".to_string(), about: None, cmd: root });
    t
}

#[test]
fn mise_self_navigates_nested_commands_and_runs() {
    let mut view = browser(vec![mise_self()]);
    assert!(view.select_path(&["Mise", "generate", "completion"]));
    assert!(view.focused_runnable());
    let spec = run_focused(&mut view);
    assert_eq!(spec.bin, vec!["mise"]);
    assert_eq!(spec.args.first().map(String::as_str), Some("generate"));
    assert!(spec.args.contains(&"completion".to_string()), "{:?}", spec.args);
}

#[test]
fn gh_custom_template_navigates_and_runs() {
    let mut view = browser(vec![gh()]);
    assert!(view.select_path(&["gh", "repo", "view"]));
    assert!(!view.focused_expandable());
    let spec = run_focused(&mut view);
    assert_eq!(spec.bin, vec!["gh"]);
    assert_eq!(&spec.args[..2], &["repo", "view"]);
}

#[test]
fn leaf_positional_argument_is_fillable_and_runs() {
    let mut m = mani();
    m.help.get_mut(&Vec::<String>::new()).unwrap().3.push(("exec".to_string(), "Execute arbitrary commands".to_string()));
    m.help.insert(vec!["exec".to_string()], ("Execute arbitrary commands".to_string(), true, vec![], vec![]));
    let mut view2 = browser(vec![m.with_params(&["exec"], vec![], vec![positional("command")])]);
    assert!(view2.select_path(&["mani", "exec"]));
    let mut form = open_form(&mut view2);
    assert!(form.set_field("<command>", "ls"));
    let spec = run_form(&mut form);
    assert_eq!(spec.bin, vec!["mani"]);
    assert_eq!(spec.args.first().map(String::as_str), Some("exec"));
    assert!(spec.args.contains(&"ls".to_string()), "{:?}", spec.args);
}

#[test]
fn form_groups_parent_flags_into_their_own_sections() {
    let mut view = browser(vec![mani().with_params(&[], vec![flag("config")], vec![])]);
    assert!(view.select_path(&["mani", "sync"]));
    let form = open_form(&mut view);
    let labels = form.section_labels();
    assert!(labels.contains(&String::new()), "{labels:?}");
    assert!(labels.contains(&"mani".to_string()), "{labels:?}");
}

#[test]
fn cobra_inherited_flags_appear_once_in_form() {
    let mut view = browser(vec![kubectl()]);
    assert!(view.select_path(&["kubectl", "create", "deployment"]));
    let form = open_form(&mut view);
    let names = form.field_names();
    for flag in ["--dry-run", "--field-manager", "--validate"] {
        let count = names.iter().filter(|n| n.as_str() == flag).count();
        assert_eq!(count, 1, "{flag} in {names:?}");
    }
}

#[test]
fn value_flag_defaults_are_omitted_unless_edited() {
    let mut view = browser(vec![kubectl()]);
    assert!(view.select_path(&["kubectl", "create", "deployment"]));
    let mut form = open_form(&mut view);
    assert!(form.set_field("<NAME>", "web"));
    assert!(form.set_field("--image", "nginx"));
    let spec = run_form(&mut form);
    assert_eq!(spec.bin, vec!["kubectl"]);
    assert_eq!(spec.args, vec!["create", "deployment", "--image=nginx", "web"]);
}

#[test]
fn atlassian_root_and_jira_are_groups() {
    let mut view = browser(vec![atlassian()]);
    assert!(view.select_path(&["atlassian-cli"]));
    assert!(view.focused_expandable());
    assert!(!view.focused_runnable());
    assert!(view.select_path(&["atlassian-cli", "jira"]));
    assert!(view.focused_expandable());
    assert!(!view.focused_runnable());
}

#[test]
fn atlassian_leaf_runs_with_its_positional() {
    let mut view = browser(vec![atlassian()]);
    assert!(view.select_path(&["atlassian-cli", "jira", "issue", "get"]));
    assert!(view.focused_runnable());
    assert!(!view.focused_expandable());
    let mut form = open_form(&mut view);
    let fields = form.field_names();
    assert!(fields.iter().any(|f| f == "<KEY>"), "{fields:?}");
    assert!(fields.iter().any(|f| f == "--profile"), "{fields:?}");
    assert!(form.set_field("<KEY>", "DEV-123"));
    let spec = run_form(&mut form);
    assert_eq!(spec.bin, vec!["atlassian-cli"]);
    assert_eq!(&spec.args[..4], &["jira", "issue", "get", "DEV-123"], "{:?}", spec.args);
}

#[test]
fn mise_runnable_branch_runs_with_joined_path() {
    let mut view = browser(vec![task_list()]);
    assert!(view.select_path(&["Mise Tasks", "app", "check"]));
    assert!(view.focused_expandable());
    assert!(view.focused_runnable());
    let spec = run_focused(&mut view);
    assert_eq!(spec.bin, vec!["mise", "run"]);
    assert_eq!(spec.args, vec!["app:check"]);
}

#[test]
fn mise_deep_leaf_runs_with_joined_path() {
    let mut view = browser(vec![task_list()]);
    assert!(view.select_path(&["Mise Tasks", "app", "check", "api", "test", "cov"]));
    let spec = run_focused(&mut view);
    assert_eq!(spec.args, vec!["app:check:api:test:cov"]);
}
