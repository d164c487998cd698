use std::collections::{HashMap, VecDeque};

use bract::export::{command_from_node, spec_flag, Tool, Walk, MAX_DEPTH};
use bract::loader::{LoadOutcome, Loader, SyncLoader};
use bract::node::{Children, Flag, FlagKind, Node, NodeKind};
use bract::source::{Loaded, Source};
use bract::spec::{Spec, SpecCommand};

/// A tool whose help for each command path is given up front.
struct FakeTool {
    id: String,
    name: String,
    bin: Vec<String>,
    /// path → (description, long flags, child names)
    help: HashMap<Vec<String>, (String, Vec<String>, Vec<String>)>,
}

fn value_flag(long: &str) -> Flag {
    Flag {
        name: format!("--{long}"),
        short: None,
        long: Some(long.to_string()),
        description: format!("the {long}"),
        required: false,
        kind: FlagKind::Value { arg_name: long.to_uppercase(), default: String::new(), choices: vec![] },
    }
}

fn child_node(tool_id: &str, path: &[String], name: &str) -> Node {
    let mut command_path = path.to_vec();
    command_path.push(name.to_string());
    Node {
        id: format!("{tool_id}/{}", command_path.join("/")),
        name: name.to_string(),
        description: format!("{name} summary"),
        kind: NodeKind::Unknown,
        runnable: true,
        flags: vec![],
        args: vec![],
        tool_id: tool_id.to_string(),
        command_path,
        children: Children::Unloaded,
    }
}

impl Source for FakeTool {
    fn tool_id(&self) -> String {
        self.id.clone()
    }
    fn tool_name(&self) -> String {
        self.name.clone()
    }
    fn tool_bin(&self) -> Vec<String> {
        self.bin.clone()
    }
    fn tool_path_separator(&self) -> String {
        " ".to_string()
    }
    fn load(&self, command_path: &[String]) -> Result<Loaded, String> {
        let Some((desc, flags, children)) = self.help.get(command_path) else {
            return Err(format!("no help for {command_path:?}"));
        };
        Ok(Loaded {
            description: desc.clone(),
            runnable: children.is_empty(),
            flags: flags.iter().map(|f| value_flag(f)).collect(),
            args: vec![],
            children: children.iter().map(|c| child_node(&self.id, command_path, c)).collect(),
        })
    }
    fn cached(&self, _command_path: &[String]) -> bool {
        true
    }
}

fn tool(id: &str, entries: &[(&[&str], &str, &[&str], &[&str])]) -> FakeTool {
    let help = entries
        .iter()
        .map(|(path, desc, flags, children)| {
            (
                path.iter().map(|s| s.to_string()).collect(),
                (desc.to_string(), flags.iter().map(|s| s.to_string()).collect(), children.iter().map(|s| s.to_string()).collect()),
            )
        })
        .collect();
    FakeTool { id: id.to_string(), name: id.to_string(), bin: vec![id.to_string()], help }
}

fn mani() -> FakeTool {
    tool(
        "mani",
        &[
            (&[], "repositories manager", &["config"], &["sync", "run", "exec", "describe", "edit"]),
            (&["sync"], "Clone repositories.", &["parallel"], &[]),
            (&["run"], "Run tasks.", &["tags", "projects"], &[]),
            (&["exec"], "Execute arbitrary commands.", &["tags"], &[]),
            (&["describe"], "Describe resources.", &[], &["projects", "tasks"]),
            (&["describe", "projects"], "Describe projects.", &["tags"], &[]),
            (&["describe", "tasks"], "Describe tasks.", &[], &[]),
            (&["edit"], "Open up mani config file.", &[], &["project"]),
            (&["edit", "project"], "Edit mani project.", &[], &[]),
        ],
    )
}

fn gomplate() -> FakeTool {
    tool("gomplate", &[(&[], "template renderer", &["datasource", "file"], &[])])
}

fn kubectl() -> FakeTool {
    tool(
        "kubectl",
        &[
            (&[], "kubectl controls the Kubernetes cluster manager.", &[], &["create", "get"]),
            (&["create"], "Create a resource.", &["filename"], &["deployment", "namespace"]),
            (&["create", "deployment"], "Create a deployment.", &["image", "replicas"], &[]),
            (&["create", "namespace"], "Create a namespace.", &[], &[]),
            (&["get"], "Display resources.", &["output"], &[]),
        ],
    )
}

/// The whole walk, driven by a loader that answers at once.
fn usage_specs(sources: Vec<FakeTool>) -> Vec<Spec> {
    let tools: Vec<Tool> = sources.iter().map(|s| Tool::from_parts(s.tool_id(), s.tool_name(), &s.tool_bin())).collect();
    let mut walk = Walk::new(tools.len());
    let mut loader = SyncLoader::new(sources);
    for r in walk.start(&tools) {
        loader.request(r);
    }
    let mut queue: VecDeque<LoadOutcome> = VecDeque::new();
    while walk.outstanding() > 0 {
        if queue.is_empty() {
            queue.extend(loader.poll());
        }
        let Some(outcome) = queue.pop_front() else { break };
        for r in walk.integrate(&tools, outcome) {
            loader.request(r);
        }
    }
    walk.finish(&tools)
}

fn sub<'a>(cmd: &'a SpecCommand, name: &str) -> Option<&'a SpecCommand> {
    cmd.subcommands.iter().find(|c| c.name == name)
}

#[test]
fn a_tools_whole_tree_is_emitted_not_just_its_root() {
    let specs = usage_specs(vec![mani()]);
    let spec = specs.first().expect("mani produces a spec");

    assert_eq!(spec.name, "mani");
    for command in ["sync", "run", "exec", "describe", "edit"] {
        assert!(sub(&spec.cmd, command).is_some(), "tree has `{command}`");
    }
}

#[test]
fn a_commands_own_flags_and_description_survive() {
    let specs = usage_specs(vec![mani()]);
    let run = sub(&specs[0].cmd, "run").expect("mani run");

    assert_eq!(run.help.as_deref(), Some("Run tasks."));
    assert!(!run.flags.is_empty(), "run carries its flags");
}

// A flags-only tool is a complete document in itself: no subcommands, but its
// options are the whole point of emitting it.
#[test]
fn a_tool_without_subcommands_still_emits_its_flags() {
    let specs = usage_specs(vec![gomplate()]);
    let spec = specs.first().expect("gomplate produces a spec");

    assert!(spec.cmd.subcommands.is_empty(), "nothing to nest");
    assert!(spec.cmd.flags.iter().any(|f| f.long.iter().any(|l| l == "datasource")), "its flags are the document");
}

// Every tool's tree grows in the same bag of tasks, and a command is counted out
// as soon as its own help is parsed — never waiting for its subtree.
#[test]
fn every_tool_is_walked_to_its_leaves_in_one_pass() {
    let specs = usage_specs(vec![kubectl(), mani(), gomplate()]);
    assert_eq!(specs.len(), 3, "every tool emits a spec");

    let kubectl = specs.iter().find(|s| s.name == "kubectl").expect("kubectl emitted");
    let create = sub(&kubectl.cmd, "create").expect("kubectl create");
    let deployment = sub(create, "deployment").expect("kubectl create deployment");
    assert!(!deployment.flags.is_empty(), "a third-level command carries its own flags");

    let mani = specs.iter().find(|s| s.name == "mani").expect("mani emitted");
    assert!(sub(&mani.cmd, "run").is_some(), "a second tool's tree survives too");
}

#[test]
fn a_child_whose_help_fails_keeps_what_its_parent_said() {
    let t = tool("t", &[(&[], "top", &[], &["ok", "broken"]), (&["ok"], "fine", &[], &[])]);
    let specs = usage_specs(vec![t]);
    let broken = sub(&specs[0].cmd, "broken").expect("broken still listed");
    assert_eq!(broken.help.as_deref(), Some("broken summary"));
    assert!(broken.flags.is_empty());
}

#[test]
fn a_tool_whose_top_level_fails_emits_nothing() {
    let t = tool("t", &[]);
    assert!(usage_specs(vec![t, gomplate()]).iter().all(|s| s.name == "gomplate"));
}

#[test]
fn a_command_listed_twice_is_fetched_and_emitted_once() {
    let t = tool("t", &[(&[], "top", &[], &["a", "a"]), (&["a"], "the a", &["x"], &[])]);
    let specs = usage_specs(vec![t]);
    assert_eq!(specs[0].cmd.subcommands.len(), 1);
}

#[test]
fn the_walk_stops_at_the_depth_limit() {
    // A tool that lists itself under every command.
    let mut help = HashMap::new();
    let mut path: Vec<String> = Vec::new();
    for _ in 0..(MAX_DEPTH + 3) {
        help.insert(path.clone(), ("again".to_string(), vec![], vec!["self".to_string()]));
        path.push("self".to_string());
    }
    let t = FakeTool { id: "loop".into(), name: "loop".into(), bin: vec!["loop".into()], help };
    let specs = usage_specs(vec![t]);
    let mut depth = 0;
    let mut cmd = &specs[0].cmd;
    while let Some(next) = sub(cmd, "self") {
        depth += 1;
        cmd = next;
    }
    assert_eq!(depth, MAX_DEPTH);
}

#[test]
fn a_tools_binary_is_its_words_joined() {
    let t = Tool::from_parts("mise_tasks".into(), "Mise Tasks".into(), &vec!["mise".to_string(), "run".to_string()]);
    assert_eq!(t.bin, "mise run");
}

#[test]
fn a_delivered_subtree_is_taken_as_given() {
    let mut leaf = child_node("t", &[], "leaf");
    leaf.flags = vec![value_flag("x")];
    leaf.children = Children::Loaded(vec![]);
    let mut group = child_node("t", &[], "group");
    group.children = Children::Loaded(vec![leaf]);
    let cmd = command_from_node(&group);
    assert_eq!(cmd.name, "group");
    assert_eq!(cmd.subcommands.len(), 1);
    assert_eq!(cmd.subcommands[0].flags.len(), 1);
    assert!(cmd.subcommand_required == false);
}

#[test]
fn a_flag_is_named_by_its_long_name_then_short_then_bare_name() {
    let f = value_flag("image");
    assert_eq!(spec_flag(&f).name, "image");
    let mut s = value_flag("image");
    s.long = None;
    s.short = Some('i');
    assert_eq!(spec_flag(&s).name, "i");
    let mut b = value_flag("image");
    b.long = None;
    b.name = "--image".into();
    assert_eq!(spec_flag(&b).name, "image");
    assert_eq!(spec_flag(&f).arg.as_ref().map(|a| a.name.as_str()), Some("IMAGE"));
}

#[test]
fn what_is_emitted_parses_back_as_a_usage_spec() {
    let specs = usage_specs(vec![mani()]);
    let rendered = bract::usage_kdl::render(&specs[0]);
    let reparsed = bract::parse(bract::spec::InputFormat::UsageKdl, &rendered)
        .unwrap_or_else(|e| panic!("emitted spec must parse: {}\n---\n{rendered}", e.message()));
    assert_eq!(reparsed.name, "mani");
    for command in ["sync", "run", "exec"] {
        assert!(sub(&reparsed.cmd, command).is_some(), "`{command}` survives the round trip");
    }
}

#[test]
fn an_optional_value_flag_survives_the_round_trip() {
    let samply = tool(
        "samply",
        &[
            (&[], "profiler", &[], &["record"]),
            (&["record"], "Record a profile.", &["include-args"], &[]),
        ],
    );
    let specs = usage_specs(vec![samply]);
    let rendered = bract::usage_kdl::render(&specs[0]);
    let reparsed = bract::parse(bract::spec::InputFormat::UsageKdl, &rendered)
        .unwrap_or_else(|e| panic!("emitted spec must parse: {}\n---\n{rendered}", e.message()));
    let record = sub(&reparsed.cmd, "record").expect("samply record");
    assert!(record.flags.iter().any(|f| f.long.iter().any(|l| l == "include-args")), "{rendered}");
}
