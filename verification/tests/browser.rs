use std::collections::HashMap;

use bract::env_params::NullEnv;
use bract::form::{FormKey, FormOutcome, FormView};
use bract::loader::SyncLoader;
use bract::memory::NullFormMemory;
use bract::miller::{Key, KeyOutcome, MillerView};
use bract::node::{Children, Flag, FlagKind, Node, NodeKind};
use bract::source::{Loaded, Source};

/// A tool whose help for each command path is known in advance:
/// path → (description, runnable, boolean flags, children).
struct StaticTool {
    id: String,
    name: String,
    help: HashMap<Vec<String>, (String, bool, Vec<String>, Vec<(String, String)>)>,
}

fn flag(long: &str) -> Flag {
    Flag {
        name: format!("--{long}"),
        short: None,
        long: Some(long.to_string()),
        description: String::new(),
        required: false,
        kind: FlagKind::Boolean,
    }
}

impl Source for StaticTool {
    fn tool_id(&self) -> String {
        self.id.clone()
    }
    fn tool_name(&self) -> String {
        self.name.clone()
    }
    fn tool_bin(&self) -> Vec<String> {
        vec![self.id.clone()]
    }
    fn tool_path_separator(&self) -> String {
        " ".to_string()
    }
    fn load(&self, command_path: &[String]) -> Result<Loaded, String> {
        let Some((desc, runnable, flags, children)) = self.help.get(command_path) else {
            return Err(format!("no help for {}", command_path.join(" ")));
        };
        let children = children
            .iter()
            .map(|(name, about)| {
                let mut path = command_path.to_vec();
                path.push(name.clone());
                Node {
                    id: format!("{}/{}", self.id, path.join("/")),
                    name: name.clone(),
                    description: about.clone(),
                    kind: NodeKind::Unknown,
                    runnable: false,
                    flags: vec![],
                    args: vec![],
                    tool_id: self.id.clone(),
                    command_path: path,
                    children: Children::Unloaded,
                }
            })
            .collect();
        Ok(Loaded {
            description: desc.clone(),
            runnable: *runnable,
            flags: flags.iter().map(|f| flag(f)).collect(),
            args: vec![],
            children,
        })
    }
    fn cached(&self, _command_path: &[String]) -> bool {
        true
    }
}

type Entry<'a> = (&'a [&'a str], &'a str, bool, &'a [&'a str], &'a [(&'a str, &'a str)]);

fn tool(id: &str, name: &str, entries: &[Entry]) -> StaticTool {
    let help = entries
        .iter()
        .map(|(path, desc, runnable, flags, children)| {
            (
                path.iter().map(|s| s.to_string()).collect(),
                (
                    desc.to_string(),
                    *runnable,
                    flags.iter().map(|s| s.to_string()).collect(),
                    children.iter().map(|(n, d)| (n.to_string(), d.to_string())).collect(),
                ),
            )
        })
        .collect();
    StaticTool { id: id.to_string(), name: name.to_string(), help }
}

fn kit() -> StaticTool {
    tool(
        "kit",
        "kit",
        &[
            (&[], "A toolkit", false, &["verbose"], &[("build", "Build things"), ("deploy", "Ship things")]),
            (&["build"], "Build things", true, &["release", "verbose"], &[]),
            (&["deploy"], "Ship things", false, &[], &[("now", "Right away")]),
            (&["deploy", "now"], "Right away", true, &["force"], &[]),
        ],
    )
}

type Browser = MillerView<SyncLoader<StaticTool>, NullFormMemory, NullEnv>;

fn browser(tools: Vec<StaticTool>) -> Browser {
    MillerView::with_loader(tools, SyncLoader::new)
}

fn focused(view: &Browser) -> Option<String> {
    view.focused_command().map(str::to_string)
}

#[test]
fn tools_are_ordered_tasks_then_mise_then_by_name() {
    let view = browser(vec![
        tool("zed", "Zed", &[]),
        tool("mise", "mise", &[]),
        tool("alpha", "alpha", &[]),
        tool("mise_tasks", "Mise Tasks", &[]),
        tool("beta", "Beta", &[]),
    ]);
    assert_eq!(view.root_names(), ["Mise Tasks", "mise", "alpha", "Beta", "Zed"]);
    assert_eq!(view.selection(), &vec![0]);
}

#[test]
fn the_focused_tool_loads_and_its_children_open_on_right() {
    let mut view = browser(vec![kit()]);
    view.pump();
    assert!(view.focused_loaded());
    assert_eq!(view.focused_description().as_deref(), Some("A toolkit"));
    assert!(view.focused_expandable());

    assert!(matches!(view.handle_key(Key::Right), Some(KeyOutcome::Consumed)));
    assert_eq!(view.selection(), &vec![0, 0]);
    assert_eq!(focused(&view).as_deref(), Some("build"));

    assert!(matches!(view.handle_key(Key::Char('j')), Some(KeyOutcome::Consumed)));
    assert_eq!(focused(&view).as_deref(), Some("deploy"));
    // Moving past the last row wraps to the first.
    view.handle_key(Key::Down);
    assert_eq!(focused(&view).as_deref(), Some("build"));

    assert!(matches!(view.handle_key(Key::Left), Some(KeyOutcome::Consumed)));
    assert_eq!(view.selection(), &vec![0]);
    // The tools column is as far back as one can go.
    view.handle_key(Key::Char('h'));
    assert_eq!(view.selection(), &vec![0]);
}

#[test]
fn keys_the_browser_has_no_use_for_are_left_to_the_app() {
    let mut view = browser(vec![kit()]);
    view.pump();
    assert!(view.handle_key(Key::Char('q')).is_none());
    assert!(view.handle_key(Key::Esc).is_none());
    assert!(view.handle_key(Key::Other).is_none());
    assert_eq!(view.selection(), &vec![0]);
}

#[test]
fn enter_on_a_loaded_runnable_leaf_opens_its_form() {
    let mut view = browser(vec![kit()]);
    assert!(view.select_path(&["kit", "build"]));
    view.pump();
    assert!(view.focused_runnable());
    match view.handle_key(Key::Enter) {
        Some(KeyOutcome::OpenForm(target)) => {
            assert_eq!(target.bin, ["kit"]);
            assert_eq!(target.separator, " ");
            assert_eq!(target.tool_id, "kit");
        }
        _ => panic!("Enter on a runnable leaf opens a form"),
    }
    let chain: Vec<String> = view.ancestor_chain().iter().map(|n| n.name.clone()).collect();
    assert_eq!(chain, ["kit", "build"]);
}

#[test]
fn a_pure_group_does_not_open_a_form() {
    let mut view = browser(vec![kit()]);
    assert!(view.select_path(&["kit", "deploy"]));
    view.pump();
    assert!(!view.focused_runnable());
    assert!(matches!(view.handle_key(Key::Char('r')), Some(KeyOutcome::Consumed)));
}

#[test]
fn a_parent_flag_shows_once_in_the_form_of_a_deep_leaf() {
    let mut view = browser(vec![kit()]);
    assert!(view.select_path(&["kit", "deploy", "now"]));
    view.pump();
    let chain = view.ancestor_chain();
    let names: Vec<&str> = chain.iter().map(|n| n.name.as_str()).collect();
    assert_eq!(names, ["kit", "deploy", "now"]);
    let form = FormView::new(&chain, &["kit".to_string()], " ", "kit", &NullEnv, NullFormMemory);
    assert_eq!(form.title, "kit deploy now");
    assert_eq!(form.field_names(), ["--force", "--verbose"]);
    assert_eq!(form.section_labels().len(), 2);
}

#[test]
fn the_filter_narrows_the_column_by_name_or_description() {
    let mut view = browser(vec![kit()]);
    view.pump();
    view.handle_key(Key::Right);
    assert!(matches!(view.handle_key(Key::Char('/')), Some(KeyOutcome::Consumed)));
    assert_eq!(view.filter_text().map(String::as_str), Some(""));
    for c in "SHIP".chars() {
        view.handle_key(Key::Char(c));
    }
    assert_eq!(view.filter_text().map(String::as_str), Some("SHIP"));
    // "Ship things" is deploy's description: the match ignores case.
    assert_eq!(view.filtered_indices(), vec![1]);
    assert_eq!(focused(&view).as_deref(), Some("deploy"));
    view.handle_key(Key::Backspace);
    assert_eq!(view.filter_text().map(String::as_str), Some("SHI"));
    view.handle_key(Key::Esc);
    assert!(view.filter_text().is_none());
}

#[test]
fn typing_while_filtering_edits_the_query_rather_than_moving() {
    let mut view = browser(vec![kit()]);
    view.pump();
    view.handle_key(Key::Right);
    view.handle_key(Key::Char('/'));
    view.handle_key(Key::Char('j'));
    assert_eq!(view.filter_text().map(String::as_str), Some("j"));
    assert!(view.filtered_indices().is_empty());
    // Enter with nothing shown acts on nothing.
    assert!(matches!(view.handle_key(Key::Enter), Some(KeyOutcome::Consumed)));
    assert_eq!(view.selection(), &vec![0, 0]);
}

#[test]
fn a_failed_load_leaves_an_error_and_a_leaf() {
    let broken = tool("broken", "broken", &[]);
    let mut view = browser(vec![broken]);
    view.pump();
    assert_eq!(view.error_message().map(String::as_str), Some("no help for "));
    assert!(view.focused_loaded());
    assert!(!view.focused_expandable());
}

#[test]
fn idle_ticks_turn_the_spinner_and_keep_the_selection() {
    let mut view = browser(vec![kit()]);
    let before = view.spinner_frame();
    view.on_idle();
    assert_eq!(view.spinner_frame(), before + 1);
    assert_eq!(view.selection(), &vec![0]);
}

#[test]
fn set_and_toggle_reach_only_fields_of_their_kind() {
    let mut view = browser(vec![kit()]);
    assert!(view.select_path(&["kit", "build"]));
    view.pump();
    let chain = view.ancestor_chain();
    let mut form = FormView::new(&chain, &["kit".to_string()], " ", "kit", &NullEnv, NullFormMemory);
    assert!(form.toggle_field("--release"));
    assert!(!form.set_field("--release", "x"));
    assert!(!form.toggle_field("--missing"));
    match form.handle_key(FormKey::Run) {
        Some(FormOutcome::Run(spec)) => assert_eq!(spec.args, ["build", "--release"]),
        _ => panic!("Ctrl-R runs"),
    }
}

#[test]
fn a_path_with_an_unknown_name_is_not_selected() {
    let mut view = browser(vec![kit()]);
    assert!(!view.select_path(&["nope"]));
    assert_eq!(view.selection(), &vec![0]);
    assert!(!view.select_path(&["kit", "nope"]));
    assert_eq!(view.selection().len(), 1);
    assert!(!view.select_path(&[]));
}
