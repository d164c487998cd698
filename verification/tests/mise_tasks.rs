use bract::mise_tasks::nodes_from_spec;
use bract::node::{Children, Node};
use bract::spec::{Spec, SpecCommand};

fn task(name: &str, help: Option<&str>) -> SpecCommand {
    let mut c = SpecCommand::named(name.to_string());
    c.help = help.map(str::to_string);
    c
}

/// A task set in which `app:check` is both a task and the parent of others,
/// and `app:check:be` is only a namespace.
fn collisions_spec() -> Spec {
    let mut root = SpecCommand::named("app".to_string());
    for (name, help) in [
        ("app:check", Some("Run App Check locally (single origin on :8080 via service)")),
        ("app:check:be:test", Some("Backend tests")),
        ("app:check:be:test:cov", Some("Backend tests with coverage")),
        ("app:check:fe", Some("Frontend checks")),
        ("app:build", None),
        ("lint", Some("Lint everything")),
    ] {
        root.insert_subcommand(task(name, help));
    }
    Spec { name: "app".to_string(), bin: "app".to_string(), about: None, cmd: root }
}

fn collect_ids<'a>(nodes: &'a [Node], out: &mut Vec<&'a str>) {
    for node in nodes {
        out.push(&node.id);
        if let Children::Loaded(children) = &node.children {
            collect_ids(children, out);
        }
    }
}

fn find<'a>(nodes: &'a [Node], id: &str) -> Option<&'a Node> {
    for node in nodes {
        if node.id == id {
            return Some(node);
        }
        if let Children::Loaded(children) = &node.children {
            if let Some(found) = find(children, id) {
                return Some(found);
            }
        }
    }
    None
}

fn task_nodes() -> Vec<Node> {
    nodes_from_spec(&collisions_spec(), "mise_tasks")
}

// A mise task can be both runnable and a parent (e.g. `app:check` alongside
// `app:check:be`). The tree must not emit two nodes with the same id.
#[test]
fn leaf_and_group_collisions_produce_unique_ids() {
    let nodes = task_nodes();
    let mut ids = Vec::new();
    collect_ids(&nodes, &mut ids);
    let mut unique = ids.clone();
    unique.sort_unstable();
    unique.dedup();
    assert_eq!(ids.len(), unique.len(), "duplicate node ids: {ids:?}");
}

#[test]
fn runnable_parent_keeps_metadata_children_and_runnability() {
    let nodes = task_nodes();

    let check = find(&nodes, "mise_tasks/app/check").expect("app:check node");
    assert_eq!(check.description, "Run App Check locally (single origin on :8080 via service)");
    assert!(check.runnable, "a task that is also a parent stays runnable");
    assert!(matches!(check.children, Children::Loaded(ref c) if !c.is_empty()));

    // `be` is a pure namespace (no `app:check:be` task), so it must not be runnable.
    let be = find(&nodes, "mise_tasks/app/check/be").expect("be namespace node");
    assert!(!be.runnable, "synthetic namespace must not be runnable");
}

#[test]
fn task_command_path_is_segmented_for_separator_joining() {
    let nodes = task_nodes();
    let cov = find(&nodes, "mise_tasks/app/check/be/test/cov").expect("deep leaf");
    assert_eq!(cov.command_path, vec!["app", "check", "be", "test", "cov"]);
}

#[test]
fn groups_come_before_plain_tasks_each_sorted_by_name() {
    let nodes = task_nodes();
    let names: Vec<&str> = nodes.iter().map(|n| n.name.as_str()).collect();
    assert_eq!(names, vec!["app", "lint"]);
    let app = find(&nodes, "mise_tasks/app").expect("app group");
    match &app.children {
        Children::Loaded(c) => {
            let names: Vec<&str> = c.iter().map(|n| n.name.as_str()).collect();
            assert_eq!(names, vec!["check", "build"]);
        }
        _ => panic!("app group is loaded"),
    }
}
