use bract::cli::{clipboard_enabled, Cli, Mode};
use bract::rust_clap_introspect::find_crate_version;
use bract::help_tools::HelpToolSource;
use bract::node::{Children, NodeKind};
use bract::spec::{InputFormat, SpecCommand};
use bract::terminal::terminal_unavailable;

#[test]
fn cli_values_are_stable() {
    let values: Vec<String> = InputFormat::all().into_iter().map(|f| f.value_name()).collect();
    assert_eq!(
        values,
        ["usage-kdl", "cobra-helptext", "knack-helptext", "clap-helptext"]
    );
}

#[test]
fn reads_version_from_registry_path() {
    let data = b"junk/registry/src/index-xyz/clap_builder-4.6.0/src/builder/command.rs\0more";
    assert_eq!(find_crate_version(data, b"clap_builder-").as_deref(), Some("4.6.0"));
}

#[test]
fn ignores_prefix_without_a_version() {
    let data = b"see the clap_builder- docs for details";
    assert_eq!(find_crate_version(data, b"clap_builder-"), None);
}

#[test]
fn absent_in_non_clap_data() {
    let data = b"github.com/spf13/cobra and other deps";
    assert_eq!(find_crate_version(data, b"clap_builder-"), None);
}

#[test]
fn a_version_without_a_dot_is_skipped_for_a_later_one() {
    let data = b"clap_builder-4 then clap_builder-4.5.1x";
    assert_eq!(find_crate_version(data, b"clap_builder-").as_deref(), Some("4.5.1"));
    assert_eq!(find_crate_version(b"clap_builder-.4.5", b"clap_builder-"), None);
}

#[test]
fn a_real_terminal_is_allowed() {
    assert!(terminal_unavailable(true, true).is_none());
}

#[test]
fn captured_output_bails_with_a_raw_hint() {
    let hint = terminal_unavailable(false, true).expect("should bail without a tty");
    assert!(hint.contains("raw = true"), "hint names the fix: {hint:?}");
    assert!(hint.to_lowercase().contains("terminal"), "hint mentions the terminal: {hint:?}");
    assert!(terminal_unavailable(true, false).is_some());
}

#[test]
fn copying_is_on_by_default() {
    assert!(clipboard_enabled(false, false));
    assert!(Cli { no_clipboard: false, tool: vec![], spec: false }.clipboard_enabled(false));
}

#[test]
fn the_flag_turns_copying_off() {
    assert!(!clipboard_enabled(true, false));
    assert!(!Cli { no_clipboard: true, tool: vec![], spec: false }.clipboard_enabled(false));
}

// The variable is presence-based: whatever value it holds, copying is off.
#[test]
fn any_env_value_turns_copying_off() {
    assert!(!clipboard_enabled(false, true));
    assert!(!Cli { no_clipboard: false, tool: vec![], spec: false }.clipboard_enabled(true));
}

#[test]
fn the_spec_flag_prints_instead_of_browsing() {
    let browse = Cli { no_clipboard: false, tool: vec![], spec: false };
    let print = Cli { no_clipboard: false, tool: vec!["kubectl".into()], spec: true };
    assert!(matches!(browse.mode(), Mode::Browse));
    assert!(matches!(print.mode(), Mode::PrintSpecs));
    assert!(!browse.names_tools());
    assert!(print.names_tools());
}

#[test]
fn a_knack_child_is_shaped_by_whether_it_needs_a_subcommand() {
    let src = HelpToolSource::new("az".to_string(), InputFormat::KnackHelptext, ());
    let mut group = SpecCommand::named("account".to_string());
    group.subcommand_required = true;
    group.help = Some("Manage subscriptions".to_string());
    let n = src.child_node(&[], &"account".to_string(), &group);
    assert_eq!(n.id, "az/account");
    assert_eq!(n.command_path, vec!["account"]);
    assert_eq!(n.description, "Manage subscriptions");
    assert!(matches!(n.kind, NodeKind::Branch));
    assert!(!n.runnable);
    assert!(matches!(n.children, Children::Unloaded));
    let leaf = SpecCommand::named("list".to_string());
    let m = src.child_node(&["account".to_string()], &"list".to_string(), &leaf);
    assert_eq!(m.id, "az/account/list");
    assert!(matches!(m.kind, NodeKind::Leaf));
    assert!(m.runnable);
    let cobra = HelpToolSource::new("mani".to_string(), InputFormat::CobraHelptext, ());
    let c = cobra.child_node(&[], &"sync".to_string(), &leaf);
    assert!(matches!(c.kind, NodeKind::Unknown));
    assert!(c.runnable);
    assert_eq!(c.description, "");
}
