use bract::spec::{Spec, SpecCommand};

fn sub<'a>(cmd: &'a SpecCommand, name: &str) -> Option<&'a SpecCommand> {
    cmd.subcommands.iter().find(|c| c.name == name)
}

fn clap(text: &str) -> Spec {
    bract::clap_helptext::parse(text).unwrap_or_else(|e| panic!("clap help parses: {}", e.message()))
}

fn cobra(text: &str) -> Spec {
    bract::cobra_helptext::parse(text).unwrap_or_else(|e| panic!("cobra help parses: {}", e.message()))
}

fn knack(text: &str) -> Spec {
    bract::knack_helptext::parse(text).unwrap_or_else(|e| panic!("knack help parses: {}", e.message()))
}

const CLAP_ROOT: &str = "\
Unified Atlassian Cloud CLI

Usage: atlassian-cli [OPTIONS] <COMMAND>

Commands:
  jira       Jira commands
  bitbucket  Bitbucket commands [aliases: bb]
  help       Print this message or the help of the given subcommand(s)

Options:
  -f, --format <FORMAT>    Output format [default: table] [possible values: table, json, yaml]
      --envelope           Wrap output in an envelope
  -p, --profile <PROFILE>  Profile to use
  -h, --help               Print help
  -V, --version            Print version
";

#[test]
fn a_clap_group_lists_its_commands_and_options() {
    let spec = clap(CLAP_ROOT);
    assert_eq!(spec.cmd.help.as_deref(), Some("Unified Atlassian Cloud CLI"));
    assert!(sub(&spec.cmd, "jira").is_some());
    assert!(sub(&spec.cmd, "bitbucket").is_some());
    assert!(sub(&spec.cmd, "help").is_none(), "the clap `help` entry is filtered");
    assert!(spec.cmd.subcommand_required, "the root requires a subcommand");
    assert_eq!(sub(&spec.cmd, "bitbucket").unwrap().aliases, vec!["bb"]);

    let format = spec.cmd.flags.iter().find(|f| f.long == vec!["format"]).unwrap();
    assert_eq!(format.short, vec!['f']);
    assert!(format.arg.is_some(), "--format takes a value");
    assert_eq!(format.default, vec!["table"]);
    let choices = format.arg.as_ref().unwrap().choices.as_ref().unwrap();
    assert_eq!(choices.choices, ["table", "json", "yaml"]);

    let envelope = spec.cmd.flags.iter().find(|f| f.long == vec!["envelope"]).unwrap();
    assert!(envelope.arg.is_none(), "--envelope is a switch");

    let profile = spec.cmd.flags.iter().find(|f| f.long == vec!["profile"]).unwrap();
    assert_eq!(profile.short, vec!['p']);
    assert!(profile.arg.is_some());
}

const CLAP_LEAF: &str = "\
Fetch a single issue

Usage: atlassian-cli jira issue get [OPTIONS] <KEY>

Arguments:
  <KEY>  Issue key (e.g. DEV-123)

Options:
  -h, --help  Print help
";

#[test]
fn a_clap_leaf_has_its_positional() {
    let spec = clap(CLAP_LEAF);
    assert_eq!(spec.cmd.help.as_deref(), Some("Fetch a single issue"));
    assert!(spec.cmd.subcommands.is_empty(), "a leaf has no subcommands");
    assert!(!spec.cmd.subcommand_required);
    let key = spec.cmd.args.iter().find(|a| a.name == "KEY").unwrap();
    assert!(key.required, "<KEY> is required");
    assert_eq!(key.help.as_deref(), Some("Issue key (e.g. DEV-123)"));
}

const COBRA_ROOT: &str = "\
mani is a CLI tool that helps you manage multiple repositories.

Usage:
  mani [command]

Available Commands:
  check       Validate config
  list        List projects, tasks and tags
  run         Run tasks

Flags:
  -c, --config string   specify config
      --color           enable color (default true)
  -h, --help            help for mani
  -v, --version         version for mani

Use \"mani [command] --help\" for more information about a command.
";

#[test]
fn a_cobra_root_lists_commands_and_flags() {
    let spec = cobra(COBRA_ROOT);
    assert_eq!(spec.cmd.subcommands.len(), 3);
    assert_eq!(sub(&spec.cmd, "run").unwrap().help.as_deref(), Some("Run tasks"));
    assert_eq!(sub(&spec.cmd, "list").unwrap().help.as_deref(), Some("List projects, tasks and tags"));

    let config = spec.cmd.flags.iter().find(|f| f.long == vec!["config"]).unwrap();
    assert_eq!(config.short, vec!['c']);
    assert_eq!(config.help.as_deref(), Some("specify config"));
    assert!(config.arg.is_some());

    let color = spec.cmd.flags.iter().find(|f| f.long == vec!["color"]).unwrap();
    assert!(color.short.is_empty());
    assert_eq!(color.help.as_deref(), Some("enable color"));
    assert_eq!(color.default, vec!["true"]);

    let version = spec.cmd.flags.iter().find(|f| f.long == vec!["version"]).unwrap();
    assert_eq!(version.short, vec!['v']);
    assert!(version.arg.is_none());
}

const KNACK_GROUP: &str = "
Group
    az account : Manage Azure subscription information.

Subgroups:
    lock : Manage Azure subscription level locks.

Commands:
    list : Get a list of subscriptions for the logged in account. By default,
           only 'Enabled' subscriptions from the current cloud is shown.
    show : Get the details of a subscription.
";

#[test]
fn a_knack_group_distinguishes_subgroups_from_commands() {
    let spec = knack(KNACK_GROUP);
    assert!(sub(&spec.cmd, "lock").unwrap().subcommand_required);
    assert!(!sub(&spec.cmd, "list").unwrap().subcommand_required);
    assert!(!sub(&spec.cmd, "show").unwrap().subcommand_required);
    assert_eq!(
        sub(&spec.cmd, "list").unwrap().help.as_deref(),
        Some("Get a list of subscriptions for the logged in account. By default, only 'Enabled' subscriptions from the current cloud is shown."),
    );
}

const COBRA_BANNERED: &str = "\
#######################################################
############### devspace run-pipeline #################
#######################################################
Execute a pipeline
#######################################################

Usage:
  devspace run-pipeline [flags]

Flags:
  -h, --help   help for run-pipeline
";

#[test]
fn banner_rows_are_not_a_cobra_commands_description() {
    let spec = cobra(COBRA_BANNERED);
    assert_eq!(spec.cmd.help.as_deref(), Some("Execute a pipeline"));
    assert_eq!(spec.cmd.help_long, None);
    assert_eq!(spec.bin, "devspace");
}
