use bract::spec::{InputFormat, Spec, SpecCommand};

fn sub<'a>(cmd: &'a SpecCommand, name: &str) -> Option<&'a SpecCommand> {
    cmd.subcommands.iter().find(|c| c.name == name)
}

fn cobra(text: &str) -> Spec {
    bract::parse(InputFormat::CobraHelptext, text).unwrap_or_else(|e| panic!("cobra help parses: {}", e.message()))
}

const MANI_ROOT: &str = "\
mani is a CLI tool that helps you manage multiple repositories.

Usage:
  mani [command]

Available Commands:
  check       Validate config
  completion  Generate completion script
  describe    Describe projects and tasks
  edit        Open up mani config file in $EDITOR
  exec        Execute arbitrary commands
  gen         Generate man page
  help        Help about any command
  init        Initialize a mani repository
  list        List projects, tasks and tags
  run         Run tasks
  sync        Clone repositories and update .gitignore
  tui         TUI

Flags:
  -c, --config string   specify config
      --color           enable color (default true)
  -h, --help            help for mani
  -u, --user-config string   specify user config
  -v, --version         version for mani

Use \"mani [command] --help\" for more information about a command.
";

#[test]
fn mani_0_32_0_root() {
    let spec = cobra(MANI_ROOT);
    assert_eq!(spec.cmd.subcommands.len(), 12);
    assert_eq!(sub(&spec.cmd, "run").unwrap().help.as_deref(), Some("Run tasks"));
    assert_eq!(sub(&spec.cmd, "list").unwrap().help.as_deref(), Some("List projects, tasks and tags"));
    assert_eq!(sub(&spec.cmd, "check").unwrap().help.as_deref(), Some("Validate config"));

    let config_flag = spec.cmd.flags.iter().find(|f| f.long == vec!["config"]).unwrap();
    assert_eq!(config_flag.short, vec!['c']);
    assert_eq!(config_flag.help.as_deref(), Some("specify config"));
    assert!(config_flag.arg.is_some());

    let color_flag = spec.cmd.flags.iter().find(|f| f.long == vec!["color"]).unwrap();
    assert!(color_flag.short.is_empty());
    assert_eq!(color_flag.help.as_deref(), Some("enable color"));
    assert_eq!(color_flag.default, vec!["true"]);

    let version_flag = spec.cmd.flags.iter().find(|f| f.long == vec!["version"]).unwrap();
    assert_eq!(version_flag.short, vec!['v']);
    assert!(version_flag.arg.is_none());
}

const MANI_RUN: &str = "\
Run tasks.

The tasks are specified in a mani.yaml file along with the projects you can target.

Usage:
  mani run <task> [flags]

Flags:
  -a, --all                 target all projects
  -f, --forks uint32        maximum number of concurrent processes (default 4)
  -h, --help                help for run
  -p, --projects strings    run tasks on projects

Global Flags:
      --color                enable color (default true)
  -c, --config string        specify config
  -u, --user-config string   specify user config
";

#[test]
fn mani_0_32_0_run_flags_and_description() {
    let spec = cobra(MANI_RUN);
    assert_eq!(spec.cmd.help.as_deref(), Some("Run tasks."));
    assert_eq!(
        spec.cmd.help_long.as_deref(),
        Some("Run tasks.\n\nThe tasks are specified in a mani.yaml file along with the projects you can target."),
    );
    assert!(spec.cmd.subcommands.is_empty());

    let forks = spec.cmd.flags.iter().find(|f| f.long == vec!["forks"]).unwrap();
    assert_eq!(forks.short, vec!['f']);
    assert!(forks.arg.is_some());
    assert_eq!(forks.default, vec!["4"]);

    let projects = spec.cmd.flags.iter().find(|f| f.long == vec!["projects"]).unwrap();
    assert_eq!(projects.short, vec!['p']);
    assert!(projects.arg.is_some());

    let global_flags: Vec<_> = spec.cmd.flags.iter().filter(|f| f.global).collect();
    assert_eq!(global_flags.len(), 3);
    let global_config = global_flags.iter().find(|f| f.long == vec!["config"]).unwrap();
    assert_eq!(global_config.short, vec!['c']);
}

const MANI_LIST_PROJECTS: &str = "\
List projects

Usage:
  mani list projects [projects] [flags]

Aliases:
  projects, project, proj, pr

Flags:
      --headers strings   specify columns to display [project, description, url, path, tag] (default [project,tag,description])
  -h, --help              help for projects
";

#[test]
fn mani_0_32_0_list_projects_aliases() {
    let spec = cobra(MANI_LIST_PROJECTS);
    assert_eq!(spec.cmd.aliases, vec!["project", "proj", "pr"]);
    let headers = spec.cmd.flags.iter().find(|f| f.long == vec!["headers"]).unwrap();
    assert!(headers.arg.is_some());
    assert_eq!(headers.default, vec!["[project,tag,description]"]);
}

const GH_ROOT: &str = "\
Work seamlessly with GitHub from the command line.

USAGE
  gh <command> <subcommand> [flags]

CORE COMMANDS
  auth:          Authenticate gh and git with GitHub
  browse:        Open repositories, issues, pull requests, and more in the browser
  pr:            Manage pull requests
  repo:          Manage repositories

ADDITIONAL COMMANDS
  alias:         Create command shortcuts
  api:           Make an authenticated GitHub API request

HELP TOPICS
  accessibility: Learn about GitHub CLI's accessibility experiences
  environment:   Environment variables that can be used with gh
  formatting:    Formatting options for JSON data exported from gh

FLAGS
  --help      Show help for command
  --version   Show gh version

LEARN MORE
  Use `gh <command> <subcommand> --help` for more information about a command.
";

#[test]
fn cli_2_92_0_root_parses_uppercase_template() {
    let spec = cobra(GH_ROOT);
    assert!(sub(&spec.cmd, "repo").is_some());
    assert!(sub(&spec.cmd, "auth").is_some());
    assert!(sub(&spec.cmd, "pr").is_some());
    assert_eq!(sub(&spec.cmd, "repo").unwrap().help.as_deref(), Some("Manage repositories"));
    assert!(sub(&spec.cmd, "environment").is_none());
    assert!(sub(&spec.cmd, "formatting").is_none());
}

const GH_REPO: &str = "\
Work with GitHub repositories.

USAGE
  gh repo <command> [flags]

GENERAL COMMANDS
  create:        Create a new repository
  list:          List repositories owned by user or organization

TARGETED COMMANDS
  clone:         Clone a repository locally
  view:          View a repository

ARGUMENTS
  A repository can be supplied as an argument in any of the following formats:
  - \"OWNER/REPO\"
  - by URL, e.g. \"https://github.com/OWNER/REPO\"

INHERITED FLAGS
  --help   Show help for command
";

#[test]
fn cli_2_92_0_repo_lists_its_subcommands() {
    let spec = cobra(GH_REPO);
    assert!(sub(&spec.cmd, "clone").is_some());
    assert!(sub(&spec.cmd, "view").is_some());
    assert_eq!(sub(&spec.cmd, "clone").unwrap().help.as_deref(), Some("Clone a repository locally"));
}

const GH_REPO_VIEW: &str = "\
Display the description and the README of a GitHub repository.

USAGE
  gh repo view [<repository>] [flags]

FLAGS
  -b, --branch string   View a specific branch of the repository
  -q, --jq expression   Filter JSON output using a jq expression
      --json fields     Output JSON with the specified fields
  -w, --web             Open a repository in the browser

INHERITED FLAGS
  --help   Show help for command
";

#[test]
fn cli_2_92_0_repo_view_is_a_leaf_with_flags() {
    let spec = cobra(GH_REPO_VIEW);
    assert!(spec.cmd.subcommands.is_empty());
    assert!(spec.cmd.flags.iter().any(|f| f.long == vec!["json"]));
}

const MANI_DESCRIBE: &str = "\
Describe projects and tasks

Usage:
  mani describe [command]

Aliases:
  describe, desc

Available Commands:
  projects    Describe projects
  tasks       Describe tasks

Flags:
  -h, --help   help for describe

Use \"mani describe [command] --help\" for more information about a command.
";

#[test]
fn mani_0_32_0_describe_is_a_pure_group() {
    let spec = cobra(MANI_DESCRIBE);
    assert!(!spec.cmd.subcommands.is_empty());
    assert!(spec.cmd.subcommand_required);
}

const MANI_EDIT: &str = "\
Open up mani config file in $EDITOR

Usage:
  mani edit [flags]
  mani edit [command]

Aliases:
  edit, e, ed

Available Commands:
  project     Edit mani project
  task        Edit mani task

Flags:
  -h, --help   help for edit

Use \"mani edit [command] --help\" for more information about a command.
";

#[test]
fn mani_0_32_0_edit_is_runnable_despite_having_subcommands() {
    let spec = cobra(MANI_EDIT);
    assert!(!spec.cmd.subcommands.is_empty());
    assert!(!spec.cmd.subcommand_required);
}

const MANI_SYNC: &str = "\
Clone repositories and update .gitignore

Usage:
  mani sync [flags]

Flags:
  -h, --help             help for sync
  -p, --parallel         clone projects in parallel
";

#[test]
fn mani_0_32_0_sync_leaf_is_not_subcommand_required() {
    let spec = cobra(MANI_SYNC);
    assert!(spec.cmd.subcommands.is_empty());
    assert!(!spec.cmd.subcommand_required);
}

const MANI_EXEC: &str = "\
Execute arbitrary commands.

Usage:
  mani exec <command> [flags]

Flags:
  -a, --all              target all projects
  -h, --help             help for exec
";

#[test]
fn mani_0_32_0_exec_keeps_its_command_positional() {
    let spec = cobra(MANI_EXEC);
    assert!(spec.cmd.subcommands.is_empty());
    let command = spec.cmd.args.iter().find(|a| a.name == "command");
    assert!(command.is_some());
    assert!(command.unwrap().required);
}
