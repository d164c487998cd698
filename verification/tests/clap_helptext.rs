use bract::clap_helptext::clap_input_ok;
use bract::spec::{InputFormat, Spec, SpecCommand, SpecFlag};

fn sub<'a>(cmd: &'a SpecCommand, name: &str) -> Option<&'a SpecCommand> {
    cmd.subcommands.iter().find(|c| c.name == name)
}

fn flag<'a>(cmd: &'a SpecCommand, long: &str) -> &'a SpecFlag {
    cmd.flags.iter().find(|f| f.long == vec![long.to_string()]).unwrap_or_else(|| panic!("flag --{long} not found"))
}

fn clap(text: &str) -> Spec {
    assert!(clap_input_ok(text));
    bract::parse(InputFormat::ClapHelptext, text).unwrap_or_else(|e| panic!("clap help parses: {}", e.message()))
}

const ATLASSIAN_ROOT: &str = "\
Unified Atlassian Cloud CLI

Usage: atlassian-cli [OPTIONS] <COMMAND>

Commands:
  jira        Jira Cloud operations
  confluence  Confluence Cloud operations
  bitbucket   Bitbucket Cloud operations [aliases: bb]
  jsm         Jira Service Management operations
  opsgenie    Opsgenie operations
  bamboo      Bamboo operations
  auth        Manage credentials
  help        Print this message or the help of the given subcommand(s)

Options:
  -f, --format <FORMAT>    Output format [default: table] [possible values: table, json, yaml, csv, quiet, markdown]
      --envelope           Wrap list output in a metadata envelope
  -p, --profile <PROFILE>  Profile to use from the configuration
  -h, --help               Print help
  -V, --version            Print version
";

#[test]
fn atlassian_cli_0_4_2_root_is_a_group() {
    let spec = clap(ATLASSIAN_ROOT);

    assert_eq!(spec.cmd.help.as_deref(), Some("Unified Atlassian Cloud CLI"));
    for cmd in ["jira", "confluence", "bitbucket", "jsm", "opsgenie", "bamboo", "auth"] {
        assert!(sub(&spec.cmd, cmd).is_some(), "root has `{cmd}`");
    }
    assert!(sub(&spec.cmd, "help").is_none(), "the clap `help` entry is filtered");
    assert!(spec.cmd.subcommand_required, "the root requires a subcommand");
    assert_eq!(sub(&spec.cmd, "bitbucket").unwrap().aliases, vec!["bb"]);

    let format = flag(&spec.cmd, "format");
    assert_eq!(format.short, vec!['f']);
    assert!(format.arg.is_some(), "--format takes a value");
    assert_eq!(format.default, vec!["table"]);
    let choices = format.arg.as_ref().unwrap().choices.as_ref().unwrap();
    assert_eq!(choices.choices, ["table", "json", "yaml", "csv", "quiet", "markdown"]);

    let envelope = flag(&spec.cmd, "envelope");
    assert!(envelope.arg.is_none(), "--envelope is a switch");

    let profile = flag(&spec.cmd, "profile");
    assert_eq!(profile.short, vec!['p']);
    assert!(profile.arg.is_some());
}

const ATLASSIAN_JIRA_ISSUE_GET: &str = "\
Fetch a single issue

Usage: atlassian-cli jira issue get [OPTIONS] <KEY>

Arguments:
  <KEY>  Issue key (e.g. DEV-123)

Options:
      --fields <FIELDS>  Comma-separated list of fields to return
  -h, --help             Print help
";

#[test]
fn atlassian_cli_0_4_2_jira_issue_get_is_a_leaf_with_positional() {
    let spec = clap(ATLASSIAN_JIRA_ISSUE_GET);

    assert_eq!(spec.cmd.help.as_deref(), Some("Fetch a single issue"));
    assert!(spec.cmd.subcommands.is_empty(), "a leaf has no subcommands");
    assert!(!spec.cmd.subcommand_required);

    let key = spec.cmd.args.iter().find(|a| a.name == "KEY").unwrap();
    assert!(key.required, "<KEY> is required");
    assert_eq!(key.help.as_deref(), Some("Issue key (e.g. DEV-123)"));
}

const ATLASSIAN_JIRA: &str = "\
Jira Cloud operations

Usage: atlassian-cli jira <COMMAND>

Commands:
  issue     Issue operations
  project   Project operations
  bulk      Bulk issue operations
  webhooks  Webhook management
  help      Print this message or the help of the given subcommand(s)

Options:
  -h, --help  Print help
";

#[test]
fn atlassian_cli_0_4_2_jira_is_a_nested_group() {
    let spec = clap(ATLASSIAN_JIRA);
    assert!(spec.cmd.subcommand_required);
    for cmd in ["issue", "project", "bulk", "webhooks"] {
        assert!(sub(&spec.cmd, cmd).is_some(), "jira has `{cmd}`");
    }
}

const FD_ROOT: &str = "\
A program to find entries in your filesystem

Usage: fd [OPTIONS] [pattern] [path]...

Arguments:
  [pattern]
          the search pattern which is either a regular expression (default) or a glob pattern (if
          --glob is used). If no pattern has been specified, every entry is considered a match.

  [path]...
          The directory where the filesystem search is rooted (optional). If omitted, search the
          current working directory.

Options:
  -H, --hidden
          Include hidden directories and files in the search results (default: hidden files and
          directories are skipped).

  -u, --unrestricted...
          Perform an unrestricted search, including ignored and hidden files. This is an alias for
          '--no-ignore --hidden'.

  -h, --help
          Print help (see a summary with '-h')
";

#[test]
fn fd_10_4_2_leaf_with_optional_positionals() {
    let spec = clap(FD_ROOT);

    assert_eq!(spec.cmd.help.as_deref(), Some("A program to find entries in your filesystem"));
    assert!(spec.cmd.subcommands.is_empty(), "fd is a single command");
    assert!(!spec.cmd.subcommand_required);

    let pattern = spec.cmd.args.iter().find(|a| a.name == "pattern").unwrap();
    assert!(!pattern.required, "[pattern] is optional");
    assert!(pattern.help.is_some(), "[pattern] help is assembled from next-line text");

    let path = spec.cmd.args.iter().find(|a| a.name == "path").unwrap();
    assert!(!path.required && path.var, "[path]... is optional and variadic");

    let hidden = flag(&spec.cmd, "hidden");
    assert_eq!(hidden.short, vec!['H']);
    assert!(hidden.arg.is_none(), "--hidden is a switch");

    let unrestricted = flag(&spec.cmd, "unrestricted");
    assert_eq!(unrestricted.short, vec!['u']);
    assert!(unrestricted.arg.is_none(), "--unrestricted is a count switch, not a value flag");
    assert!(unrestricted.count, "trailing ... marks a count flag");
}

const HYPERFINE_ROOT: &str = "\
A command-line benchmarking tool.

Usage: hyperfine [OPTIONS] <command>...

Arguments:
  <command>...
          The command to benchmark. This can be the name of an executable, a command line like
          \"grep -i todo\" or a shell command like \"sleep 0.5 && echo test\".

Options:
  -w, --warmup <NUM>
          Perform NUM warmup runs before the actual benchmark. This can be used to fill (disk)
          caches for I/O-heavy programs.

  -h, --help
          Print help (see a summary with '-h')
";

#[test]
fn hyperfine_1_20_0_variadic_required_positional() {
    let spec = clap(HYPERFINE_ROOT);

    assert_eq!(spec.cmd.help.as_deref(), Some("A command-line benchmarking tool."));
    assert!(spec.cmd.subcommands.is_empty());

    let command = spec.cmd.args.iter().find(|a| a.name == "command").unwrap();
    assert!(command.required && command.var, "<command>... is required and variadic");

    let warmup = flag(&spec.cmd, "warmup");
    assert_eq!(warmup.short, vec!['w']);
    assert!(warmup.arg.is_some(), "--warmup takes a value");
}

const ZOXIDE_ROOT: &str = "\
zoxide 0.9.9
https://github.com/ajeetdsouza/zoxide

A smarter cd command for your terminal

Usage:
  zoxide <COMMAND>

Commands:
  add     Add a new directory or increment its rank
  edit    Edit the database
  import  Import entries from another application
  init    Generate shell configuration
  query   Search for a directory in the database
  remove  Remove a directory from the database

Options:
  -h, --help     Print help
  -V, --version  Print version

Environment variables:
  _ZO_DATA_DIR          Path for zoxide data files
  _ZO_ECHO              Print the matched directory before navigating to it when set to 1
";

#[test]
fn zoxide_0_9_9_group_with_next_line_usage() {
    let spec = clap(ZOXIDE_ROOT);

    assert_eq!(spec.cmd.help.as_deref(), Some("A smarter cd command for your terminal"));
    assert!(spec.cmd.subcommand_required);
    for cmd in ["add", "edit", "import", "init", "query", "remove"] {
        assert!(sub(&spec.cmd, cmd).is_some(), "zoxide has `{cmd}`");
    }
}

const ZOXIDE_QUERY: &str = "\
Search for a directory in the database

Usage: zoxide query [OPTIONS] [KEYWORDS]...

Arguments:
  [KEYWORDS]...

Options:
  -a, --all              Show unavailable directories
  -i, --interactive      Use interactive selection
  -l, --list             List all matching directories
  -s, --score            Print score with results
      --exclude <path>   Exclude the current directory [default: /home/user]
  -h, --help             Print help
";

#[test]
fn zoxide_0_9_9_query_leaf_flags_and_empty_desc_arg() {
    let spec = clap(ZOXIDE_QUERY);

    assert!(spec.cmd.subcommands.is_empty());
    let keywords = spec.cmd.args.iter().find(|a| a.name == "KEYWORDS").unwrap();
    assert!(!keywords.required && keywords.var, "[KEYWORDS]... optional variadic");

    let exclude = flag(&spec.cmd, "exclude");
    assert!(exclude.arg.is_some(), "--exclude takes a path value");
    let all = flag(&spec.cmd, "all");
    assert_eq!(all.short, vec!['a']);
    assert!(all.arg.is_none());
}

const STARSHIP_ROOT: &str = "\
starship 1.25.1
The cross-shell prompt for astronauts. \u{2604}\u{1F30C}\u{FE0F}

Usage: starship <COMMAND>

Commands:
  bug-report    Create a pre-populated GitHub issue with information about your configuration
  completions   Generate starship shell completions for your shell to stdout
  config        Edit the starship configuration
  explain       Explains the currently showing modules
  init          Prints the shell function used to execute starship
  module        Prints a specific prompt module
  preset        Prints a preset config
  print-config  Prints the computed starship configuration
  prompt        Prints the full starship prompt
  session       Generate random session key
  time          Prints time in milliseconds
  timings       Prints timings of all active modules
  toggle        Toggle a given starship module
  help          Print this message or the help of the given subcommand(s)

Options:
  -h, --help     Print help
  -V, --version  Print version
";

const STARSHIP_INIT: &str = "\
Prints the shell function used to execute starship

Usage: starship init [OPTIONS] <SHELL>

Arguments:
  <SHELL>

Options:
      --print-full-init
  -h, --help             Print help
";

#[test]
fn starship_1_25_1_group_and_init_leaf() {
    let root = clap(STARSHIP_ROOT);
    assert_eq!(root.cmd.help.as_deref(), Some("The cross-shell prompt for astronauts. \u{2604}\u{1F30C}\u{FE0F}"));
    assert!(root.cmd.subcommand_required);
    for cmd in ["init", "prompt", "config", "module"] {
        assert!(sub(&root.cmd, cmd).is_some(), "starship has `{cmd}`");
    }
    assert!(sub(&root.cmd, "help").is_none());

    let init = clap(STARSHIP_INIT);
    assert!(init.cmd.subcommands.is_empty());
    assert!(!init.cmd.subcommand_required, "init is runnable (has a `<SHELL>` positional)");
    let shell = init.cmd.args.iter().find(|a| a.name == "SHELL").unwrap();
    assert!(shell.required, "<SHELL> is required");
    let print_full = flag(&init.cmd, "print-full-init");
    assert!(print_full.arg.is_none(), "--print-full-init is a switch");
}

const BAT_ROOT: &str = "\
A cat(1) clone with syntax highlighting and Git integration.

Usage: bat [OPTIONS] [FILE]...
       bat <COMMAND>

Arguments:
  [FILE]...
          File(s) to print / concatenate. Use a dash ('-') or no argument at all to read from
          standard input.

Options:
  -A, --show-all
          Show non-printable characters like space, tab or newline. This option can also be used
          to print binary files.

      --nonprintable-notation <notation>
          Specify how to display non-printable characters when using the --show-all option.

          Possible values:
            * unicode: replace non-printable characters with unicode symbols
            * caret:   replace non-printable characters with caret notation

      --color <when>
          Specify when to use colored output. The automatic mode only enables colors if an
          interactive terminal is detected.
          Possible values: *auto*, never, always.

      --style <components>
          Configure which elements (line numbers, file headers, grid borders, Git modifications, ..)
          to display in addition to the file contents.

          Possible values:
            * default: enables recommended style components (default).
            * full: enables all available components.
            * auto: same as 'default', unless the output is piped.
            * plain: disables all available components.
            * numbers: show line numbers in the side bar.

  -h, --help
          Print help (see a summary with '-h')

Commands:
  cache  Modify the syntax-definition and theme cache
";

#[test]
fn bat_0_26_1_dual_command_is_runnable() {
    let spec = clap(BAT_ROOT);

    assert_eq!(
        spec.cmd.help.as_deref(),
        Some("A cat(1) clone with syntax highlighting and Git integration."),
    );
    assert!(!spec.cmd.subcommand_required, "bat has its own run form");

    let file = spec.cmd.args.iter().find(|a| a.name == "FILE").unwrap();
    assert!(!file.required && file.var, "[FILE]... optional variadic");

    let show_all = flag(&spec.cmd, "show-all");
    assert_eq!(show_all.short, vec!['A']);
    assert!(show_all.arg.is_none());
}

#[test]
fn bat_0_26_1_recovers_verbose_possible_values() {
    let spec = clap(BAT_ROOT);
    let choices_of = |long: &str| {
        flag(&spec.cmd, long)
            .arg
            .as_ref()
            .and_then(|a| a.choices.as_ref())
            .map(|c| c.choices.clone())
            .unwrap_or_default()
    };

    assert_eq!(choices_of("nonprintable-notation"), ["unicode", "caret"]);

    assert_eq!(choices_of("color"), ["auto", "never", "always"]);
    let color = flag(&spec.cmd, "color");
    assert_eq!(color.default, vec!["auto"], "the *…*-wrapped value is the default");
    assert!(
        !color.help.as_deref().unwrap_or_default().contains("Possible values"),
        "the possible-values block is removed from help text",
    );

    let style = choices_of("style");
    assert!(style.contains(&"default".to_string()) && style.contains(&"full".to_string()), "{style:?}");
}
