use bract::spec::{InputFormat, Spec, SpecCommand};

fn sub<'a>(cmd: &'a SpecCommand, name: &str) -> &'a SpecCommand {
    cmd.subcommands.iter().find(|c| c.name == name).unwrap_or_else(|| panic!("no subcommand {name}"))
}

fn knack(text: &str) -> Spec {
    bract::parse(InputFormat::KnackHelptext, text).unwrap_or_else(|e| panic!("knack help parses: {}", e.message()))
}

const AZ_ROOT: &str = "
Group
    az

Subgroups:
    account                   : Manage Azure subscription information.
    group                     : Manage resource groups and template deployments.
    vm                        : Manage Linux or Windows virtual machines.

Commands:
    find                      : I'm an AI robot, my advice is based on our Azure documentation as
                                well as the usage patterns of Azure CLI and Azure ARM users.
    login                     : Log in to Azure.
    logout                    : Log out to remove access to Azure subscriptions.
";

#[test]
fn root_lists_subgroups_as_branches() {
    let spec = knack(AZ_ROOT);
    assert!(spec.cmd.subcommand_required);
    assert_eq!(sub(&spec.cmd, "account").help.as_deref(), Some("Manage Azure subscription information."));
    assert!(sub(&spec.cmd, "account").subcommand_required);
    assert!(!sub(&spec.cmd, "login").subcommand_required);
    assert!(!sub(&spec.cmd, "logout").subcommand_required);
}

const AZ_ACCOUNT: &str = "
Group
    az account : Manage Azure subscription information.

Subgroups:
    lock             : Manage Azure subscription level locks.
    management-group : Manage Azure Management Groups.

Commands:
    clear            : Clear all subscriptions from the CLI's local cache.
    list             : Get a list of subscriptions for the logged in account. By default,
                       only 'Enabled' subscriptions from the current cloud is shown.
    set              : Set a subscription to be the current active subscription.
    show             : Get the details of a subscription.
";

#[test]
fn group_distinguishes_subgroups_from_commands() {
    let spec = knack(AZ_ACCOUNT);
    assert!(sub(&spec.cmd, "lock").subcommand_required);
    assert!(sub(&spec.cmd, "management-group").subcommand_required);
    assert!(!sub(&spec.cmd, "list").subcommand_required);
    assert!(!sub(&spec.cmd, "show").subcommand_required);
    assert_eq!(
        sub(&spec.cmd, "list").help.as_deref(),
        Some("Get a list of subscriptions for the logged in account. By default, only 'Enabled' subscriptions from the current cloud is shown."),
    );
}

const AZ_ACCOUNT_LIST: &str = "
Command
    az account list : Get a list of subscriptions for the logged in account. By default, only
    'Enabled' subscriptions from the current cloud is shown.

Arguments
    --all          : List all subscriptions from all clouds, rather than just 'Enabled' ones.
    --refresh      : Retrieve up-to-date subscriptions from server.

Global Arguments
    --debug        : Increase logging verbosity to show all debug logs.
    --help -h      : Show this help message and exit.
    --only-show-errors : Only show errors, suppressing warnings.
    --output -o    : Output format.  Allowed values: json, jsonc, none, table, tsv, yaml, yamlc.
                     Default: json.
    --query        : JMESPath query string. See http://jmespath.org/ for more information and
                     examples.
    --verbose      : Increase logging verbosity. Use --debug for full debug logs.
";

#[test]
fn leaf_command_is_runnable_and_splits_local_from_global_args() {
    let spec = knack(AZ_ACCOUNT_LIST);
    assert!(!spec.cmd.subcommand_required);
    assert!(spec.cmd.subcommands.is_empty());
    let all = spec.cmd.flags.iter().find(|f| f.long == vec!["all"]).unwrap();
    assert!(!all.global);
    let debug = spec.cmd.flags.iter().find(|f| f.long == vec!["debug"]).unwrap();
    assert!(debug.global);
    let output = spec.cmd.flags.iter().find(|f| f.long == vec!["output"]).unwrap();
    assert!(output.global);
}

const AZ_GROUP_CREATE: &str = "
Command
    az group create : Create a new resource group.

Arguments
    --name --resource-group -g -n [Required] : Name of the new resource group.
    --location -l                 [Required] : Location. Values from: `az account list-locations`.
                                               You can configure the default location using `az
                                               configure --defaults location=<location>`.
    --managed-by                             : The ID of the resource that manages this resource
                                               group.
    --tags                                   : Space-separated tags: key[=value] [key[=value]
                                               ...]. Use \"\" to clear existing tags.

Global Policy Arguments
    --acquire-policy-token                   : Acquiring an Azure Policy token automatically for
                                               this resource operation.

Global Arguments
    --debug                                  : Increase logging verbosity to show all debug logs.
    --help -h                                : Show this help message and exit.
    --output -o                              : Output format.  Allowed values: json, jsonc, none,
                                               table, tsv, yaml, yamlc.  Default: json.
    --query                                  : JMESPath query string.
    --verbose                                : Increase logging verbosity.
";

#[test]
fn argument_aliases_required_choices_and_defaults() {
    let spec = knack(AZ_GROUP_CREATE);
    let name = spec.cmd.flags.iter().find(|f| f.long.contains(&"name".to_string())).unwrap();
    assert!(name.required);
    assert_eq!(name.long, vec!["name", "resource-group"]);
    assert_eq!(name.short, vec!['g', 'n']);

    let location = spec.cmd.flags.iter().find(|f| f.long == vec!["location"]).unwrap();
    assert!(location.required);

    let tags = spec.cmd.flags.iter().find(|f| f.long == vec!["tags"]).unwrap();
    assert!(!tags.required);

    let token = spec.cmd.flags.iter().find(|f| f.long == vec!["acquire-policy-token"]).unwrap();
    assert!(token.global);

    let output = spec.cmd.flags.iter().find(|f| f.long == vec!["output"]).unwrap();
    let choices = output.arg.as_ref().and_then(|a| a.choices.as_ref()).unwrap();
    assert!(choices.choices.contains(&"json".to_string()));
    assert!(choices.choices.contains(&"yaml".to_string()));
    assert_eq!(output.default, vec!["json"]);
}
