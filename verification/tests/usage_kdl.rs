use bract::spec::{InputFormat, Spec, SpecCommand};

fn sub<'a>(cmd: &'a SpecCommand, name: &str) -> Option<&'a SpecCommand> {
    cmd.subcommands.iter().find(|c| c.name == name)
}

fn tasks_kdl() -> String {
    let mut kdl = String::from("name \"mise-tasks\"\nbin \"mise run\"\n");
    kdl.push_str(
        "cmd \"deploy\" help=\"It deploys the site and configures it for this particular project\" {\n    arg \"<deploy_license>\" {\n        choices \"personal\" \"company\"\n    }\n}\n",
    );
    for i in 0..10 {
        kdl.push_str(&format!("cmd \"task{i}\" help=\"Task number {i}\"\n"));
    }
    kdl
}

fn kdl(text: &str) -> Spec {
    bract::parse(InputFormat::UsageKdl, text).unwrap_or_else(|e| panic!("usage spec parses: {}", e.message()))
}

#[test]
fn mise_2026_1_7_tasks_with_choices() {
    let spec = kdl(&tasks_kdl());

    assert!(spec.cmd.subcommands.len() > 10);

    let deploy = sub(&spec.cmd, "deploy").expect("deploy task");
    assert_eq!(
        deploy.help.as_deref(),
        Some("It deploys the site and configures it for this particular project")
    );
    assert_eq!(deploy.args[0].name, "deploy_license");
    let choices = deploy.args[0].choices.as_ref().unwrap();
    assert!(choices.choices.contains(&"personal".to_string()));
    assert!(choices.choices.contains(&"company".to_string()));
}

#[test]
fn a_usage_spec_keeps_its_name_and_bin() {
    let spec = kdl(&tasks_kdl());
    assert_eq!(spec.name, "mise-tasks");
    assert_eq!(spec.bin, "mise run");
}

#[test]
fn a_malformed_usage_spec_is_invalid_input() {
    let err = match bract::usage_kdl::parse("cmd \"x\" {") {
        Ok(_) => panic!("an unterminated block is refused"),
        Err(e) => e.message(),
    };
    assert!(err.starts_with("invalid input: "), "{err}");
}

#[test]
fn the_help_formats_go_to_their_own_parser() {
    let text = "Usage:\n  tool [command]\n\nAvailable Commands:\n  run         Run it\n";
    let via_format = bract::parse(InputFormat::CobraHelptext, text).unwrap_or_else(|e| panic!("{}", e.message()));
    let direct = bract::cobra_helptext::parse(text).unwrap_or_else(|e| panic!("{}", e.message()));
    assert_eq!(via_format.cmd.subcommands.len(), direct.cmd.subcommands.len());
    assert!(sub(&via_format.cmd, "run").is_some());
}

#[test]
fn usage_outcome_passes_a_spec_through() {
    let spec = Spec { name: "t".to_string(), bin: "t".to_string(), about: None, cmd: SpecCommand::named("t".to_string()) };
    let got = bract::usage_kdl::usage_outcome(Ok(spec)).unwrap_or_else(|e| panic!("{}", e.message()));
    assert_eq!(got.name, "t");
}

#[test]
fn usage_outcome_carries_usages_message() {
    match bract::usage_kdl::usage_outcome(Err("unexpected node".to_string())) {
        Ok(_) => panic!("an error stays an error"),
        Err(e) => assert_eq!(e.message(), "invalid input: unexpected node"),
    }
}

#[test]
fn a_rendered_spec_reads_back() {
    let spec = kdl(&tasks_kdl());
    let text = bract::usage_kdl::render(&spec);
    assert!(text.starts_with("name mise-tasks\n"), "{text}");
    let again = kdl(&text);
    assert_eq!(again.name, "mise-tasks");
    assert_eq!(again.bin, "mise run");
    let names: Vec<&str> = again.cmd.subcommands.iter().map(|c| c.name.as_str()).collect();
    let before: Vec<&str> = spec.cmd.subcommands.iter().map(|c| c.name.as_str()).collect();
    assert_eq!(names, before);
}
