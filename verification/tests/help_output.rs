use bract::help_output::{help_outcome, strip_escapes};

#[test]
fn colour_codes_are_removed_from_text() {
    assert_eq!(strip_escapes("\u{1b}[31merror\u{1b}[0m: bad flag"), "error: bad flag");
    assert_eq!(strip_escapes("\u{1b}[1;4mbold\u{1b}[m"), "bold");
    assert_eq!(strip_escapes("plain"), "plain");
}

#[test]
fn an_unfinished_sequence_runs_to_the_end() {
    assert_eq!(strip_escapes("ok\u{1b}[31"), "ok");
}

#[test]
fn an_escape_that_opens_no_sequence_is_kept() {
    assert_eq!(strip_escapes("a\u{1b}b"), "a\u{1b}b");
    assert_eq!(strip_escapes("end\u{1b}"), "end\u{1b}");
}

#[test]
fn help_printed_before_a_failing_exit_is_kept() {
    let help = "Usage:\n  devspace run [flags]\n".to_string();
    assert_eq!(help_outcome(false, help.clone(), "exit status 1"), Ok(help));
}

#[test]
fn a_failed_run_that_printed_nothing_reports_its_stderr_without_colour() {
    assert_eq!(
        help_outcome(false, " \n".to_string(), "\u{1b}[31mfatal\u{1b}[0m: unknown command"),
        Err("help failed: fatal: unknown command".to_string())
    );
}

#[test]
fn a_successful_run_gives_its_output_even_when_empty() {
    assert_eq!(help_outcome(true, String::new(), "warning"), Ok(String::new()));
}
