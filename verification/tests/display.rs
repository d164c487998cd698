use bract::clap_helptext::clap_input_ok;
use bract::direct::{not_found_message, unreadable_message};
use bract::display::{error_hint, first_visible_depth, footer_hints, icon_glyph, icon_of, param_heading, root_separator_after, row_with_rule, Icon};
use bract::form::scroll_offset_for;
use bract::node::NodeKind;

fn hints(expandable: bool, runnable: bool, filtering: bool) -> Vec<String> {
    footer_hints(expandable, runnable, filtering).into_iter().map(|h| format!("{}{}", h.key, h.label)).collect()
}

#[test]
fn the_footer_offers_what_the_focus_allows() {
    assert_eq!(hints(true, true, false), vec!["→/↵ open", "r run", "← back", "/ search", "q quit"]);
    assert_eq!(hints(false, true, false), vec!["↵ run", "← back", "/ search", "q quit"]);
    assert_eq!(hints(false, false, true), vec!["← back", "esc clear filter"]);
}

#[test]
fn each_kind_of_row_has_its_glyph() {
    assert_eq!(icon_of(NodeKind::Branch, true), Icon::RunnableBranch);
    assert_eq!(icon_glyph(icon_of(NodeKind::Branch, true)), '◆');
    assert_eq!(icon_glyph(icon_of(NodeKind::Branch, false)), '▸');
    assert_eq!(icon_glyph(icon_of(NodeKind::Leaf, true)), '•');
    assert_eq!(icon_of(NodeKind::Leaf, false), Icon::DeadLeaf);
    assert_eq!(icon_glyph(icon_of(NodeKind::Unknown, true)), '·');
}

#[test]
fn an_error_shows_its_first_line_cut_short() {
    assert_eq!(error_hint("help failed: boom\nmore"), "⚠ help failed: boom");
    let long = "x".repeat(100);
    assert_eq!(error_hint(&long).chars().count(), 62);
}

#[test]
fn the_pinned_mise_entries_end_with_a_rule() {
    let ids = |v: &[&str]| v.iter().map(|s| s.to_string()).collect::<Vec<_>>();
    assert_eq!(root_separator_after(&ids(&["mise_tasks", "mise", "kubectl"])), Some(1));
    assert_eq!(root_separator_after(&ids(&["mise_tasks", "mise"])), None);
    assert_eq!(root_separator_after(&ids(&["kubectl", "mise"])), None);
}

#[test]
fn a_rule_moves_the_rows_below_it() {
    assert_eq!(row_with_rule(Some(3), Some(1)), Some(4));
    assert_eq!(row_with_rule(Some(1), Some(1)), Some(1));
    assert_eq!(row_with_rule(None, Some(1)), None);
}

#[test]
fn one_column_of_context_stays_in_view() {
    assert_eq!(first_visible_depth(0), 0);
    assert_eq!(first_visible_depth(4), 3);
}

#[test]
fn the_commands_own_parameters_are_headed_as_such() {
    assert_eq!(param_heading(""), "Parameters");
    assert_eq!(param_heading("repo"), "repo");
}

#[test]
fn a_form_scrolls_just_enough_to_show_the_focus() {
    assert_eq!(scroll_offset_for(2, 5, 10, 0), 0);
    assert_eq!(scroll_offset_for(12, 15, 10, 0), 5);
    assert_eq!(scroll_offset_for(1, 3, 10, 5), 1);
}

#[test]
fn clap_help_is_readable_only_with_a_boundary_at_byte_six() {
    assert!(clap_input_ok("Usage: tool [OPTIONS]\n"));
    assert!(!clap_input_ok("Usageé tool\n"));
    assert!(clap_input_ok("Usagé: tool\n"));
    assert!(clap_input_ok("  Usagé indented\n"));
    assert!(clap_input_ok("ab\n"));
}

#[test]
fn an_unknown_name_is_reported_rather_than_skipped() {
    let err = not_found_message("definitely-not-installed-anywhere");
    assert!(err.contains("definitely-not-installed-anywhere"), "names the tool: {err}");
    assert!(err.contains("PATH"), "says where it looked: {err}");
    assert!(unreadable_message("x").contains("no supported framework"));
}
