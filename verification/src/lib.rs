pub mod text;
pub mod spec;
pub mod clap_helptext;
pub mod shell_quote;
pub mod quote_laws;
pub mod env_params;
pub mod clipboard;
pub mod rust_clap_introspect;
pub mod terminal;
pub mod cli;
pub mod node;
pub mod commands;
pub mod source;
pub mod loader;
pub mod memory;
pub mod miller;
pub mod cobra_helptext;
pub mod cobra_laws;
pub mod knack_helptext;
pub mod knack_laws;
pub mod form;
pub mod form_laws;
pub mod usage_source;
pub mod help_tools;
pub mod mise_tasks;
pub mod keymap;
pub mod export;
pub mod classify;
pub mod fingerprint;
pub mod go_buildinfo;
pub mod views;
pub mod direct;
pub mod display;
pub mod help_output;
pub mod usage_types;
pub mod usage_kdl;

use vstd::prelude::*;
use crate::clap_helptext::{clap_spec, usage_prefix_slicable};
use crate::cobra_helptext::cobra_spec;
use crate::knack_helptext::knack_spec;
use crate::spec::{InputFormat, ParseError, Spec};

verus! {

/// Parse `content` as `format`. The three help formats always give a spec:
/// the one their parser reads from the text. A usage spec is read by usage's
/// own reader, which may refuse it.
pub fn parse(format: InputFormat, content: &str) -> (r: Result<Spec, ParseError>)
    requires
        format is ClapHelptext ==> usage_prefix_slicable(content@),
    ensures
        format is CobraHelptext ==> (r matches Ok(s) && s@ == cobra_spec(content@)),
        format is KnackHelptext ==> (r matches Ok(s) && s@ == knack_spec(content@)),
        format is ClapHelptext ==> (r matches Ok(s) && s@ == clap_spec(content@)),
        r matches Err(e) ==> (format is UsageKdl && e is InvalidInput),
{
    match format {
        InputFormat::UsageKdl => usage_kdl::parse(content),
        InputFormat::CobraHelptext => cobra_helptext::parse(content),
        InputFormat::KnackHelptext => knack_helptext::parse(content),
        InputFormat::ClapHelptext => clap_helptext::parse(content),
    }
}

} // verus!
