//! Usage specs in their own KDL form, read by usage's own reader and carried
//! over to the library's spec field by field.

use vstd::prelude::*;
use crate::spec::{ParseError, Spec, SpecArg, SpecChoices, SpecCommand, SpecFlag, SpecV};
use usage::SpecArg as UsageArg;
use usage::SpecCommand as UsageCommand;
use usage::SpecFlag as UsageFlag;

verus! {

/// usage's argument, its fields carried over one for one. Nothing is stated
/// of the result: usage's argument is opaque here.
#[verifier::external_body]
fn arg_from(a: UsageArg) -> SpecArg {
    SpecArg {
        name: a.name,
        help: a.help,
        required: a.required,
        var: a.var,
        hide: a.hide,
        default: a.default,
        choices: a.choices.map(|c| SpecChoices { choices: c.choices }),
    }
}

/// usage's flag, its fields carried over one for one. Nothing is stated of
/// the result: usage's flag is opaque here.
#[verifier::external_body]
fn flag_from(f: UsageFlag) -> SpecFlag {
    SpecFlag {
        name: f.name,
        help: f.help,
        short: f.short,
        long: f.long,
        required: f.required,
        hide: f.hide,
        global: f.global,
        count: f.count,
        arg: f.arg.map(arg_from),
        default: f.default,
    }
}

/// usage's command, its fields carried over one for one, its subcommands in
/// the order usage keeps them. Nothing is stated of the result: usage's
/// command is opaque here.
#[verifier::external_body]
fn command_from(c: UsageCommand) -> SpecCommand {
    SpecCommand {
        name: c.name,
        help: c.help,
        help_long: c.help_long,
        aliases: c.aliases,
        flags: c.flags.into_iter().map(flag_from).collect(),
        args: c.args.into_iter().map(arg_from).collect(),
        subcommands: c.subcommands.into_values().map(command_from).collect(),
        subcommand_required: c.subcommand_required,
    }
}

/// usage's `impl FromStr for Spec` on `content`, with the spec carried over
/// to the library's, or the text of usage's error. Nothing is stated of the
/// result: an `include` node, or a `schema` node of an output, makes usage
/// read another file from disk, so what comes back does not depend on
/// `content` alone.
#[verifier::external_body]
fn read_usage(content: &str) -> (r: Result<Spec, String>) {
    match content.parse::<usage::Spec>() {
        Ok(s) => Ok(Spec { name: s.name, bin: s.bin, about: s.about, cmd: command_from(s.cmd) }),
        Err(e) => Err(e.to_string()),
    }
}

/// What reading a usage spec gives, from what usage's reader returned: the
/// spec it read, or an invalid-input error carrying usage's message.
pub fn usage_outcome(raw: Result<Spec, String>) -> (r: Result<Spec, ParseError>)
    ensures
        match raw {
            Ok(s) => r == Ok::<Spec, ParseError>(s),
            Err(m) => r == Err::<Spec, ParseError>(ParseError::InvalidInput(m)),
        },
{
    match raw {
        Ok(s) => Ok(s),
        Err(m) => Err(ParseError::InvalidInput(m)),
    }
}

/// Read a usage spec in its KDL form: `content` goes to usage's reader
/// unchanged. A spec usage refuses becomes an invalid-input error carrying
/// usage's own message; which specs it refuses is usage's to decide (it may
/// read other files), so only the form of the error is stated.
pub fn parse(content: &str) -> (r: Result<Spec, ParseError>)
    ensures
        r matches Err(e) ==> e is InvalidInput,
{
    usage_outcome(read_usage(content))
}

/// The library's argument as usage's, its fields carried over one for one.
/// Nothing is stated of the result: usage's argument is opaque here.
#[verifier::external_body]
fn arg_to(a: &SpecArg) -> UsageArg {
    let mut out = usage::SpecArg::builder().name(a.name.clone()).build();
    out.help = a.help.clone();
    out.required = a.required;
    out.var = a.var;
    out.hide = a.hide;
    out.default = a.default.clone();
    out.choices = a.choices.as_ref().map(|c| usage::SpecChoices::new(c.choices.clone()));
    out
}

/// The library's flag as usage's, its fields carried over one for one.
/// Nothing is stated of the result: usage's flag is opaque here.
#[verifier::external_body]
fn flag_to(f: &SpecFlag) -> UsageFlag {
    let mut out = usage::SpecFlag::builder().name(f.name.clone()).build();
    out.help = f.help.clone();
    out.short = f.short.clone();
    out.long = f.long.clone();
    out.required = f.required;
    out.hide = f.hide;
    out.global = f.global;
    out.count = f.count;
    out.arg = f.arg.as_ref().map(arg_to);
    out.default = f.default.clone();
    out
}

/// The library's command as usage's, its fields carried over one for one,
/// its subcommands keyed by name in order. Nothing is stated of the result:
/// usage's command is opaque here.
#[verifier::external_body]
fn command_to(c: &SpecCommand) -> UsageCommand {
    let mut out = usage::SpecCommand::builder().name(c.name.clone()).build();
    out.help = c.help.clone();
    out.help_long = c.help_long.clone();
    out.aliases = c.aliases.clone();
    out.flags = c.flags.iter().map(flag_to).collect();
    out.args = c.args.iter().map(arg_to).collect();
    out.subcommands = c.subcommands.iter().map(|s| (s.name.clone(), command_to(s))).collect();
    out.subcommand_required = c.subcommand_required;
    out
}

/// What usage's `impl Display for Spec` writes for the spec carried over
/// from `spec`: usage's KDL form, a function of the spec alone.
pub uninterp spec fn usage_text(spec: SpecV) -> Seq<char>;

/// usage's `impl Display for Spec`, on the spec carried over from `spec`
/// (name, bin, about and the command tree). The contract names the result;
/// usage's writer is not restated.
#[verifier::external_body]
fn write_usage(spec: &Spec) -> (r: String)
    ensures
        r@ == usage_text(spec@),
{
    let mut out = usage::Spec::default();
    out.name = spec.name.clone();
    out.bin = spec.bin.clone();
    out.about = spec.about.clone();
    out.cmd = command_to(&spec.cmd);
    out.to_string()
}

/// A spec in usage's KDL form.
pub fn render(spec: &Spec) -> (r: String)
    ensures
        r@ == usage_text(spec@),
{
    write_usage(spec)
}

} // verus!
