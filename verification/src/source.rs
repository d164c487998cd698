//! Where a tool's command tree comes from. A source is lazy: nothing is
//! fetched until the details of a command path are asked for.

use vstd::prelude::*;
use crate::node::{Arg, ArgNV, Flag, FlagKind, FlagKindV, FlagNV, Node, arg_views, flag_views, strs};
use crate::spec::{ArgV, FlagV, SpecArg, SpecFlag, args_view, flags_view, opt_text, texts};
use crate::text::{chars_of, eq_chars, push_char, push_str};

verus! {

/// The details fetched for a single node from one `--help`: its own
/// description, flags and arguments, its children, and whether it is itself
/// runnable (false for a pure group that only dispatches to subcommands).
pub struct Loaded {
    pub description: String,
    pub runnable: bool,
    pub flags: Vec<Flag>,
    pub args: Vec<Arg>,
    pub children: Vec<Node>,
}

/// What a source that hands over its whole tree at the top level answers
/// for any deeper path: nothing, which says "you have it already".
pub fn empty_loaded() -> (r: Loaded)
    ensures
        r.description@.len() == 0,
        !r.runnable,
        r.flags@.len() == 0,
        r.args@.len() == 0,
        r.children@.len() == 0,
{
    Loaded { description: String::new(), runnable: false, flags: Vec::new(), args: Vec::new(), children: Vec::new() }
}

/// A discovered tool; `load(&[])` gives the tool's top level.
pub trait Source {
    fn tool_id(&self) -> String;
    fn tool_name(&self) -> String;
    fn tool_bin(&self) -> Vec<String>;
    fn tool_path_separator(&self) -> String;
    /// The details of the node at `command_path`.
    fn load(&self, command_path: &[String]) -> Result<Loaded, String>;
    /// Whether `load` for this path would be served entirely from cache.
    fn cached(&self, command_path: &[String]) -> bool;
}

/// Fetches the raw `--help` text of a command.
pub trait HelpProvider {
    fn fetch_help(&self, binary: &str, subcommand_path: &[&str]) -> Result<String, String>;
    /// Whether `fetch_help` for this path is already on disk.
    fn is_cached(&self, binary: &str, subcommand_path: &[&str]) -> bool;
}

// ---------------------------------------------------------------------------
// From a parsed spec to navigation flags and arguments
// ---------------------------------------------------------------------------

pub open spec fn lit_help() -> Seq<char> { seq!['h', 'e', 'l', 'p'] }
pub open spec fn lit_version() -> Seq<char> { seq!['v', 'e', 'r', 's', 'i', 'o', 'n'] }

/// Hidden, global, `help` and `version` flags are not offered.
pub open spec fn offered_flag(f: FlagV) -> bool {
    !f.hide && !f.global && f.name != lit_help() && f.name != lit_version()
}

/// `--long`, else `-s`, else the flag's name.
pub open spec fn display_name(f: FlagV) -> Seq<char> {
    if f.long.len() > 0 {
        seq!['-', '-'] + f.long[0]
    } else if f.short.len() > 0 {
        seq!['-', f.short[0]]
    } else {
        f.name
    }
}

pub open spec fn first_or_empty(v: Seq<Seq<char>>) -> Seq<char> {
    if v.len() > 0 { v[0] } else { seq![] }
}

pub open spec fn choices_or_empty(c: Option<Seq<Seq<char>>>) -> Seq<Seq<char>> {
    match c {
        Some(v) => v,
        None => seq![],
    }
}

pub open spec fn text_or_empty(t: Option<Seq<char>>) -> Seq<char> {
    match t {
        Some(v) => v,
        None => seq![],
    }
}

pub open spec fn converted_flag(f: FlagV) -> FlagNV {
    FlagNV {
        name: display_name(f),
        short: if f.short.len() > 0 { Some(f.short[0]) } else { None },
        long: if f.long.len() > 0 { Some(f.long[0]) } else { None },
        description: text_or_empty(f.help),
        required: f.required,
        kind: match f.arg {
            None => FlagKindV::Boolean,
            Some(a) => FlagKindV::Value {
                arg_name: a.name,
                default: first_or_empty(f.default),
                choices: choices_or_empty(a.choices),
            },
        },
    }
}

pub open spec fn converted_flags(fs: Seq<FlagV>) -> Seq<FlagNV>
    decreases fs.len(),
{
    if fs.len() == 0 {
        seq![]
    } else if offered_flag(fs.last()) {
        converted_flags(fs.drop_last()).push(converted_flag(fs.last()))
    } else {
        converted_flags(fs.drop_last())
    }
}

pub open spec fn converted_arg(a: ArgV) -> ArgNV {
    ArgNV {
        name: a.name,
        description: text_or_empty(a.help),
        required: a.required,
        default: first_or_empty(a.default),
        choices: choices_or_empty(a.choices),
    }
}

/// Hidden arguments are not offered.
pub open spec fn converted_args(as_: Seq<ArgV>) -> Seq<ArgNV>
    decreases as_.len(),
{
    if as_.len() == 0 {
        seq![]
    } else if !as_.last().hide {
        converted_args(as_.drop_last()).push(converted_arg(as_.last()))
    } else {
        converted_args(as_.drop_last())
    }
}

fn string_of(o: &Option<String>) -> (r: String)
    ensures
        r@ == text_or_empty(opt_text(*o)),
{
    match o {
        Some(s) => s.clone(),
        None => String::new(),
    }
}

fn first_string(v: &Vec<String>) -> (r: String)
    ensures
        r@ == first_or_empty(texts(v@)),
{
    if v.len() > 0 {
        v[0].clone()
    } else {
        String::new()
    }
}

fn clone_strings(v: &Vec<String>) -> (r: Vec<String>)
    ensures
        strs(r@) == texts(v@),
{
    let mut out: Vec<String> = Vec::new();
    let mut i: usize = 0;
    while i < v.len()
        invariant
            i <= v@.len(),
            out@.map_values(|s: String| s@) == v@.subrange(0, i as int).map_values(|s: String| s@),
        decreases v@.len() - i,
    {
        out.push(v[i].clone());
        assert(v@.subrange(0, i + 1).map_values(|s: String| s@) =~= v@.subrange(0, i as int).map_values(
            |s: String| s@,
        ).push(v@[i as int]@));
        assert(out@.map_values(|s: String| s@) =~= v@.subrange(0, i + 1).map_values(|s: String| s@));
        i += 1;
    }
    assert(v@.subrange(0, v@.len() as int) =~= v@);
    assert(strs(out@) =~= texts(v@));
    out
}

fn named(s: &String, lit: &[char]) -> (r: bool)
    ensures
        r == (s@ == lit@),
{
    let c = chars_of(s.as_str());
    eq_chars(c.as_slice(), lit)
}

fn convert_flag(f: &SpecFlag) -> (r: Flag)
    ensures
        r@ == converted_flag(f@),
{
    let name = if f.long.len() > 0 {
        let mut n = String::new();
        push_char(&mut n, '-');
        push_char(&mut n, '-');
        push_str(&mut n, f.long[0].as_str());
        n
    } else if f.short.len() > 0 {
        let mut n = String::new();
        push_char(&mut n, '-');
        push_char(&mut n, f.short[0]);
        n
    } else {
        f.name.clone()
    };
    let kind = match &f.arg {
        None => FlagKind::Boolean,
        Some(a) => {
            let choices = match &a.choices {
                Some(c) => clone_strings(&c.choices),
                None => Vec::new(),
            };
            FlagKind::Value { arg_name: a.name.clone(), default: first_string(&f.default), choices }
        },
    };
    let r = Flag {
        name,
        short: if f.short.len() > 0 { Some(f.short[0]) } else { None },
        long: if f.long.len() > 0 { Some(f.long[0].clone()) } else { None },
        description: string_of(&f.help),
        required: f.required,
        kind,
    };
    proof {
        if f.arg is Some {
            let a = f.arg->0;
            assert(strs(match r.kind { FlagKind::Value { choices, .. } => choices@, _ => seq![] })
                =~= choices_or_empty(a@.choices));
        }
        if f.long@.len() > 0 {
            assert(r.name@ =~= seq!['-', '-'] + f@.long[0]);
        } else if f.short@.len() > 0 {
            assert(r.name@ =~= seq!['-', f@.short[0]]);
        }
    }
    r
}

fn convert_arg(a: &SpecArg) -> (r: Arg)
    ensures
        r@ == converted_arg(a@),
{
    let choices = match &a.choices {
        Some(c) => clone_strings(&c.choices),
        None => Vec::new(),
    };
    let r = Arg {
        name: a.name.clone(),
        description: string_of(&a.help),
        required: a.required,
        default: first_string(&a.default),
        choices,
    };
    assert(r@.choices =~= choices_or_empty(a@.choices));
    r
}

/// The flags a form offers for a command, as navigation flags.
pub fn convert_flags(spec_flags: &[SpecFlag]) -> (r: Vec<Flag>)
    ensures
        flag_views(r@) == converted_flags(flags_view(spec_flags@)),
{
    let ghost all = flags_view(spec_flags@);
    let mut out: Vec<Flag> = Vec::new();
    let mut i: usize = 0;
    while i < spec_flags.len()
        invariant
            i <= spec_flags@.len(),
            all == flags_view(spec_flags@),
            flag_views(out@) == converted_flags(all.take(i as int)),
        decreases spec_flags@.len() - i,
    {
        let f = &spec_flags[i];
        proof {
            assert(all.take(i + 1).drop_last() =~= all.take(i as int));
            assert(all.take(i + 1).last() == f@);
        }
        let keep = !f.hide && !f.global && !named(&f.name, &['h', 'e', 'l', 'p'])
            && !named(&f.name, &['v', 'e', 'r', 's', 'i', 'o', 'n']);
        assert(['h', 'e', 'l', 'p']@ =~= lit_help());
        assert(['v', 'e', 'r', 's', 'i', 'o', 'n']@ =~= lit_version());
        if keep {
            let ghost before = out@;
            out.push(convert_flag(f));
            assert(flag_views(out@) =~= flag_views(before).push(converted_flag(f@)));
        }
        i += 1;
    }
    assert(all.take(spec_flags@.len() as int) =~= all);
    out
}

/// The arguments a form offers for a command.
pub fn convert_args(spec_args: &[SpecArg]) -> (r: Vec<Arg>)
    ensures
        arg_views(r@) == converted_args(args_view(spec_args@)),
{
    let ghost all = args_view(spec_args@);
    let mut out: Vec<Arg> = Vec::new();
    let mut i: usize = 0;
    while i < spec_args.len()
        invariant
            i <= spec_args@.len(),
            all == args_view(spec_args@),
            arg_views(out@) == converted_args(all.take(i as int)),
        decreases spec_args@.len() - i,
    {
        let a = &spec_args[i];
        proof {
            assert(all.take(i + 1).drop_last() =~= all.take(i as int));
            assert(all.take(i + 1).last() == a@);
        }
        if !a.hide {
            let ghost before = out@;
            out.push(convert_arg(a));
            assert(arg_views(out@) =~= arg_views(before).push(converted_arg(a@)));
        }
        i += 1;
    }
    assert(all.take(spec_args@.len() as int) =~= all);
    out
}

} // verus!
