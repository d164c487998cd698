//! The command-line model every parser produces: a spec whose root command
//! carries flags, positional arguments and nested subcommands, in the shape of
//! the [Usage](https://usage.jdx.dev) specification format.
//!
//! Each type has a view made of sequences of characters, which is what the
//! parsers' contracts speak of.

use vstd::prelude::*;
use crate::text::{push_str, to_string};

verus! {

/// The input formats the parsers understand.
#[derive(Clone, Copy, PartialEq, Eq, Debug, Structural)]
pub enum InputFormat {
    UsageKdl,
    CobraHelptext,
    KnackHelptext,
    ClapHelptext,
}

impl InputFormat {
    /// The kebab-case name a command line uses for the format.
    pub fn value_name(self) -> (r: String)
        ensures
            r@ == format_value_name(self),
    {
        match self {
            InputFormat::UsageKdl => to_string(&['u', 's', 'a', 'g', 'e', '-', 'k', 'd', 'l']),
            InputFormat::CobraHelptext => to_string(
                &['c', 'o', 'b', 'r', 'a', '-', 'h', 'e', 'l', 'p', 't', 'e', 'x', 't'],
            ),
            InputFormat::KnackHelptext => to_string(
                &['k', 'n', 'a', 'c', 'k', '-', 'h', 'e', 'l', 'p', 't', 'e', 'x', 't'],
            ),
            InputFormat::ClapHelptext => to_string(
                &['c', 'l', 'a', 'p', '-', 'h', 'e', 'l', 'p', 't', 'e', 'x', 't'],
            ),
        }
    }

    /// Every format, in declaration order.
    pub fn all() -> (r: Vec<InputFormat>)
        ensures
            r@ == seq![
                InputFormat::UsageKdl,
                InputFormat::CobraHelptext,
                InputFormat::KnackHelptext,
                InputFormat::ClapHelptext,
            ],
    {
        vec![
            InputFormat::UsageKdl,
            InputFormat::CobraHelptext,
            InputFormat::KnackHelptext,
            InputFormat::ClapHelptext,
        ]
    }
}

pub open spec fn format_value_name(f: InputFormat) -> Seq<char> {
    match f {
        InputFormat::UsageKdl => seq!['u', 's', 'a', 'g', 'e', '-', 'k', 'd', 'l'],
        InputFormat::CobraHelptext => seq!['c', 'o', 'b', 'r', 'a', '-', 'h', 'e', 'l', 'p', 't', 'e', 'x', 't'],
        InputFormat::KnackHelptext => seq!['k', 'n', 'a', 'c', 'k', '-', 'h', 'e', 'l', 'p', 't', 'e', 'x', 't'],
        InputFormat::ClapHelptext => seq!['c', 'l', 'a', 'p', '-', 'h', 'e', 'l', 'p', 't', 'e', 'x', 't'],
    }
}

/// A parse failure.
pub enum ParseError {
    InvalidInput(String),
}

impl ParseError {
    /// The message a user sees: `invalid input: <detail>`.
    pub fn message(&self) -> (r: String)
        ensures
            r@ == seq!['i', 'n', 'v', 'a', 'l', 'i', 'd', ' ', 'i', 'n', 'p', 'u', 't', ':', ' ']
                + match self {
                ParseError::InvalidInput(m) => m@,
            },
    {
        let mut out = to_string(
            &['i', 'n', 'v', 'a', 'l', 'i', 'd', ' ', 'i', 'n', 'p', 'u', 't', ':', ' '],
        );
        match self {
            ParseError::InvalidInput(m) => push_str(&mut out, m.as_str()),
        }
        out
    }
}

/// The allowed values of an argument.
pub struct SpecChoices {
    pub choices: Vec<String>,
}

/// A positional argument, or the value a flag takes.
pub struct SpecArg {
    pub name: String,
    pub help: Option<String>,
    pub required: bool,
    pub var: bool,
    pub hide: bool,
    pub default: Vec<String>,
    pub choices: Option<SpecChoices>,
}

/// A flag (`--long` / `-s`), possibly taking a value.
pub struct SpecFlag {
    pub name: String,
    pub help: Option<String>,
    pub short: Vec<char>,
    pub long: Vec<String>,
    pub required: bool,
    pub hide: bool,
    pub global: bool,
    pub count: bool,
    pub arg: Option<SpecArg>,
    pub default: Vec<String>,
}

/// A command with its parameters and subcommands.
pub struct SpecCommand {
    pub name: String,
    pub help: Option<String>,
    pub help_long: Option<String>,
    pub aliases: Vec<String>,
    pub flags: Vec<SpecFlag>,
    pub args: Vec<SpecArg>,
    /// Keyed by name: at most one subcommand of each name, in first-seen order.
    pub subcommands: Vec<SpecCommand>,
    pub subcommand_required: bool,
}

/// A whole command-line interface.
pub struct Spec {
    pub name: String,
    pub bin: String,
    pub about: Option<String>,
    pub cmd: SpecCommand,
}

// ---------------------------------------------------------------------------
// Views
// ---------------------------------------------------------------------------

pub type Text = Seq<char>;

#[verifier::ext_equal]
pub struct ArgV {
    pub name: Text,
    pub help: Option<Text>,
    pub required: bool,
    pub var: bool,
    pub hide: bool,
    pub default: Seq<Text>,
    pub choices: Option<Seq<Text>>,
}

#[verifier::ext_equal]
pub struct FlagV {
    pub name: Text,
    pub help: Option<Text>,
    pub short: Seq<char>,
    pub long: Seq<Text>,
    pub required: bool,
    pub hide: bool,
    pub global: bool,
    pub count: bool,
    pub arg: Option<ArgV>,
    pub default: Seq<Text>,
}

#[verifier::ext_equal]
pub struct CmdV {
    pub name: Text,
    pub help: Option<Text>,
    pub help_long: Option<Text>,
    pub aliases: Seq<Text>,
    pub flags: Seq<FlagV>,
    pub args: Seq<ArgV>,
    pub subcommands: Seq<CmdV>,
    pub subcommand_required: bool,
}

#[verifier::ext_equal]
pub struct SpecV {
    pub name: Text,
    pub bin: Text,
    pub about: Option<Text>,
    pub cmd: CmdV,
}

pub open spec fn texts(v: Seq<String>) -> Seq<Text> {
    v.map_values(|s: String| s@)
}

pub open spec fn opt_text(o: Option<String>) -> Option<Text> {
    match o {
        Some(s) => Some(s@),
        None => None,
    }
}

pub open spec fn choices_view(c: Option<SpecChoices>) -> Option<Seq<Text>> {
    match c {
        Some(c) => Some(texts(c.choices@)),
        None => None,
    }
}

/// An argument with only its name set: optional, single-valued, visible,
/// without default or choices.
pub open spec fn arg_named(name: Text) -> ArgV {
    ArgV {
        name,
        help: None,
        required: false,
        var: false,
        hide: false,
        default: seq![],
        choices: None,
    }
}

/// A flag with only its name set.
pub open spec fn flag_named(name: Text) -> FlagV {
    FlagV {
        name,
        help: None,
        short: seq![],
        long: seq![],
        required: false,
        hide: false,
        global: false,
        count: false,
        arg: None,
        default: seq![],
    }
}

/// A command with only its name set.
pub open spec fn cmd_named(name: Text) -> CmdV {
    CmdV {
        name,
        help: None,
        help_long: None,
        aliases: seq![],
        flags: seq![],
        args: seq![],
        subcommands: seq![],
        subcommand_required: false,
    }
}

impl SpecArg {
    pub fn named(name: String) -> (r: SpecArg)
        ensures
            r@ == arg_named(name@),
    {
        let r = SpecArg {
            name,
            help: None,
            required: false,
            var: false,
            hide: false,
            default: Vec::new(),
            choices: None,
        };
        assert(r@.default =~= Seq::<Text>::empty());
        r
    }
}

impl SpecFlag {
    pub fn named(name: String) -> (r: SpecFlag)
        ensures
            r@ == flag_named(name@),
    {
        let r = SpecFlag {
            name,
            help: None,
            short: Vec::new(),
            long: Vec::new(),
            required: false,
            hide: false,
            global: false,
            count: false,
            arg: None,
            default: Vec::new(),
        };
        assert(r@.default =~= Seq::<Text>::empty());
        assert(r@.long =~= Seq::<Text>::empty());
        r
    }
}

impl SpecCommand {
    pub fn named(name: String) -> (r: SpecCommand)
        ensures
            r@ == cmd_named(name@),
    {
        let r = SpecCommand {
            name,
            help: None,
            help_long: None,
            aliases: Vec::new(),
            flags: Vec::new(),
            args: Vec::new(),
            subcommands: Vec::new(),
            subcommand_required: false,
        };
        assert(r@.aliases =~= Seq::<Text>::empty());
        assert(r@.flags =~= Seq::<FlagV>::empty());
        assert(r@.args =~= Seq::<ArgV>::empty());
        assert(r@.subcommands =~= Seq::<CmdV>::empty());
        r
    }
}

impl View for SpecArg {
    type V = ArgV;

    open spec fn view(&self) -> ArgV {
        ArgV {
            name: self.name@,
            help: opt_text(self.help),
            required: self.required,
            var: self.var,
            hide: self.hide,
            default: texts(self.default@),
            choices: choices_view(self.choices),
        }
    }
}

pub open spec fn opt_arg(o: Option<SpecArg>) -> Option<ArgV> {
    match o {
        Some(a) => Some(a@),
        None => None,
    }
}

impl View for SpecFlag {
    type V = FlagV;

    open spec fn view(&self) -> FlagV {
        FlagV {
            name: self.name@,
            help: opt_text(self.help),
            short: self.short@,
            long: texts(self.long@),
            required: self.required,
            hide: self.hide,
            global: self.global,
            count: self.count,
            arg: opt_arg(self.arg),
            default: texts(self.default@),
        }
    }
}

pub open spec fn flags_view(v: Seq<SpecFlag>) -> Seq<FlagV> {
    v.map_values(|f: SpecFlag| f@)
}

pub open spec fn args_view(v: Seq<SpecArg>) -> Seq<ArgV> {
    v.map_values(|a: SpecArg| a@)
}

pub open spec fn cmd_view(c: SpecCommand) -> CmdV
    decreases c,
{
    CmdV {
        name: c.name@,
        help: opt_text(c.help),
        help_long: opt_text(c.help_long),
        aliases: texts(c.aliases@),
        flags: flags_view(c.flags@),
        args: args_view(c.args@),
        subcommands: cmds_view(c.subcommands@),
        subcommand_required: c.subcommand_required,
    }
}

pub open spec fn cmds_view(s: Seq<SpecCommand>) -> Seq<CmdV>
    decreases s,
{
    if s.len() == 0 {
        seq![]
    } else {
        cmds_view(s.drop_last()).push(cmd_view(s.last()))
    }
}

impl View for SpecCommand {
    type V = CmdV;

    open spec fn view(&self) -> CmdV {
        cmd_view(*self)
    }
}

impl View for Spec {
    type V = SpecV;

    open spec fn view(&self) -> SpecV {
        SpecV { name: self.name@, bin: self.bin@, about: opt_text(self.about), cmd: self.cmd@ }
    }
}

} // verus!

verus! {

pub proof fn lemma_cmds_view(s: Seq<SpecCommand>)
    ensures
        cmds_view(s).len() == s.len(),
        forall|i: int| 0 <= i < s.len() ==> #[trigger] cmds_view(s)[i] == cmd_view(s[i]),
    decreases s.len(),
{
    if s.len() > 0 {
        lemma_cmds_view(s.drop_last());
    }
}

/// The first position at or after `i` of a command named `name`, or -1.
pub open spec fn cmd_index(subs: Seq<CmdV>, name: Text, i: int) -> int
    decreases subs.len() - i,
{
    if i < 0 || i >= subs.len() {
        -1
    } else if subs[i].name == name {
        i
    } else {
        cmd_index(subs, name, i + 1)
    }
}

pub proof fn lemma_cmd_index(subs: Seq<CmdV>, name: Text, i: int)
    requires
        0 <= i,
    ensures
        cmd_index(subs, name, i) == -1 || (i <= cmd_index(subs, name, i) < subs.len()),
    decreases subs.len() - i,
{
    if i < subs.len() && subs[i].name != name {
        lemma_cmd_index(subs, name, i + 1);
    }
}

/// `subs` with `c` added by name, as an insertion-ordered map does it: an
/// entry of the same name is replaced where it stands, otherwise `c` goes last.
pub open spec fn with_subcommand(subs: Seq<CmdV>, c: CmdV) -> Seq<CmdV> {
    let i = cmd_index(subs, c.name, 0);
    if 0 <= i < subs.len() {
        subs.update(i, c)
    } else {
        subs.push(c)
    }
}

/// Every command of `cs` added in turn.
pub open spec fn with_subcommands(subs: Seq<CmdV>, cs: Seq<CmdV>) -> Seq<CmdV>
    decreases cs.len(),
{
    if cs.len() == 0 {
        subs
    } else {
        with_subcommand(with_subcommands(subs, cs.drop_last()), cs.last())
    }
}

impl SpecCommand {
    /// Add a subcommand keyed by its name (replacing one of the same name).
    pub fn insert_subcommand(&mut self, c: SpecCommand)
        ensures
            final(self)@ == (CmdV {
                subcommands: with_subcommand(old(self)@.subcommands, c@),
                ..old(self)@
            }),
    {
        proof {
            lemma_cmds_view(self.subcommands@);
            lemma_cmd_index(self.subcommands@.map_values(|x: SpecCommand| cmd_view(x)), c.name@, 0);
        }
        let ghost subs = cmds_view(self.subcommands@);
        let mut i: usize = 0;
        while i < self.subcommands.len()
            invariant
                *self == *old(self),
                i <= self.subcommands@.len(),
                subs == cmds_view(self.subcommands@),
                subs.len() == self.subcommands@.len(),
                forall|k: int| 0 <= k < subs.len() ==> #[trigger] subs[k] == cmd_view(self.subcommands@[k]),
                cmd_index(subs, c.name@, 0) == cmd_index(subs, c.name@, i as int),
            decreases self.subcommands@.len() - i,
        {
            if self.subcommands[i].name == c.name {
                let ghost cv = cmd_view(c);
                let ghost old_subs = self.subcommands@;
                self.subcommands.set(i, c);
                proof {
                    lemma_cmds_view(self.subcommands@);
                    assert(subs[i as int].name == cv.name);
                    assert(cmd_index(subs, c.name@, i as int) == i);
                    assert(cmds_view(self.subcommands@) =~= subs.update(i as int, cv));
                    assert(with_subcommand(subs, cv) == subs.update(i as int, cv));
                    assert(self@ == cmd_view(*self));
                }
                return;
            }
            i += 1;
        }
        let ghost cv = cmd_view(c);
        let ghost old_subs = self.subcommands@;
        self.subcommands.push(c);
        proof {
            assert(cmd_index(subs, c.name@, i as int) == -1);
            lemma_cmds_view(self.subcommands@);
            assert(cmds_view(self.subcommands@) =~= subs.push(cv));
            assert(with_subcommand(subs, cv) == subs.push(cv));
            assert(self@ == cmd_view(*self));
        }
    }
}

} // verus!
