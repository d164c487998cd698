//! Parser for help rendered by [Cobra](https://github.com/spf13/cobra)
//! templates and their many dialects: column-0 section headers (`Usage:`,
//! `Available Commands:`, gh's `CORE COMMANDS`, kubectl's `Deploy
//! Commands:`, rclone's flag groups), each followed by indented entries.

use vstd::prelude::*;
use vstd::slice::slice_subrange;
use crate::clap_helptext::{split_def, split_def_and_description};
use crate::text::{
    matches_at, chars_of, contains, contains_in, ends_with, eq_chars, find, find_in, first_word,
    has_prefix, has_suffix, is_whitespace, is_ws, join, lines, lower, rfind, rfind_in, split,
    split_on, split_lines, split_words, starts_with, to_lower, to_string, trim, trim_end,
    trim_end_char, trim_end_char_of, trim_end_of, trim_of, trim_set, trim_set_of, unicode_lower,
    to_lowercase, views_as, words, has_char, contains_char, lemma_find_from_range,
    lemma_rfind_from_range, join_strings,
};
use crate::spec::{
    arg_named, args_view, cmd_named, flag_named, flags_view, lemma_cmds_view, texts, with_subcommands,
    ArgV, CmdV, FlagV, ParseError, Spec, SpecArg, SpecCommand, SpecFlag, SpecV, Text,
};

verus! {

// ---------------------------------------------------------------------------
// Sections
// ---------------------------------------------------------------------------

#[derive(Clone, Copy, PartialEq, Eq, Debug, Structural)]
pub enum CobraSection {
    Preamble,
    Usage,
    Aliases,
    Examples,
    Commands,
    Flags,
    GlobalFlags,
    Done,
}

pub open spec fn lit_commands() -> Text { "commands"@ }

/// Whether a lower-cased column-0 header names a command group: it ends in
/// the word `commands`, allowing a trailing `:` and a parenthetical
/// qualifier (`basic commands (beginner):`).
pub open spec fn command_header(h: Text) -> bool {
    let b0 = if ends_with(h, seq![':']) { h.subrange(0, h.len() - 1) } else { h };
    let b1 = trim_end(b0);
    let open = rfind(b1, seq!['(']);
    let base = if open >= 0 && ends_with(b1, seq![')']) { trim_end(b1.subrange(0, open)) } else { b1 };
    ends_with(base, lit_commands())
}

/// The section a line opens, if it is a column-0 header (matched in any
/// ASCII case).
pub open spec fn cobra_header(line: Text) -> Option<CobraSection> {
    if line.len() > 0 && is_ws(line[0]) {
        None
    } else {
        let h = lower(trim_end(line));
        if h == "usage:"@ || h == "usage"@ {
            Some(CobraSection::Usage)
        } else if h == "aliases:"@ || h == "aliases"@ {
            Some(CobraSection::Aliases)
        } else if h == "examples:"@ || h == "examples"@ {
            Some(CobraSection::Examples)
        } else if h == "flags:"@ || h == "flags"@ || h == "options:"@ || h == "options"@ {
            Some(CobraSection::Flags)
        } else if h == "global flags:"@ || h == "global flags"@ || h == "inherited flags"@ {
            Some(CobraSection::GlobalFlags)
        } else if h == "help topics"@ || h == "arguments"@ || h == "learn more"@ || h == "environment variables"@ {
            Some(CobraSection::Done)
        } else if starts_with(h, "flags "@) || contains(h, "(flag group"@) {
            Some(CobraSection::Flags)
        } else if command_header(h) {
            Some(CobraSection::Commands)
        } else {
            None
        }
    }
}

fn is_lit(h: &[char], lit: &str) -> (r: bool)
    ensures
        r == (h@ == lit@),
{
    let l = chars_of(lit);
    eq_chars(h, l.as_slice())
}

fn is_command_header(h: &[char]) -> (r: bool)
    ensures
        r == command_header(h@),
{
    assert([':']@ =~= seq![':']);
    assert([')']@ =~= seq![')']);
    assert(['(']@ =~= seq!['(']);
    let b0: &[char] = if has_suffix(h, &[':']) { slice_subrange(h, 0, h.len() - 1) } else { h };
    let b1 = trim_end_of(b0);
    let base: &[char] = match rfind_in(b1, &['(']) {
        Some(open) => if has_suffix(b1, &[')']) {
            proof {
                lemma_rfind_from_range(b1@, seq!['('], b1@.len() - 1);
            }
            trim_end_of(slice_subrange(b1, 0, open))
        } else {
            b1
        },
        None => b1,
    };
    let c = chars_of("commands");
    has_suffix(base, c.as_slice())
}

/// Recognise a column-0 section header.
pub fn detect_section(line: &[char]) -> (r: Option<CobraSection>)
    ensures
        r == cobra_header(line@),
{
    if line.len() > 0 && is_whitespace(line[0]) {
        return None;
    }
    let hv = to_lower(trim_end_of(line));
    let h = hv.as_slice();
    if is_lit(h, "usage:") || is_lit(h, "usage") {
        Some(CobraSection::Usage)
    } else if is_lit(h, "aliases:") || is_lit(h, "aliases") {
        Some(CobraSection::Aliases)
    } else if is_lit(h, "examples:") || is_lit(h, "examples") {
        Some(CobraSection::Examples)
    } else if is_lit(h, "flags:") || is_lit(h, "flags") || is_lit(h, "options:") || is_lit(h, "options") {
        Some(CobraSection::Flags)
    } else if is_lit(h, "global flags:") || is_lit(h, "global flags") || is_lit(h, "inherited flags") {
        Some(CobraSection::GlobalFlags)
    } else if is_lit(h, "help topics") || is_lit(h, "arguments") || is_lit(h, "learn more") || is_lit(
        h,
        "environment variables",
    ) {
        Some(CobraSection::Done)
    } else {
        let fl = chars_of("flags ");
        let fg = chars_of("(flag group");
        if has_prefix(h, fl.as_slice()) || contains_in(h, fg.as_slice()) {
            Some(CobraSection::Flags)
        } else if is_command_header(h) {
            Some(CobraSection::Commands)
        } else {
            None
        }
    }
}

// ---------------------------------------------------------------------------
// Flag lines
// ---------------------------------------------------------------------------

/// What the definition's tokens have given so far: short names, long names,
/// and the value argument.
pub struct FlagTokens {
    pub short: Seq<char>,
    pub long: Seq<Text>,
    pub arg: Option<ArgV>,
}

/// One token of a flag definition: `-s,` gives a short name (a single ASCII
/// character), `--name` a long one, and a bare word after a long name marks
/// a value, named after the last long name.
pub open spec fn flag_token(st: FlagTokens, t: Text) -> FlagTokens {
    if starts_with(t, seq!['-']) && t.len() >= 2 && t[t.len() - 1] == ',' {
        let c = t.subrange(1, t.len() - 1);
        if c.len() == 1 && (c[0] as u32) < 128 {
            FlagTokens { short: st.short.push(c[0]), ..st }
        } else {
            st
        }
    } else if starts_with(t, seq!['-', '-']) {
        FlagTokens { long: st.long.push(t.subrange(2, t.len() as int)), ..st }
    } else if !starts_with(t, seq!['-']) && st.long.len() > 0 {
        FlagTokens { arg: Some(arg_named(st.long.last())), ..st }
    } else {
        st
    }
}

pub open spec fn flag_tokens(ts: Seq<Text>) -> FlagTokens
    decreases ts.len(),
{
    if ts.len() == 0 {
        FlagTokens { short: seq![], long: seq![], arg: None }
    } else {
        flag_token(flag_tokens(ts.drop_last()), ts.last())
    }
}

pub open spec fn lit_default_open() -> Text { "(default "@ }
pub open spec fn lit_default_sep() -> Text { " (default "@ }

/// The value of the last `(default …)` annotation in a description, quotes
/// trimmed.
pub open spec fn default_in(h: Text) -> Seq<Text> {
    let start = rfind(h, lit_default_open());
    if start >= 0 {
        let end = find(h.subrange(start, h.len() as int), seq![')']);
        if end >= 0 {
            seq![trim_set(h.subrange(start + 9, start + end), seq!['"'])]
        } else {
            seq![]
        }
    } else {
        seq![]
    }
}

/// The description with its last ` (default …)` annotation and what follows
/// it cut off.
pub open spec fn clean_help(h: Text) -> Text {
    let s = rfind(h, lit_default_sep());
    if s >= 0 { h.subrange(0, s) } else { h }
}

/// A flag entry line (`-o, --output string   Output format (default "json")`);
/// `None` for a blank line or one with no long name.
pub open spec fn cobra_flag(line: Text) -> Option<FlagV> {
    let t = trim(line);
    if t.len() == 0 {
        None
    } else {
        let (def, help) = split_def(t);
        let toks = flag_tokens(words(def));
        if toks.long.len() == 0 {
            None
        } else {
            Some(FlagV {
                short: toks.short,
                long: toks.long,
                help: match help {
                    Some(h) => Some(clean_help(h)),
                    None => None,
                },
                arg: toks.arg,
                default: match help {
                    Some(h) => default_in(h),
                    None => seq![],
                },
                ..flag_named(toks.long[0])
            })
        }
    }
}

proof fn lemma_find_range(s: Text, p: Text)
    ensures
        find(s, p) == -1 || (0 <= find(s, p) && find(s, p) + p.len() <= s.len() && s.subrange(find(s, p), find(s, p) + p.len()) == p),
{
    lemma_find_from_range(s, p, 0);
}

fn default_of(h: &[char]) -> (r: Vec<String>)
    ensures
        texts(r@) == default_in(h@),
{
    let open = chars_of("(default ");
    match rfind_in(h, open.as_slice()) {
        Some(start) => {
            proof {
                lemma_rfind_from_range(h@, lit_default_open(), h@.len() - lit_default_open().len());
            }
            let tail = slice_subrange(h, start, h.len());
            match find_in(tail, &[')']) {
                Some(end) => {
                    proof {
                        lemma_find_range(tail@, seq![')']);
                        assert([')']@ =~= seq![')']);
                        assert(tail@[end as int] == ')');
                        reveal_strlit("(default ");
                        assert(lit_default_open() =~= seq!['(', 'd', 'e', 'f', 'a', 'u', 'l', 't', ' ']);
                        assert(matches_at(h@, lit_default_open(), start as int));
                        assert forall|k: int| 0 <= k < 9 implies tail@[k] != ')' by {
                            assert(tail@[k] == h@[start + k]);
                            assert(h@.subrange(start as int, start + 9)[k] == lit_default_open()[k]);
                        }
                    }
                    assert(end >= 9);
                    let v = trim_set_of(slice_subrange(h, start + 9, start + end), &['"']);
                    assert(['"']@ =~= seq!['"']);
                    let out = vec![to_string(v)];
                    assert(texts(out@) =~= seq![v@]);
                    out
                },
                None => {
                    assert([')']@ =~= seq![')']);
                    assert(texts(Seq::<String>::empty()) =~= Seq::<Text>::empty());
                    Vec::new()
                },
            }
        },
        None => {
            assert(texts(Seq::<String>::empty()) =~= Seq::<Text>::empty());
            Vec::new()
        },
    }
}

fn clean_of(h: &[char]) -> (r: String)
    ensures
        r@ == clean_help(h@),
{
    let sep = chars_of(" (default ");
    match rfind_in(h, sep.as_slice()) {
        Some(s) => {
            proof {
                lemma_rfind_from_range(h@, lit_default_sep(), h@.len() - lit_default_sep().len());
            }
            to_string(slice_subrange(h, 0, s))
        },
        None => to_string(h),
    }
}

/// Parse one flag entry line.
pub fn parse_flag_line(line: &[char]) -> (r: Option<SpecFlag>)
    ensures
        match r {
            Some(f) => cobra_flag(line@) == Some(f@),
            None => cobra_flag(line@) is None,
        },
{
    let t = trim_of(line);
    if t.len() == 0 {
        return None;
    }
    let (def, help) = split_def_and_description(t);
    let toks = split_words(def);
    let ghost ws = words(def@);
    let mut short: Vec<char> = Vec::new();
    let mut long: Vec<String> = Vec::new();
    let mut arg: Option<SpecArg> = None;
    let mut i: usize = 0;
    while i < toks.len()
        invariant
            i <= toks@.len(),
            views_as(toks@, ws),
            ({
                let st = flag_tokens(ws.take(i as int));
                &&& short@ == st.short
                &&& texts(long@) == st.long
                &&& match arg {
                    Some(a) => st.arg == Some(a@),
                    None => st.arg is None,
                }
            }),
        decreases toks@.len() - i,
    {
        let tok = toks[i];
        proof {
            assert(ws.take(i + 1).drop_last() =~= ws.take(i as int));
            assert(ws.take(i + 1).last() == tok@);
            assert(['-']@ =~= seq!['-']);
            assert(['-', '-']@ =~= seq!['-', '-']);
        }
        let ghost st = flag_tokens(ws.take(i as int));
        let n = tok.len();
        if has_prefix(tok, &['-']) && n >= 2 && tok[n - 1] == ',' {
            if n == 3 && (tok[1] as u32) < 128 {
                short.push(tok[1]);
                assert(tok@.subrange(1, 2) =~= seq![tok@[1]]);
            }
        } else if has_prefix(tok, &['-', '-']) {
            let ghost before = long@;
            long.push(to_string(slice_subrange(tok, 2, n)));
            assert(texts(long@) =~= texts(before).push(tok@.subrange(2, n as int)));
        } else if !has_prefix(tok, &['-']) && long.len() > 0 {
            let last = long[long.len() - 1].clone();
            proof {
                assert(texts(long@).last() == long@[long@.len() - 1]@);
            }
            arg = Some(SpecArg::named(last));
        }
        i += 1;
    }
    assert(ws.take(toks@.len() as int) =~= ws);
    if long.len() == 0 {
        return None;
    }
    let name = long[0].clone();
    let mut flag = SpecFlag::named(name);
    let ghost base = flag@;
    let (hv, dv) = match help {
        Some(h) => (Some(clean_of(h)), default_of(h)),
        None => (None, Vec::new()),
    };
    flag.short = short;
    flag.long = long;
    flag.help = hv;
    flag.arg = arg;
    flag.default = dv;
    proof {
        assert(texts(Seq::<String>::empty()) =~= Seq::<Text>::empty());
    }
    Some(flag)
}

// ---------------------------------------------------------------------------
// Usage lines and command rows
// ---------------------------------------------------------------------------

/// A positional from a usage token: `<name>` is required, `[name]`
/// optional, anything else is not a positional.
pub open spec fn bracketed(t: Text) -> Option<(Text, bool)> {
    if t.len() >= 2 && t[0] == '<' && t[t.len() - 1] == '>' {
        Some((t.subrange(1, t.len() - 1), true))
    } else if t.len() >= 2 && t[0] == '[' && t[t.len() - 1] == ']' {
        Some((t.subrange(1, t.len() - 1), false))
    } else {
        None
    }
}

/// `flags`/`options` are never arguments; `command`/`subcommand` are Cobra's
/// subcommand placeholders only on a command that has subcommands (on a leaf
/// `<command>` is a real positional).
pub open spec fn reserved(name: Text, has_subcommands: bool) -> bool {
    let l = unicode_lower(name);
    l == "flags"@ || l == "options"@ || (has_subcommands && (l == "command"@ || l == "subcommand"@))
}

pub open spec fn usage_args_of(ws: Seq<Text>, has_subcommands: bool) -> Seq<ArgV>
    decreases ws.len(),
{
    if ws.len() == 0 {
        seq![]
    } else {
        let rest = usage_args_of(ws.drop_last(), has_subcommands);
        match bracketed(ws.last()) {
            Some((name, required)) => if reserved(name, has_subcommands) {
                rest
            } else {
                rest.push(ArgV { required, ..arg_named(name) })
            },
            None => rest,
        }
    }
}

pub open spec fn usage_args(line: Text, has_subcommands: bool) -> Seq<ArgV> {
    usage_args_of(words(line), has_subcommands)
}

fn is_reserved(name: &[char], has_subcommands: bool) -> (r: bool)
    ensures
        r == reserved(name@, has_subcommands),
{
    let s = to_string(name);
    let l = to_lowercase(s.as_str());
    let lc = chars_of(l.as_str());
    let v = lc.as_slice();
    is_lit(v, "flags") || is_lit(v, "options") || (has_subcommands && (is_lit(v, "command") || is_lit(v, "subcommand")))
}

/// The positionals a usage line names.
pub fn parse_usage_args(line: &[char], has_subcommands: bool) -> (r: Vec<SpecArg>)
    ensures
        args_view(r@) == usage_args(line@, has_subcommands),
{
    let toks = split_words(line);
    let ghost ws = words(line@);
    let mut out: Vec<SpecArg> = Vec::new();
    let mut i: usize = 0;
    while i < toks.len()
        invariant
            i <= toks@.len(),
            views_as(toks@, ws),
            args_view(out@) == usage_args_of(ws.take(i as int), has_subcommands),
        decreases toks@.len() - i,
    {
        let tok = toks[i];
        proof {
            assert(ws.take(i + 1).drop_last() =~= ws.take(i as int));
            assert(ws.take(i + 1).last() == tok@);
        }
        let n = tok.len();
        if n >= 2 && ((tok[0] == '<' && tok[n - 1] == '>') || (tok[0] == '[' && tok[n - 1] == ']')) {
            let required = tok[0] == '<';
            let inner = slice_subrange(tok, 1, n - 1);
            if !is_reserved(inner, has_subcommands) {
                let mut a = SpecArg::named(to_string(inner));
                a.required = required;
                let ghost before = out@;
                out.push(a);
                assert(args_view(out@) =~= args_view(before).push(ArgV { required, ..arg_named(inner@) }));
            }
        }
        i += 1;
    }
    assert(ws.take(toks@.len() as int) =~= ws);
    out
}

/// A command row: its name (trailing `:` dropped, as gh renders rows) and its
/// description; `None` for a blank row or one without a description.
pub open spec fn command_row(line: Text) -> Option<(Text, Text)> {
    let t = trim(line);
    if t.len() == 0 {
        None
    } else {
        let (name, desc) = split_def(t);
        match desc {
            Some(d) => Some((trim_end_char(name, ':'), d)),
            None => None,
        }
    }
}

pub fn parse_command_line(line: &[char]) -> (r: Option<(String, String)>)
    ensures
        match r {
            Some((n, d)) => command_row(line@) == Some((n@, d@)),
            None => command_row(line@) is None,
        },
{
    let t = trim_of(line);
    if t.len() == 0 {
        return None;
    }
    let (name, desc) = split_def_and_description(t);
    match desc {
        Some(d) => Some((to_string(trim_end_char_of(name, ':')), to_string(d))),
        None => None,
    }
}

/// A usage line naming the generic `command`/`subcommand` placeholder is a
/// subcommand-dispatch form, not a way to run the command itself.
pub open spec fn cobra_dispatch(line: Text) -> bool {
    exists|i: int|
        0 <= i < words(line).len() && (trim_set(#[trigger] words(line)[i], "<>[]"@) == "command"@
            || trim_set(words(line)[i], "<>[]"@) == "subcommand"@)
}

pub fn is_dispatch_form(line: &[char]) -> (r: bool)
    ensures
        r == cobra_dispatch(line@),
{
    let toks = split_words(line);
    let ghost ws = words(line@);
    let set = chars_of("<>[]");
    let mut i: usize = 0;
    while i < toks.len()
        invariant
            i <= toks@.len(),
            views_as(toks@, ws),
            ws == words(line@),
            set@ == "<>[]"@,
            forall|k: int| 0 <= k < i ==> !(trim_set(#[trigger] ws[k], "<>[]"@) == "command"@ || trim_set(ws[k], "<>[]"@)
                == "subcommand"@),
        decreases toks@.len() - i,
    {
        let bare = trim_set_of(toks[i], set.as_slice());
        if is_lit(bare, "command") || is_lit(bare, "subcommand") {
            assert(ws[i as int] == toks@[i as int]@);
            return true;
        }
        i += 1;
    }
    false
}

} // verus!

verus! {

// ---------------------------------------------------------------------------
// The line-by-line walk
// ---------------------------------------------------------------------------

#[verifier::ext_equal]
pub struct CobraState {
    pub section: CobraSection,
    pub preamble: Seq<Text>,
    pub usage: Seq<Text>,
    pub aliases: Seq<Text>,
    pub commands: Seq<(Text, Text)>,
    pub flags: Seq<FlagV>,
    pub globals: Seq<FlagV>,
}

pub open spec fn cobra_start() -> CobraState {
    CobraState {
        section: CobraSection::Preamble,
        preamble: seq![],
        usage: seq![],
        aliases: seq![],
        commands: seq![],
        flags: seq![],
        globals: seq![],
    }
}

/// A decoration row some tools frame their description with (`#####`, or
/// `#### name ####`): trimmed, it starts and ends with `#`. It is not part of
/// the description.
pub open spec fn banner_row(line: Text) -> bool {
    let t = trim(line);
    t.len() > 0 && t[0] == '#' && t[t.len() - 1] == '#'
}

/// A line inside the current section. A blank line ends a flags section;
/// banner rows are left out of the description.
pub open spec fn cobra_body(st: CobraState, line: Text) -> CobraState {
    match st.section {
        CobraSection::Preamble => if banner_row(line) {
            st
        } else {
            CobraState { preamble: st.preamble.push(line), ..st }
        },
        CobraSection::Usage => if trim(line).len() > 0 {
            CobraState { usage: st.usage.push(trim(line)), ..st }
        } else {
            st
        },
        CobraSection::Aliases => if trim(line).len() > 0 {
            CobraState { aliases: split(trim(line), ", "@), ..st }
        } else {
            st
        },
        CobraSection::Commands => match command_row(line) {
            Some(row) => CobraState { commands: st.commands.push(row), ..st },
            None => st,
        },
        CobraSection::Flags => if trim(line).len() == 0 {
            CobraState { section: CobraSection::Done, ..st }
        } else {
            match cobra_flag(line) {
                Some(f) => CobraState { flags: st.flags.push(f), ..st },
                None => st,
            }
        },
        CobraSection::GlobalFlags => if trim(line).len() == 0 {
            CobraState { section: CobraSection::Done, ..st }
        } else {
            match cobra_flag(line) {
                Some(f) => CobraState { globals: st.globals.push(FlagV { global: true, ..f }), ..st },
                None => st,
            }
        },
        _ => st,
    }
}

pub open spec fn cobra_step(st: CobraState, line: Text) -> CobraState {
    match cobra_header(line) {
        Some(sec) => CobraState { section: sec, ..st },
        None => cobra_body(st, line),
    }
}

pub open spec fn cobra_fold(ls: Seq<Text>) -> CobraState
    decreases ls.len(),
{
    if ls.len() == 0 {
        cobra_start()
    } else {
        cobra_step(cobra_fold(ls.drop_last()), ls.last())
    }
}

/// The first usage line at or after `i` that is not a dispatch form.
pub open spec fn run_form_from(usage: Seq<Text>, i: int) -> Option<Text>
    decreases usage.len() - i,
{
    if i < 0 || i >= usage.len() {
        None
    } else if !cobra_dispatch(usage[i]) {
        Some(usage[i])
    } else {
        run_form_from(usage, i + 1)
    }
}

pub open spec fn row_command(row: (Text, Text)) -> CmdV {
    CmdV { help: Some(row.1), ..cmd_named(row.0) }
}

/// The preamble: each line trimmed, joined, and the whole trimmed.
pub open spec fn cobra_preamble(pre: Seq<Text>) -> Text {
    trim(join(pre.map_values(|l: Text| trim(l)), seq!['\n']))
}

/// The spec Cobra help describes.
pub open spec fn cobra_spec(content: Text) -> SpecV {
    let st = cobra_fold(lines(content));
    let pre = cobra_preamble(st.preamble);
    let help = if lines(pre).len() > 0 { Some(lines(pre)[0]) } else { None };
    let help_long = if has_char(pre, '\n') { Some(pre) } else { None };
    let bin = if st.usage.len() > 0 && first_word(st.usage[0]) is Some { first_word(st.usage[0])->0 } else { seq![] };
    let has_subs = st.commands.len() > 0;
    let run_form = run_form_from(st.usage, 0);
    let args_line = match run_form {
        Some(l) => l,
        None => if st.usage.len() > 0 { st.usage[0] } else { seq![] },
    };
    let subs = with_subcommands(seq![], st.commands.map_values(|r: (Text, Text)| row_command(r)));
    SpecV {
        name: bin,
        bin,
        about: if pre.len() > 0 { Some(pre) } else { None },
        cmd: CmdV {
            name: bin,
            help,
            help_long,
            aliases: if st.aliases.len() > 0 { st.aliases.skip(1) } else { st.aliases },
            flags: st.flags + st.globals,
            args: usage_args(args_line, has_subs),
            subcommands: subs,
            subcommand_required: has_subs && run_form is None,
        },
    }
}

pub open spec fn rows_view(v: Seq<(String, String)>) -> Seq<(Text, Text)> {
    v.map_values(|e: (String, String)| (e.0@, e.1@))
}

/// The walk's state while reading lines.
pub struct CobraBuild {
    pub section: CobraSection,
    pub preamble: Vec<String>,
    pub usage: Vec<String>,
    pub aliases: Vec<String>,
    pub commands: Vec<(String, String)>,
    pub flags: Vec<SpecFlag>,
    pub globals: Vec<SpecFlag>,
}

impl View for CobraBuild {
    type V = CobraState;

    open spec fn view(&self) -> CobraState {
        CobraState {
            section: self.section,
            preamble: texts(self.preamble@),
            usage: texts(self.usage@),
            aliases: texts(self.aliases@),
            commands: rows_view(self.commands@),
            flags: flags_view(self.flags@),
            globals: flags_view(self.globals@),
        }
    }
}

impl CobraBuild {
    pub fn new() -> (r: CobraBuild)
        ensures
            r@ == cobra_start(),
    {
        let r = CobraBuild {
            section: CobraSection::Preamble,
            preamble: Vec::new(),
            usage: Vec::new(),
            aliases: Vec::new(),
            commands: Vec::new(),
            flags: Vec::new(),
            globals: Vec::new(),
        };
        assert(r@ =~= cobra_start());
        r
    }

    /// One line of help.
    pub fn step(&mut self, line: &[char])
        ensures
            final(self)@ == cobra_step(old(self)@, line@),
    {
        match detect_section(line) {
            Some(sec) => {
                self.section = sec;
                return;
            },
            None => {},
        }
        let t = trim_of(line);
        match self.section {
            CobraSection::Preamble => {
                let banner = t.len() > 0 && t[0] == '#' && t[t.len() - 1] == '#';
                if !banner {
                    let ghost b = texts(self.preamble@);
                    self.preamble.push(to_string(line));
                    assert(texts(self.preamble@) =~= b.push(line@));
                }
            },
            CobraSection::Usage => {
                if t.len() > 0 {
                    let ghost b = texts(self.usage@);
                    self.usage.push(to_string(t));
                    assert(texts(self.usage@) =~= b.push(t@));
                }
            },
            CobraSection::Aliases => {
                if t.len() > 0 {
                    let sep = chars_of(", ");
                    proof {
                        reveal_strlit(", ");
                    }
                    let pieces = split_on(t, sep.as_slice());
                    let mut v: Vec<String> = Vec::new();
                    let mut k: usize = 0;
                    while k < pieces.len()
                        invariant
                            k <= pieces@.len(),
                            views_as(pieces@, split(t@, ", "@)),
                            texts(v@) == split(t@, ", "@).take(k as int),
                        decreases pieces@.len() - k,
                    {
                        let ghost b = texts(v@);
                        v.push(to_string(pieces[k]));
                        assert(pieces@[k as int]@ == split(t@, ", "@)[k as int]);
                        assert(texts(v@) =~= b.push(pieces@[k as int]@));
                        assert(split(t@, ", "@).take(k + 1) =~= split(t@, ", "@).take(k as int).push(split(t@, ", "@)[k as int]));
                        k += 1;
                    }
                    assert(split(t@, ", "@).take(pieces@.len() as int) =~= split(t@, ", "@));
                    self.aliases = v;
                }
            },
            CobraSection::Commands => {
                match parse_command_line(line) {
                    Some(row) => {
                        let ghost b = rows_view(self.commands@);
                        self.commands.push(row);
                        assert(rows_view(self.commands@) =~= b.push((row.0@, row.1@)));
                    },
                    None => {},
                }
            },
            CobraSection::Flags => {
                if t.len() == 0 {
                    self.section = CobraSection::Done;
                } else {
                    match parse_flag_line(line) {
                        Some(f) => {
                            let ghost b = flags_view(self.flags@);
                            self.flags.push(f);
                            assert(flags_view(self.flags@) =~= b.push(f@));
                        },
                        None => {},
                    }
                }
            },
            CobraSection::GlobalFlags => {
                if t.len() == 0 {
                    self.section = CobraSection::Done;
                } else {
                    match parse_flag_line(line) {
                        Some(f) => {
                            let mut f = f;
                            f.global = true;
                            let ghost b = flags_view(self.globals@);
                            self.globals.push(f);
                            assert(flags_view(self.globals@) =~= b.push(f@));
                        },
                        None => {},
                    }
                }
            },
            _ => {},
        }
    }
}

} // verus!

verus! {

fn trimmed_lines(v: &Vec<String>) -> (r: Vec<String>)
    ensures
        texts(r@) == texts(v@).map_values(|l: Text| trim(l)),
{
    let mut out: Vec<String> = Vec::new();
    let mut i: usize = 0;
    while i < v.len()
        invariant
            i <= v@.len(),
            texts(out@) == texts(v@).take(i as int).map_values(|l: Text| trim(l)),
        decreases v@.len() - i,
    {
        let c = chars_of(v[i].as_str());
        let ghost b = texts(out@);
        out.push(to_string(trim_of(c.as_slice())));
        assert(texts(out@) =~= b.push(trim(v@[i as int]@)));
        assert(texts(v@).take(i + 1) =~= texts(v@).take(i as int).push(v@[i as int]@));
        assert(texts(v@).take(i + 1).map_values(|l: Text| trim(l)) =~= texts(v@).take(i as int).map_values(|l: Text| trim(l)).push(trim(v@[i as int]@)));
        i += 1;
    }
    assert(texts(v@).take(v@.len() as int) =~= texts(v@));
    out
}

/// Parse Cobra help into a spec.
pub fn parse(content: &str) -> (r: Result<Spec, ParseError>)
    ensures
        match r {
            Ok(s) => s@ == cobra_spec(content@),
            Err(_) => false,
        },
{
    let chars = chars_of(content);
    let ls = split_lines(chars.as_slice());
    let ghost l = lines(content@);
    let mut st = CobraBuild::new();
    let mut i: usize = 0;
    while i < ls.len()
        invariant
            i <= ls@.len(),
            views_as(ls@, l),
            l == lines(content@),
            st@ == cobra_fold(l.take(i as int)),
        decreases ls@.len() - i,
    {
        proof {
            assert(l.take(i + 1).drop_last() =~= l.take(i as int));
            assert(l.take(i + 1).last() == ls@[i as int]@);
        }
        st.step(ls[i]);
        i += 1;
    }
    assert(l.take(ls@.len() as int) =~= l);
    let ghost fin = st@;
    let CobraBuild { section: _, preamble, usage, aliases, commands, flags, globals } = st;

    let tl = trimmed_lines(&preamble);
    let joined = join_strings(&tl, &['\n']);
    assert(['\n']@ =~= seq!['\n']);
    let jc = chars_of(joined.as_str());
    let pre_v = trim_of(jc.as_slice());
    let pre = to_string(pre_v);
    let pls = split_lines(pre_v);
    let help: Option<String> = if pls.len() > 0 { Some(to_string(pls[0])) } else { None };
    let help_long: Option<String> = if contains_char(pre_v, '\n') { Some(pre.clone()) } else { None };

    let mut bin = String::new();
    if usage.len() > 0 {
        let u0 = chars_of(usage[0].as_str());
        let ws = split_words(u0.as_slice());
        if ws.len() > 0 {
            bin = to_string(ws[0]);
        }
    }
    let has_subs = commands.len() > 0;

    let mut k: usize = 0;
    while k < usage.len() && is_dispatch_form(chars_of(usage[k].as_str()).as_slice())
        invariant
            k <= usage@.len(),
            run_form_from(texts(usage@), 0) == run_form_from(texts(usage@), k as int),
        decreases usage@.len() - k,
    {
        assert(texts(usage@)[k as int] == usage@[k as int]@);
        k += 1;
    }
    let run_idx: Option<usize> = if k < usage.len() { Some(k) } else { None };
    proof {
        if k < usage@.len() {
            assert(texts(usage@)[k as int] == usage@[k as int]@);
            assert(run_form_from(texts(usage@), 0) == Some(usage@[k as int]@));
        } else {
            assert(run_form_from(texts(usage@), 0) is None);
        }
    }
    let args_line: Vec<char> = match run_idx {
        Some(j) => chars_of(usage[j].as_str()),
        None => if usage.len() > 0 { chars_of(usage[0].as_str()) } else { Vec::new() },
    };
    let args = parse_usage_args(args_line.as_slice(), has_subs);

    let mut aliases = aliases;
    if aliases.len() > 0 {
        aliases.remove(0);
    }
    let mut all_flags = flags;
    let mut globals = globals;
    let ghost fv = flags_view(all_flags@);
    let ghost gv = flags_view(globals@);
    all_flags.append(&mut globals);
    assert(flags_view(all_flags@) =~= fv + gv);

    let ghost rows = rows_view(commands@);
    let ghost built = rows.map_values(|r: (Text, Text)| row_command(r));
    let mut cmd = SpecCommand::named(String::new());
    let mut commands = commands;
    let ghost total = commands@.len();
    let mut j: usize = 0;
    assert(total <= usize::MAX) by { assert(commands@.len() == commands.len()); }
    while commands.len() > 0
        invariant
            j + commands@.len() == total,
            total <= usize::MAX,
            rows.len() == total,
            built == rows.map_values(|r: (Text, Text)| row_command(r)),
            rows_view(commands@) == rows.skip(j as int),
            cmd@.subcommands == with_subcommands(seq![], built.take(j as int)),
            cmd@.name == Seq::<char>::empty(),
            cmd@.aliases == Seq::<Text>::empty(),
        decreases commands@.len(),
    {
        let ghost prev = commands@;
        let (name, desc) = commands.remove(0);
        proof {
            assert forall|q: int| 0 <= q < commands@.len() implies #[trigger] rows_view(commands@)[q] == rows[j + 1 + q] by {
                assert(commands@[q] == prev[q + 1]);
                assert(rows_view(prev)[q + 1] == rows.skip(j as int)[q + 1]);
            }
            assert(rows_view(commands@) =~= rows.skip(j + 1));
            assert(rows[j as int] == (name@, desc@)) by {
                assert(rows_view(prev)[0] == rows.skip(j as int)[0]);
            }
            assert(built.take(j + 1).drop_last() =~= built.take(j as int));
        }
        let mut c = SpecCommand::named(name);
        c.help = Some(desc);
        cmd.insert_subcommand(c);
        j += 1;
    }
    assert(built.take(total as int) =~= built);
    proof {
        lemma_cmds_view(cmd.subcommands@);
    }
    let required = has_subs && run_idx.is_none();
    cmd.name = bin.clone();
    cmd.help = help;
    cmd.help_long = help_long;
    cmd.aliases = aliases;
    cmd.flags = all_flags;
    cmd.args = args;
    cmd.subcommand_required = required;
    let about = if pre_v.len() > 0 { Some(pre) } else { None };
    let spec = Spec { name: bin.clone(), bin, about, cmd };
    proof {
        let cs = cobra_spec(content@);
        assert(fin == cobra_fold(lines(content@)));
        assert(texts(spec.cmd.aliases@) =~= cs.cmd.aliases);
        assert(spec.cmd@.subcommands == cs.cmd.subcommands);
        assert(spec@.cmd.args == cs.cmd.args);
    }
    Ok(spec)
}

} // verus!
