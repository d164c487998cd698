//! Parser for help rendered by [Knack](https://github.com/microsoft/knack),
//! the framework behind Azure CLI `az`: a `Group`/`Command` header block,
//! then `Subgroups:`, `Commands:` and `Arguments` sections whose entries
//! split name from description on an aligned ` : `.
//!
//! A `Group` header describes a branch (a subcommand is required to run it)
//! and a `Command` header a runnable leaf; each child carries that
//! distinction (subgroups require a subcommand, commands do not), so a
//! child's expandability is known without fetching its help.

use vstd::prelude::*;
use vstd::slice::slice_subrange;
use crate::text::{
    chars_of, ends_with, eq_chars, find, find_in, first_word, has_prefix, has_suffix,
    lemma_find_from_range, lines, matches_at, push_char, push_chars, split, split_lines,
    split_on, split_words, starts_with, to_string, trim, trim_end, trim_end_char,
    trim_end_char_of, trim_end_of, trim_of, trim_start, trim_start_of, views_as, words,
};
use crate::spec::{
    arg_named, cmd_named, flag_named, flags_view, lemma_cmds_view, texts, with_subcommands, ArgV, CmdV,
    FlagV, ParseError, Spec, SpecArg, SpecChoices, SpecCommand, SpecFlag, SpecV, Text,
};
use crate::clap_helptext::opt_texts;

verus! {

#[derive(Clone, Copy, PartialEq, Eq, Debug, Structural)]
pub enum KnackSection {
    Preamble,
    Header,
    Subgroups,
    Commands,
    Arguments { global: bool },
    Ignored,
}

/// How many spaces a line starts with.
pub open spec fn leading_spaces(line: Text) -> nat
    decreases line.len(),
{
    if line.len() > 0 && line[0] == ' ' {
        1 + leading_spaces(line.skip(1))
    } else {
        0
    }
}

pub open spec fn knack_header(line: Text) -> Option<KnackSection> {
    let t = trim_end(line);
    if t == "Group"@ || t == "Command"@ {
        Some(KnackSection::Header)
    } else if t == "Subgroups:"@ {
        Some(KnackSection::Subgroups)
    } else if t == "Commands:"@ {
        Some(KnackSection::Commands)
    } else if t == "Arguments"@ {
        Some(KnackSection::Arguments { global: false })
    } else if t == "Examples"@ {
        Some(KnackSection::Ignored)
    } else if ends_with(t, "Arguments"@) && leading_spaces(line) == 0 {
        Some(KnackSection::Arguments { global: starts_with(t, "Global"@) })
    } else {
        None
    }
}

fn is_lit(h: &[char], lit: &str) -> (r: bool)
    ensures
        r == (h@ == lit@),
{
    let l = chars_of(lit);
    eq_chars(h, l.as_slice())
}

fn count_leading_spaces(line: &[char]) -> (r: usize)
    ensures
        r == leading_spaces(line@),
{
    let mut i: usize = 0;
    assert(line@.skip(0) =~= line@);
    while i < line.len() && line[i] == ' '
        invariant
            i <= line@.len(),
            leading_spaces(line@) == i + leading_spaces(line@.skip(i as int)),
        decreases line@.len() - i,
    {
        assert(line@.skip(i as int).skip(1) =~= line@.skip(i + 1));
        i += 1;
    }
    proof {
        if i < line@.len() {
            assert(line@.skip(i as int)[0] == line@[i as int]);
        }
    }
    i
}

/// Recognise a section header.
pub fn detect_section(line: &[char]) -> (r: Option<KnackSection>)
    ensures
        r == knack_header(line@),
{
    let t = trim_end_of(line);
    if is_lit(t, "Group") || is_lit(t, "Command") {
        Some(KnackSection::Header)
    } else if is_lit(t, "Subgroups:") {
        Some(KnackSection::Subgroups)
    } else if is_lit(t, "Commands:") {
        Some(KnackSection::Commands)
    } else if is_lit(t, "Arguments") {
        Some(KnackSection::Arguments { global: false })
    } else if is_lit(t, "Examples") {
        Some(KnackSection::Ignored)
    } else {
        let a = chars_of("Arguments");
        let g = chars_of("Global");
        if has_suffix(t, a.as_slice()) && count_leading_spaces(line) == 0 {
            Some(KnackSection::Arguments { global: has_prefix(t, g.as_slice()) })
        } else {
            None
        }
    }
}

/// An entry split on its aligned ` : ` into a trimmed name (never empty)
/// and a trimmed description.
pub open spec fn name_desc(line: Text) -> Option<(Text, Text)> {
    let idx = find(line, " : "@);
    if idx < 0 {
        None
    } else {
        let name = trim(line.subrange(0, idx));
        if name.len() == 0 {
            None
        } else {
            Some((name, trim(line.subrange(idx + 3, line.len() as int))))
        }
    }
}

fn split_name_desc(line: &[char]) -> (r: Option<(String, String)>)
    ensures
        match r {
            Some((n, d)) => name_desc(line@) == Some((n@, d@)),
            None => name_desc(line@) is None,
        },
{
    let sep = chars_of(" : ");
    proof {
        reveal_strlit(" : ");
        lemma_find_from_range(line@, " : "@, 0);
    }
    match find_in(line, sep.as_slice()) {
        Some(idx) => {
            assert(sep@ == " : "@);
            assert(matches_at(line@, " : "@, idx as int));
            assert(idx + 3 <= line@.len());
            let name = trim_of(slice_subrange(line, 0, idx));
            if name.len() == 0 {
                return None;
            }
            let n = line.len();
            let desc = trim_of(slice_subrange(line, idx + 3, n));
            Some((to_string(name), to_string(desc)))
        },
        None => None,
    }
}

/// The leading token of a row's name part (`compute-fleet [Preview]`).
pub open spec fn untagged(name: Text) -> Text {
    match first_word(name) {
        Some(w) => w,
        None => name,
    }
}

/// A line indented past the items, carrying on the previous entry.
pub open spec fn continuation(line: Text) -> bool {
    trim(line).len() > 0 && leading_spaces(line) > 4
}

fn is_continuation(line: &[char]) -> (r: bool)
    ensures
        r == continuation(line@),
{
    trim_of(line).len() > 0 && count_leading_spaces(line) > 4
}

// ---------------------------------------------------------------------------
// Argument rows
// ---------------------------------------------------------------------------

pub struct ArgTokens {
    pub short: Seq<char>,
    pub long: Seq<Text>,
    pub required: bool,
}

/// One token of an argument row's name part: `[Required]` marks it
/// required, other `[..]` tags are ignored, `--name` is a long name and
/// `-x` a short one.
pub open spec fn arg_token(st: ArgTokens, t: Text) -> ArgTokens {
    if t == "[Required]"@ {
        ArgTokens { required: true, ..st }
    } else if starts_with(t, seq!['[']) {
        st
    } else if starts_with(t, seq!['-', '-']) {
        ArgTokens { long: st.long.push(t.subrange(2, t.len() as int)), ..st }
    } else if starts_with(t, seq!['-']) && t.len() >= 2 {
        ArgTokens { short: st.short.push(t[1]), ..st }
    } else {
        st
    }
}

pub open spec fn arg_tokens(ts: Seq<Text>) -> ArgTokens
    decreases ts.len(),
{
    if ts.len() == 0 {
        ArgTokens { short: seq![], long: seq![], required: false }
    } else {
        arg_token(arg_tokens(ts.drop_last()), ts.last())
    }
}

/// An argument row as a flag. Knack never shows a metavar, so every option
/// is taken to carry a value, named after its first long name.
pub open spec fn knack_flag(line: Text, global: bool) -> Option<FlagV> {
    match name_desc(line) {
        None => None,
        Some((np, help)) => {
            let toks = arg_tokens(words(np));
            if toks.long.len() == 0 && toks.short.len() == 0 {
                None
            } else {
                let name = if toks.long.len() > 0 { toks.long[0] } else { seq![toks.short[0]] };
                Some(FlagV {
                    short: toks.short,
                    long: toks.long,
                    help: if help.len() > 0 { Some(help) } else { None },
                    arg: Some(arg_named(if toks.long.len() > 0 { toks.long[0] } else { "value"@ })),
                    global,
                    required: toks.required,
                    ..flag_named(name)
                })
            }
        },
    }
}

/// Parse one argument row.
pub fn parse_arg_line(line: &[char], global: bool) -> (r: Option<SpecFlag>)
    ensures
        match r {
            Some(f) => knack_flag(line@, global) == Some(f@),
            None => knack_flag(line@, global) is None,
        },
{
    let (np, help) = match split_name_desc(line) {
        Some(p) => p,
        None => return None,
    };
    let npc = chars_of(np.as_str());
    let toks = split_words(npc.as_slice());
    let ghost ws = words(np@);
    let mut short: Vec<char> = Vec::new();
    let mut long: Vec<String> = Vec::new();
    let mut required = false;
    let mut i: usize = 0;
    while i < toks.len()
        invariant
            i <= toks@.len(),
            views_as(toks@, ws),
            ({
                let st = arg_tokens(ws.take(i as int));
                &&& short@ == st.short
                &&& texts(long@) == st.long
                &&& required == st.required
            }),
        decreases toks@.len() - i,
    {
        let tok = toks[i];
        proof {
            assert(ws.take(i + 1).drop_last() =~= ws.take(i as int));
            assert(ws.take(i + 1).last() == tok@);
            assert(['[']@ =~= seq!['[']);
            assert(['-']@ =~= seq!['-']);
            assert(['-', '-']@ =~= seq!['-', '-']);
        }
        if is_lit(tok, "[Required]") {
            required = true;
        } else if has_prefix(tok, &['[']) {
        } else if has_prefix(tok, &['-', '-']) {
            let ghost b = long@;
            long.push(to_string(slice_subrange(tok, 2, tok.len())));
            assert(texts(long@) =~= texts(b).push(tok@.subrange(2, tok@.len() as int)));
        } else if has_prefix(tok, &['-']) && tok.len() >= 2 {
            short.push(tok[1]);
        }
        i += 1;
    }
    assert(ws.take(toks@.len() as int) =~= ws);
    if long.len() == 0 && short.len() == 0 {
        return None;
    }
    let name = if long.len() > 0 {
        long[0].clone()
    } else {
        to_string(&[short[0]])
    };
    assert([short@[0]]@ =~= seq![short@[0]]);
    let arg_name = if long.len() > 0 { long[0].clone() } else { "value".to_string() };
    let mut flag = SpecFlag::named(name);
    flag.short = short;
    flag.long = long;
    flag.help = if help.as_str().is_empty() { None } else { Some(help) };
    flag.arg = Some(SpecArg::named(arg_name));
    flag.global = global;
    flag.required = required;
    Some(flag)
}

// ---------------------------------------------------------------------------
// Inline metadata in an argument's assembled help
// ---------------------------------------------------------------------------

/// A list entry of `Allowed values:`, trimmed of spaces and trailing dots.
pub open spec fn allowed_value(v: Text) -> Text {
    trim(trim_end_char(trim(v), '.'))
}

pub open spec fn allowed_list(pieces: Seq<Text>) -> Seq<Text>
    decreases pieces.len(),
{
    if pieces.len() == 0 {
        seq![]
    } else if allowed_value(pieces.last()).len() > 0 {
        allowed_list(pieces.drop_last()).push(allowed_value(pieces.last()))
    } else {
        allowed_list(pieces.drop_last())
    }
}

/// The comma-separated values after `Allowed values:`, up to the end of
/// that sentence.
pub open spec fn allowed_values(h: Text) -> Option<Seq<Text>> {
    let f = find(h, "Allowed values:"@);
    if f < 0 {
        None
    } else {
        let rest = h.subrange(f + 15, h.len() as int);
        let e = find(rest, ". "@);
        let end = if e >= 0 { e + 1 } else { rest.len() as int };
        let vals = allowed_list(split(rest.subrange(0, end), seq![',']));
        if vals.len() > 0 { Some(vals) } else { None }
    }
}

/// The word after `Default:`, trailing dots trimmed.
pub open spec fn default_value(h: Text) -> Option<Text> {
    let f = find(h, "Default:"@);
    if f < 0 {
        None
    } else {
        let rest = trim_start(h.subrange(f + 8, h.len() as int));
        match first_word(rest) {
            Some(w) => if trim_end_char(w, '.').len() > 0 { Some(trim_end_char(w, '.')) } else { None },
            None => None,
        }
    }
}

/// A flag with the metadata of its assembled help recovered.
pub open spec fn enriched(f: FlagV) -> FlagV {
    match f.help {
        None => f,
        Some(h) => {
            let f1 = match allowed_values(h) {
                Some(c) => match f.arg {
                    Some(a) => FlagV { arg: Some(ArgV { choices: Some(c), ..a }), ..f },
                    None => f,
                },
                None => f,
            };
            match default_value(h) {
                Some(d) => FlagV { default: seq![d], ..f1 },
                None => f1,
            }
        },
    }
}

fn allowed_of(h: &[char]) -> (r: Option<Vec<String>>)
    ensures
        match r {
            Some(v) => allowed_values(h@) == Some(texts(v@)),
            None => allowed_values(h@) is None,
        },
{
    let pat = chars_of("Allowed values:");
    proof {
        reveal_strlit("Allowed values:");
        reveal_strlit(". ");
        lemma_find_from_range(h@, "Allowed values:"@, 0);
    }
    let f = match find_in(h, pat.as_slice()) {
        Some(f) => f,
        None => return None,
    };
    assert(matches_at(h@, "Allowed values:"@, f as int));
    let hn = h.len();
    let rest = slice_subrange(h, f + 15, hn);
    let dot = chars_of(". ");
    proof {
        lemma_find_from_range(rest@, ". "@, 0);
    }
    let end = match find_in(rest, dot.as_slice()) {
        Some(e) => e + 1,
        None => rest.len(),
    };
    let list = slice_subrange(rest, 0, end);
    assert([',']@ =~= seq![',']);
    let pieces = split_on(list, &[',']);
    let ghost ps = split(list@, seq![',']);
    let mut vals: Vec<String> = Vec::new();
    let mut i: usize = 0;
    while i < pieces.len()
        invariant
            i <= pieces@.len(),
            views_as(pieces@, ps),
            texts(vals@) == allowed_list(ps.take(i as int)),
        decreases pieces@.len() - i,
    {
        proof {
            assert(ps.take(i + 1).drop_last() =~= ps.take(i as int));
            assert(ps.take(i + 1).last() == pieces@[i as int]@);
        }
        let v = trim_of(trim_end_char_of(trim_of(pieces[i]), '.'));
        if v.len() > 0 {
            let ghost b = texts(vals@);
            vals.push(to_string(v));
            assert(texts(vals@) =~= b.push(v@));
        }
        i += 1;
    }
    assert(ps.take(pieces@.len() as int) =~= ps);
    if vals.len() > 0 {
        Some(vals)
    } else {
        None
    }
}

fn default_of(h: &[char]) -> (r: Option<String>)
    ensures
        opt_texts(r) == default_value(h@),
{
    let pat = chars_of("Default:");
    proof {
        reveal_strlit("Default:");
        lemma_find_from_range(h@, "Default:"@, 0);
    }
    let f = match find_in(h, pat.as_slice()) {
        Some(f) => f,
        None => return None,
    };
    assert(matches_at(h@, "Default:"@, f as int));
    let hn = h.len();
    let rest = trim_start_of(slice_subrange(h, f + 8, hn));
    let ws = split_words(rest);
    if ws.len() == 0 {
        return None;
    }
    let v = trim_end_char_of(ws[0], '.');
    if v.len() > 0 {
        Some(to_string(v))
    } else {
        None
    }
}

/// Recover a flag's `Allowed values:` and `Default:` from its help.
pub fn enrich_flag(flag: &mut SpecFlag)
    ensures
        final(flag)@ == enriched(old(flag)@),
{
    let help = match &flag.help {
        Some(h) => chars_of(h.as_str()),
        None => return,
    };
    match allowed_of(help.as_slice()) {
        Some(choices) => {
            match &mut flag.arg {
                Some(a) => {
                    a.choices = Some(SpecChoices { choices });
                },
                None => {},
            }
        },
        None => {},
    }
    match default_of(help.as_slice()) {
        Some(d) => {
            let v = vec![d];
            flag.default = v;
        },
        None => {},
    }
}

} // verus!

verus! {

// ---------------------------------------------------------------------------
// The header block and the line-by-line walk
// ---------------------------------------------------------------------------

/// Continuation lines appended to a description, one space between.
pub open spec fn joined_desc(d0: Text, conts: Seq<Text>) -> Text
    decreases conts.len(),
{
    if conts.len() == 0 {
        d0
    } else {
        let d = joined_desc(d0, conts.drop_last());
        (if d.len() > 0 { d.push(' ') } else { d }) + trim(conts.last())
    }
}

/// The header block (`az <path> : <description>`, possibly wrapped) as the
/// command path and the joined description.
pub open spec fn header_parts(hl: Seq<Text>) -> (Seq<Text>, Text) {
    if hl.len() == 0 {
        (seq![], seq![])
    } else {
        let first = hl[0];
        let after = if starts_with(first, "az"@) { trim(first.subrange(2, first.len() as int)) } else { first };
        let idx = find(after, " : "@);
        let pp = if idx >= 0 { trim(after.subrange(0, idx)) } else { trim(after) };
        let d0 = if idx >= 0 { trim(after.subrange(idx + 3, after.len() as int)) } else { seq![] };
        (seq!["az"@] + words(pp), joined_desc(d0, hl.skip(1)))
    }
}

#[verifier::ext_equal]
pub struct KnackState {
    pub section: KnackSection,
    pub is_group: bool,
    pub header: Seq<Text>,
    pub children: Seq<(Text, Text, bool)>,
    pub flags: Seq<FlagV>,
}

pub open spec fn knack_start() -> KnackState {
    KnackState { section: KnackSection::Preamble, is_group: false, header: seq![], children: seq![], flags: seq![] }
}

pub open spec fn with_more(h: Text, line: Text) -> Text {
    h.push(' ') + trim(line)
}

pub open spec fn knack_body(st: KnackState, line: Text) -> KnackState {
    match st.section {
        KnackSection::Header => if trim(line).len() > 0 {
            KnackState { header: st.header.push(trim(line)), ..st }
        } else {
            st
        },
        KnackSection::Subgroups | KnackSection::Commands => if continuation(line) {
            if st.children.len() > 0 {
                let (n, h, g) = st.children.last();
                KnackState { children: st.children.update(st.children.len() - 1, (n, with_more(h, line), g)), ..st }
            } else {
                st
            }
        } else {
            match name_desc(line) {
                Some((np, help)) => KnackState {
                    children: st.children.push((untagged(np), help, st.section is Subgroups)),
                    ..st
                },
                None => st,
            }
        },
        KnackSection::Arguments { global } => if continuation(line) {
            if st.flags.len() > 0 && st.flags.last().help is Some {
                let f = st.flags.last();
                KnackState {
                    flags: st.flags.update(st.flags.len() - 1, FlagV { help: Some(with_more(f.help->0, line)), ..f }),
                    ..st
                }
            } else {
                st
            }
        } else {
            match knack_flag(line, global) {
                Some(f) => KnackState { flags: st.flags.push(f), ..st },
                None => st,
            }
        },
        _ => st,
    }
}

pub open spec fn knack_step(st: KnackState, line: Text) -> KnackState {
    match knack_header(line) {
        Some(sec) => KnackState {
            section: sec,
            is_group: if sec is Header { trim_end(line) == "Group"@ } else { st.is_group },
            ..st
        },
        None => knack_body(st, line),
    }
}

pub open spec fn knack_fold(ls: Seq<Text>) -> KnackState
    decreases ls.len(),
{
    if ls.len() == 0 {
        knack_start()
    } else {
        knack_step(knack_fold(ls.drop_last()), ls.last())
    }
}

pub open spec fn child_command(c: (Text, Text, bool)) -> CmdV {
    CmdV { help: if c.1.len() > 0 { Some(c.1) } else { None }, subcommand_required: c.2, ..cmd_named(c.0) }
}

/// The spec Knack help describes.
pub open spec fn knack_spec(content: Text) -> SpecV {
    let st = knack_fold(lines(content));
    let (path, desc) = header_parts(st.header);
    let name = if path.len() > 0 { path.last() } else { "az"@ };
    let subs = with_subcommands(seq![], st.children.map_values(|c: (Text, Text, bool)| child_command(c)));
    SpecV {
        name,
        bin: if path.len() > 0 { path[0] } else { name },
        about: if desc.len() > 0 { Some(desc) } else { None },
        cmd: CmdV {
            help: if desc.len() > 0 { Some(desc) } else { None },
            flags: st.flags.map_values(|f: FlagV| enriched(f)),
            subcommands: subs,
            subcommand_required: st.is_group,
            ..cmd_named(name)
        },
    }
}

pub open spec fn kids_view(v: Seq<(String, String, bool)>) -> Seq<(Text, Text, bool)> {
    v.map_values(|e: (String, String, bool)| (e.0@, e.1@, e.2))
}

pub struct KnackBuild {
    pub section: KnackSection,
    pub is_group: bool,
    pub header: Vec<String>,
    pub children: Vec<(String, String, bool)>,
    pub flags: Vec<SpecFlag>,
}

impl View for KnackBuild {
    type V = KnackState;

    open spec fn view(&self) -> KnackState {
        KnackState {
            section: self.section,
            is_group: self.is_group,
            header: texts(self.header@),
            children: kids_view(self.children@),
            flags: flags_view(self.flags@),
        }
    }
}

fn appended(h: &String, line: &[char]) -> (r: String)
    ensures
        r@ == with_more(h@, line@),
{
    let mut out = h.clone();
    push_char(&mut out, ' ');
    push_chars(&mut out, trim_of(line));
    out
}

impl KnackBuild {
    pub fn new() -> (r: KnackBuild)
        ensures
            r@ == knack_start(),
    {
        let r = KnackBuild {
            section: KnackSection::Preamble,
            is_group: false,
            header: Vec::new(),
            children: Vec::new(),
            flags: Vec::new(),
        };
        assert(r@ =~= knack_start());
        r
    }

    /// One line of help.
    pub fn step(&mut self, line: &[char])
        ensures
            final(self)@ == knack_step(old(self)@, line@),
    {
        match detect_section(line) {
            Some(sec) => {
                if sec == KnackSection::Header {
                    self.is_group = is_lit(trim_end_of(line), "Group");
                }
                self.section = sec;
                return;
            },
            None => {},
        }
        match self.section {
            KnackSection::Header => {
                let t = trim_of(line);
                if t.len() > 0 {
                    let ghost b = texts(self.header@);
                    self.header.push(to_string(t));
                    assert(texts(self.header@) =~= b.push(t@));
                }
            },
            KnackSection::Subgroups | KnackSection::Commands => {
                if is_continuation(line) {
                    let n = self.children.len();
                    if n > 0 {
                        let ghost b = kids_view(self.children@);
                        let (name, help, g) = self.children.remove(n - 1);
                        let more = appended(&help, line);
                        self.children.push((name, more, g));
                        assert(kids_view(self.children@) =~= b.update(b.len() - 1, (name@, more@, g)));
                    }
                } else {
                    match split_name_desc(line) {
                        Some((np, help)) => {
                            let npc = chars_of(np.as_str());
                            let ws = split_words(npc.as_slice());
                            let name = if ws.len() > 0 { to_string(ws[0]) } else { np };
                            let is_sub = self.section == KnackSection::Subgroups;
                            let ghost b = kids_view(self.children@);
                            self.children.push((name, help, is_sub));
                            assert(kids_view(self.children@) =~= b.push((name@, help@, is_sub)));
                        },
                        None => {},
                    }
                }
            },
            KnackSection::Arguments { global } => {
                if is_continuation(line) {
                    let n = self.flags.len();
                    if n > 0 {
                        let ghost b = flags_view(self.flags@);
                        let mut f = self.flags.remove(n - 1);
                        let had = f.help.is_some();
                        match &f.help {
                            Some(h) => {
                                f.help = Some(appended(h, line));
                            },
                            None => {},
                        }
                        self.flags.push(f);
                        proof {
                            if had {
                                assert(flags_view(self.flags@) =~= b.update(b.len() - 1, f@));
                            } else {
                                assert(flags_view(self.flags@) =~= b);
                            }
                        }
                    }
                } else {
                    match parse_arg_line(line, global) {
                        Some(f) => {
                            let ghost b = flags_view(self.flags@);
                            self.flags.push(f);
                            assert(flags_view(self.flags@) =~= b.push(f@));
                        },
                        None => {},
                    }
                }
            },
            _ => {},
        }
    }
}

} // verus!

verus! {

/// Parse the header block into the command path and the joined
/// description.
pub fn parse_header(hl: &Vec<String>) -> (r: (Vec<String>, String))
    ensures
        (texts(r.0@), r.1@) == header_parts(texts(hl@)),
{
    if hl.len() == 0 {
        assert(texts(Seq::<String>::empty()) =~= Seq::<Text>::empty());
        return (Vec::new(), String::new());
    }
    let fc = chars_of(hl[0].as_str());
    let first = fc.as_slice();
    let az = chars_of("az");
    proof {
        reveal_strlit("az");
        reveal_strlit(" : ");
    }
    let after: &[char] = if has_prefix(first, az.as_slice()) {
        let n = first.len();
        trim_of(slice_subrange(first, 2, n))
    } else {
        first
    };
    let sep = chars_of(" : ");
    proof {
        lemma_find_from_range(after@, " : "@, 0);
    }
    let (pp, d0): (&[char], &[char]) = match find_in(after, sep.as_slice()) {
        Some(idx) => {
            assert(matches_at(after@, " : "@, idx as int));
            let n = after.len();
            (trim_of(slice_subrange(after, 0, idx)), trim_of(slice_subrange(after, idx + 3, n)))
        },
        None => (trim_of(after), &[]),
    };
    let mut path: Vec<String> = vec![to_string(az.as_slice())];
    assert(texts(path@) =~= seq!["az"@] + words(pp@).take(0));
    let ws = split_words(pp);
    let mut k: usize = 0;
    while k < ws.len()
        invariant
            k <= ws@.len(),
            views_as(ws@, words(pp@)),
            texts(path@) == seq!["az"@] + words(pp@).take(k as int),
        decreases ws@.len() - k,
    {
        let ghost b = texts(path@);
        path.push(to_string(ws[k]));
        assert(ws@[k as int]@ == words(pp@)[k as int]);
        assert(texts(path@) =~= b.push(ws@[k as int]@));
        assert(words(pp@).take(k + 1) =~= words(pp@).take(k as int).push(words(pp@)[k as int]));
        assert(texts(path@) =~= seq!["az"@] + words(pp@).take(k + 1));
        k += 1;
    }
    assert(words(pp@).take(ws@.len() as int) =~= words(pp@));
    let mut desc = to_string(d0);
    let ghost conts = texts(hl@).skip(1);
    let mut j: usize = 1;
    assert(conts.take(0) =~= Seq::<Text>::empty());
    while j < hl.len()
        invariant
            1 <= j <= hl@.len(),
            conts == texts(hl@).skip(1),
            desc@ == joined_desc(d0@, conts.take(j - 1)),
        decreases hl@.len() - j,
    {
        if !desc.as_str().is_empty() {
            push_char(&mut desc, ' ');
        }
        let c = chars_of(hl[j].as_str());
        push_chars(&mut desc, trim_of(c.as_slice()));
        proof {
            assert(conts.take(j as int).drop_last() =~= conts.take(j - 1));
            assert(conts.take(j as int).last() == hl@[j as int]@);
        }
        j += 1;
    }
    assert(conts.take(hl@.len() - 1) =~= conts);
    proof {
        let hv = texts(hl@);
        assert(hv[0] == fc@);
        let af = if starts_with(fc@, "az"@) { trim(fc@.subrange(2, fc@.len() as int)) } else { fc@ };
        assert(after@ == af);
        let idx = find(af, " : "@);
        let pp2 = if idx >= 0 { trim(af.subrange(0, idx)) } else { trim(af) };
        assert(pp@ == pp2);
        let d02 = if idx >= 0 { trim(af.subrange(idx + 3, af.len() as int)) } else { seq![] };
        assert(d0@ == d02);
        assert(texts(path@) == header_parts(hv).0);
        assert(hv.skip(1) == conts);
        assert(desc@ == header_parts(hv).1);
    }
    (path, desc)
}

/// Parse Knack help into a spec.
pub fn parse(content: &str) -> (r: Result<Spec, ParseError>)
    ensures
        match r {
            Ok(s) => s@ == knack_spec(content@),
            Err(_) => false,
        },
{
    let chars = chars_of(content);
    let ls = split_lines(chars.as_slice());
    let ghost l = lines(content@);
    let mut st = KnackBuild::new();
    let mut i: usize = 0;
    while i < ls.len()
        invariant
            i <= ls@.len(),
            views_as(ls@, l),
            l == lines(content@),
            st@ == knack_fold(l.take(i as int)),
        decreases ls@.len() - i,
    {
        proof {
            assert(l.take(i + 1).drop_last() =~= l.take(i as int));
            assert(l.take(i + 1).last() == ls@[i as int]@);
        }
        st.step(ls[i]);
        i += 1;
    }
    assert(l.take(ls@.len() as int) =~= l);
    let ghost fin = st@;
    let KnackBuild { section: _, is_group, header, children, flags } = st;

    let ghost all = flags_view(flags@);
    let mut src = flags;
    let mut out: Vec<SpecFlag> = Vec::new();
    while src.len() > 0
        invariant
            all.len() == out@.len() + src@.len(),
            flags_view(out@) == all.take(out@.len() as int).map_values(|f: FlagV| enriched(f)),
            flags_view(src@) == all.skip(out@.len() as int),
        decreases src@.len(),
    {
        let ghost k = out@.len();
        let ghost prev = src@;
        let mut f = src.remove(0);
        assert(f@ == all[k as int]) by {
            assert(flags_view(prev)[0] == all.skip(k as int)[0]);
        }
        enrich_flag(&mut f);
        let ghost before = out@;
        out.push(f);
        proof {
            assert forall|j: int| 0 <= j < out@.len() implies #[trigger] flags_view(out@)[j] == enriched(all[j]) by {
                if j < k {
                    assert(flags_view(before)[j] == all.take(k as int).map_values(|f: FlagV| enriched(f))[j]);
                }
            }
            assert(flags_view(out@) =~= all.take((k + 1) as int).map_values(|f: FlagV| enriched(f)));
            assert forall|j: int| 0 <= j < src@.len() implies #[trigger] flags_view(src@)[j] == all[k + 1 + j] by {
                assert(src@[j] == prev[j + 1]);
                assert(flags_view(prev)[j + 1] == all.skip(k as int)[j + 1]);
            }
            assert(flags_view(src@) =~= all.skip((k + 1) as int));
        }
    }
    assert(all.take(all.len() as int) =~= all);

    let (path, description) = parse_header(&header);
    let az = chars_of("az");
    let name: String = if path.len() > 0 { path[path.len() - 1].clone() } else { to_string(az.as_slice()) };
    proof {
        reveal_strlit("az");
    }

    let ghost kids = kids_view(children@);
    let ghost built = kids.map_values(|c: (Text, Text, bool)| child_command(c));
    let mut cmd = SpecCommand::named(String::new());
    let mut children = children;
    let ghost total = children@.len();
    let mut j: usize = 0;
    assert(total <= usize::MAX) by { assert(children@.len() == children.len()); }
    while children.len() > 0
        invariant
            j + children@.len() == total,
            total <= usize::MAX,
            kids.len() == total,
            built == kids.map_values(|c: (Text, Text, bool)| child_command(c)),
            kids_view(children@) == kids.skip(j as int),
            cmd@.subcommands == with_subcommands(seq![], built.take(j as int)),
            cmd@.name == Seq::<char>::empty(),
            cmd@.aliases == Seq::<Text>::empty(),
            cmd@.args == Seq::<ArgV>::empty(),
            cmd@.help_long is None,
        decreases children@.len(),
    {
        let ghost prev = children@;
        let (cname, chelp, g) = children.remove(0);
        proof {
            assert forall|q: int| 0 <= q < children@.len() implies #[trigger] kids_view(children@)[q] == kids[j + 1 + q] by {
                assert(children@[q] == prev[q + 1]);
                assert(kids_view(prev)[q + 1] == kids.skip(j as int)[q + 1]);
            }
            assert(kids_view(children@) =~= kids.skip(j + 1));
            assert(kids[j as int] == (cname@, chelp@, g)) by {
                assert(kids_view(prev)[0] == kids.skip(j as int)[0]);
            }
            assert(built.take(j + 1).drop_last() =~= built.take(j as int));
        }
        let mut c = SpecCommand::named(cname);
        if !chelp.as_str().is_empty() {
            c.help = Some(chelp);
        }
        c.subcommand_required = g;
        cmd.insert_subcommand(c);
        j += 1;
    }
    assert(built.take(total as int) =~= built);
    proof {
        lemma_cmds_view(cmd.subcommands@);
    }
    let bin: String = if path.len() > 0 { path[0].clone() } else { name.clone() };
    let has_desc = !description.as_str().is_empty();
    cmd.name = name.clone();
    cmd.help = if has_desc { Some(description.clone()) } else { None };
    cmd.flags = out;
    cmd.subcommand_required = is_group;
    let about = if has_desc { Some(description) } else { None };
    let spec = Spec { name, bin, about, cmd };
    proof {
        let ks = knack_spec(content@);
        assert(fin == knack_fold(lines(content@)));
        assert(spec.cmd@.subcommands == ks.cmd.subcommands);
        assert(spec.cmd@ =~= ks.cmd);
    }
    Ok(spec)
}

} // verus!
