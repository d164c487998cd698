//! Parser for help rendered by [clap](https://docs.rs/clap)'s default template:
//! a preamble (name, version, about), then column-0 section headers —
//! `Usage:`, `Arguments:`, `Options:`, `Commands:` — each followed by indented
//! entries whose definition and description are separated by two or more
//! spaces (or whose description follows on indented lines).

use vstd::prelude::*;
use vstd::slice::slice_subrange;
use crate::text::{
    append_vec, before_any, before_any_of, chars_of, eq_chars, find, find_char_at, find_char_from,
    lemma_find_char_from_range, lower, strings_view, to_lower, trim, trim_of, trimmed_nonempty,
    trimmed_strings, first_word, lines, nonempty_only, utf8_len, is_char_boundary, is_ws,
    starts_with_ci, join, join_strings, has_prefix_ci, is_whitespace, split_lines, trimmed_pieces, trimmed_each, trimmed_all, find_in, lemma_find_from_range,
    trim_end, trim_end_of, concat, concat_all, contains, contains_in, ends_with, ends_with_ci, eq_ci, eq_ignore_case,
    has_prefix, has_suffix, has_suffix_ci, push_chars, split, split_on, split_once, split_once_on,
    split_words, starts_with, is_alphanumeric, unicode_alphanumeric, to_string, to_vec, trim_end_char, trim_end_char_of, trim_set,
    trim_set_of, views_as, words,
};
use crate::spec::{
    lemma_cmds_view, ParseError, Spec, SpecCommand, args_view, arg_named, cmd_named, flag_named, flags_view, opt_arg, texts, with_subcommands, ArgV,
    CmdV, FlagV, SpecArg, SpecChoices, SpecFlag, SpecV, Text,
};

verus! {

// ---------------------------------------------------------------------------
// Sections
// ---------------------------------------------------------------------------

#[derive(Clone, Copy, PartialEq, Eq, Debug, Structural)]
pub enum Section {
    Preamble,
    Usage,
    Arguments,
    Commands,
    Options,
    /// Recognised but not modelled (e.g. `Environment variables:`), and any
    /// column-0 prose after the parsed sections.
    Other,
}

pub open spec fn lit_usage() -> Text { seq!['u', 's', 'a', 'g', 'e'] }
pub open spec fn lit_usage_colon() -> Text { seq!['u', 's', 'a', 'g', 'e', ':'] }
pub open spec fn lit_arguments() -> Text { seq!['a', 'r', 'g', 'u', 'm', 'e', 'n', 't', 's'] }
pub open spec fn lit_options() -> Text { seq!['o', 'p', 't', 'i', 'o', 'n', 's'] }
pub open spec fn lit_commands() -> Text { seq!['c', 'o', 'm', 'm', 'a', 'n', 'd', 's'] }
pub open spec fn lit_env_vars() -> Text {
    seq!['e', 'n', 'v', 'i', 'r', 'o', 'n', 'm', 'e', 'n', 't', ' ', 'v', 'a', 'r', 'i', 'a', 'b', 'l', 'e', 's']
}

/// `h` names the section `word` (`word` or `word:`, any ASCII case).
pub open spec fn names_header(h: Text, word: Text) -> bool {
    eq_ci(h, word) || eq_ci(h, word.push(':'))
}

/// The section a column-0 line (already stripped of trailing whitespace)
/// opens, if it is a header.
pub open spec fn header_of(h: Text) -> Option<Section> {
    if names_header(h, lit_usage()) {
        Some(Section::Usage)
    } else if names_header(h, lit_arguments()) {
        Some(Section::Arguments)
    } else if names_header(h, lit_options()) {
        Some(Section::Options)
    } else if ends_with_ci(h, lit_commands()) || ends_with_ci(h, lit_commands().push(':')) {
        Some(Section::Commands)
    } else if names_header(h, lit_env_vars()) {
        Some(Section::Other)
    } else {
        None
    }
}

fn names(h: &[char], word: &[char], word_colon: &[char]) -> (r: bool)
    requires
        word_colon@ == word@.push(':'),
    ensures
        r == names_header(h@, word@),
{
    eq_ignore_case(h, word) || eq_ignore_case(h, word_colon)
}

/// Recognise a column-0 section header.
pub fn detect_header(h: &[char]) -> (r: Option<Section>)
    ensures
        r == header_of(h@),
{
    let usage = ['u', 's', 'a', 'g', 'e'];
    let usage_c = ['u', 's', 'a', 'g', 'e', ':'];
    let arguments = ['a', 'r', 'g', 'u', 'm', 'e', 'n', 't', 's'];
    let arguments_c = ['a', 'r', 'g', 'u', 'm', 'e', 'n', 't', 's', ':'];
    let options = ['o', 'p', 't', 'i', 'o', 'n', 's'];
    let options_c = ['o', 'p', 't', 'i', 'o', 'n', 's', ':'];
    let commands = ['c', 'o', 'm', 'm', 'a', 'n', 'd', 's'];
    let commands_c = ['c', 'o', 'm', 'm', 'a', 'n', 'd', 's', ':'];
    let env = ['e', 'n', 'v', 'i', 'r', 'o', 'n', 'm', 'e', 'n', 't', ' ', 'v', 'a', 'r', 'i', 'a', 'b', 'l', 'e', 's'];
    let env_c = ['e', 'n', 'v', 'i', 'r', 'o', 'n', 'm', 'e', 'n', 't', ' ', 'v', 'a', 'r', 'i', 'a', 'b', 'l', 'e', 's', ':'];
    assert(usage_c@ == usage@.push(':'));
    assert(arguments_c@ == arguments@.push(':'));
    assert(options_c@ == options@.push(':'));
    assert(commands_c@ == commands@.push(':'));
    assert(env_c@ == env@.push(':'));
    if names(h, &usage, &usage_c) {
        Some(Section::Usage)
    } else if names(h, &arguments, &arguments_c) {
        Some(Section::Arguments)
    } else if names(h, &options, &options_c) {
        Some(Section::Options)
    } else if has_suffix_ci(h, &commands) || has_suffix_ci(h, &commands_c) {
        Some(Section::Commands)
    } else if names(h, &env, &env_c) {
        Some(Section::Other)
    } else {
        None
    }
}

// ---------------------------------------------------------------------------
// Entry lines
// ---------------------------------------------------------------------------

/// The end of the run of spaces starting at `i`.
pub open spec fn space_end(s: Text, i: int) -> int
    decreases s.len() - i,
{
    if 0 <= i < s.len() && s[i] == ' ' {
        space_end(s, i + 1)
    } else {
        i
    }
}

pub proof fn lemma_space_end(s: Text, i: int)
    requires
        0 <= i <= s.len(),
    ensures
        i <= space_end(s, i) <= s.len(),
        i < s.len() && s[i] == ' ' ==> i < space_end(s, i),
    decreases s.len() - i,
{
    if i < s.len() && s[i] == ' ' {
        lemma_space_end(s, i + 1);
    }
}

/// The first run of two or more spaces at or after `i` that has text after
/// it, as (start, end) of the run.
pub open spec fn gap_from(s: Text, i: int) -> Option<(int, int)>
    decreases s.len() - i,
{
    if i < 0 || i >= s.len() {
        None
    } else if s[i] == ' ' {
        let e = space_end(s, i);
        if e <= i || e > s.len() {
            None
        } else if e - i >= 2 && e < s.len() {
            Some((i, e))
        } else {
            gap_from(s, e)
        }
    } else {
        gap_from(s, i + 1)
    }
}

/// An entry line split into its definition and inline description, which
/// clap separates by two or more spaces.
pub open spec fn split_def(s: Text) -> (Text, Option<Text>) {
    match gap_from(s, 0) {
        Some((a, b)) => (s.subrange(0, a), Some(s.subrange(b, s.len() as int))),
        None => (s, None),
    }
}

pub proof fn lemma_gap_from(s: Text, i: int)
    requires
        0 <= i <= s.len(),
    ensures
        gap_from(s, i) matches Some((a, b)) ==> i <= a < b < s.len(),
    decreases s.len() - i,
{
    if i < s.len() {
        if s[i] == ' ' {
            lemma_space_end(s, i);
            let e = space_end(s, i);
            if e - i >= 2 && e < s.len() {
            } else {
                lemma_gap_from(s, e);
            }
        } else {
            lemma_gap_from(s, i + 1);
        }
    }
}

/// Split an entry line into its definition and inline description.
pub fn split_def_and_description(line: &[char]) -> (r: (&[char], Option<&[char]>))
    ensures
        r.0@ == split_def(line@).0,
        match r.1 {
            Some(d) => split_def(line@).1 == Some(d@),
            None => split_def(line@).1 is None,
        },
{
    proof {
        lemma_gap_from(line@, 0);
    }
    let n = line.len();
    let mut i: usize = 0;
    while i < n
        invariant
            n == line@.len(),
            i <= n,
            gap_from(line@, 0) == gap_from(line@, i as int),
        decreases n - i,
    {
        if line[i] == ' ' {
            let start = i;
            while i < n && line[i] == ' '
                invariant
                    n == line@.len(),
                    start <= i <= n,
                    space_end(line@, start as int) == space_end(line@, i as int),
                decreases n - i,
            {
                i += 1;
            }
            proof {
                lemma_space_end(line@, start as int);
            }
            if i - start >= 2 && i < n {
                return (slice_subrange(line, 0, start), Some(slice_subrange(line, i, n)));
            }
        } else {
            i += 1;
        }
    }
    (line, None)
}

pub open spec fn lit_ellipsis() -> Text { seq!['.', '.', '.'] }
pub open spec fn brackets() -> Text { seq!['<', '>', '[', ']'] }

/// A metavar token with its surrounding `<>`/`[]` and any `...` removed.
pub open spec fn metavar(token: Text) -> Text {
    trim_set(concat(split(token, lit_ellipsis())), brackets())
}

pub fn metavar_name(token: &[char]) -> (r: Vec<char>)
    ensures
        r@ == metavar(token@),
{
    let dots = ['.', '.', '.'];
    let pieces = split_on(token, &dots);
    let joined = concat_all(&pieces, Ghost(split(token@, lit_ellipsis())));
    let set = ['<', '>', '[', ']'];
    let t = trim_set_of(joined.as_slice(), &set);
    to_vec(t)
}

/// A help text with a wrapped/next-line continuation appended.
pub open spec fn appended(help: Option<Text>, text: Text) -> Option<Text> {
    if text.len() == 0 {
        help
    } else {
        match help {
            Some(e) => Some(e.push(' ') + text),
            None => Some(text),
        }
    }
}

pub open spec fn opt_view(o: Option<String>) -> Option<Text> {
    match o {
        Some(s) => Some(s@),
        None => None,
    }
}

/// Append a continuation line onto a running help string.
pub fn append_help(help: &mut Option<String>, text: &[char])
    ensures
        opt_view(*final(help)) == appended(opt_view(*old(help)), text@),
{
    if text.len() == 0 {
        return;
    }
    match help.take() {
        Some(e) => {
            let mut e = e;
            push_chars(&mut e, &[' ']);
            push_chars(&mut e, text);
            assert(e@ == opt_view(*old(help))->0.push(' ') + text@);
            *help = Some(e);
        },
        None => {
            *help = Some(to_string(text));
        },
    }
}

} // verus!

verus! {

// ---------------------------------------------------------------------------
// Flags
// ---------------------------------------------------------------------------

pub open spec fn lit_dd() -> Text { seq!['-', '-'] }
pub open spec fn lit_opt_value() -> Text { seq!['[', '='] }

/// What the tokens of a flag definition have established so far.
#[verifier::ext_equal]
pub struct FlagDefState {
    pub short: Seq<char>,
    pub long: Seq<Text>,
    pub arg: Option<ArgV>,
    pub count: bool,
}

pub open spec fn flag_def_start() -> FlagDefState {
    FlagDefState { short: seq![], long: seq![], arg: None, count: false }
}

/// One token of a flag definition (`-s,`, `--long`, `--long[=<V>]`,
/// `--long...`, `<VALUE>`).
pub open spec fn flag_def_step(st: FlagDefState, token: Text) -> FlagDefState {
    if starts_with(token, lit_dd()) {
        let rest = token.subrange(2, token.len() as int);
        let (name_part, optional) = match split_once(rest, lit_opt_value()) {
            Some((n, v)) => (n, Some(trim_end_char(v, ']'))),
            None => (rest, None),
        };
        let arg = match optional {
            Some(v) => Some(ArgV { name: metavar(v), var: contains(v, lit_ellipsis()), ..arg_named(seq![]) }),
            None => st.arg,
        };
        if ends_with(name_part, lit_ellipsis()) {
            FlagDefState {
                long: st.long.push(name_part.subrange(0, name_part.len() - 3)),
                count: true,
                arg,
                ..st
            }
        } else {
            FlagDefState { long: st.long.push(name_part), arg, ..st }
        }
    } else if starts_with(token, seq!['-']) {
        let body = trim_end_char(token.subrange(1, token.len() as int), ',');
        if ends_with(body, lit_ellipsis()) {
            let stem = body.subrange(0, body.len() - 3);
            FlagDefState {
                short: if stem.len() == 1 { st.short.push(stem[0]) } else { st.short },
                count: true,
                ..st
            }
        } else {
            FlagDefState {
                short: if body.len() == 1 { st.short.push(body[0]) } else { st.short },
                ..st
            }
        }
    } else if starts_with(token, seq!['<']) || starts_with(token, seq!['[']) {
        FlagDefState {
            arg: Some(ArgV { name: metavar(token), var: contains(token, lit_ellipsis()), ..arg_named(seq![]) }),
            ..st
        }
    } else {
        st
    }
}

pub open spec fn flag_def_fold(tokens: Seq<Text>) -> FlagDefState
    decreases tokens.len(),
{
    if tokens.len() == 0 {
        flag_def_start()
    } else {
        flag_def_step(flag_def_fold(tokens.drop_last()), tokens.last())
    }
}

/// The flag an `Options:` definition declares, if it names one.
pub open spec fn flag_def(def: Text) -> Option<FlagV> {
    let st = flag_def_fold(words(def));
    if st.long.len() == 0 && st.short.len() == 0 {
        None
    } else {
        let name = if st.long.len() > 0 { st.long[0] } else { seq![st.short[0]] };
        Some(FlagV {
            short: st.short,
            long: st.long,
            count: st.count && st.arg is None,
            arg: st.arg,
            ..flag_named(name)
        })
    }
}

fn value_arg(token: &[char]) -> (r: SpecArg)
    ensures
        r@ == (ArgV { name: metavar(token@), var: contains(token@, lit_ellipsis()), ..arg_named(seq![]) }),
{
    let name = metavar_name(token);
    let mut a = SpecArg::named(to_string(name.as_slice()));
    a.var = contains_in(token, &['.', '.', '.']);
    a
}

pub fn parse_flag_def(def: &[char]) -> (r: Option<SpecFlag>)
    ensures
        match r {
            Some(f) => flag_def(def@) == Some(f@),
            None => flag_def(def@) is None,
        },
{
    let tokens = split_words(def);
    let mut short: Vec<char> = Vec::new();
    let mut long: Vec<String> = Vec::new();
    let mut arg: Option<SpecArg> = None;
    let mut count = false;
    let ghost toks = words(def@);
    let mut i: usize = 0;
    while i < tokens.len()
        invariant
            i <= tokens@.len(),
            views_as(tokens@, toks),
            toks == words(def@),
            ({
                let st = flag_def_fold(toks.take(i as int));
                &&& short@ == st.short
                &&& texts(long@) == st.long
                &&& opt_arg(arg) == st.arg
                &&& count == st.count
            }),
        decreases tokens@.len() - i,
    {
        let token = tokens[i];
        proof {
            assert(toks.take(i + 1).drop_last() =~= toks.take(i as int));
            assert(toks.take(i + 1).last() == token@);
        }
        let ghost long_before = long@;
        let ghost st0 = flag_def_fold(toks.take(i as int));
        let ghost st1 = flag_def_step(st0, token@);
        if has_prefix(token, &['-', '-']) {
            let rest = slice_subrange(token, 2, token.len());
            let (name_part, optional) = match split_once_on(rest, &['[', '=']) {
                Some((n, v)) => (n, Some(trim_end_char_of(v, ']'))),
                None => (rest, None),
            };
            match optional {
                Some(v) => {
                    arg = Some(value_arg(v));
                },
                None => {},
            }
            if has_suffix(name_part, &['.', '.', '.']) {
                let stem = slice_subrange(name_part, 0, name_part.len() - 3);
                long.push(to_string(stem));
                count = true;
            } else {
                long.push(to_string(name_part));
            }
            proof {
                assert(texts(long@) =~= texts(long_before).push(long@.last()@));
                assert(rest@ == token@.subrange(2, token@.len() as int));
                assert(opt_arg(arg) == st1.arg);
                assert(count == st1.count);
                assert(texts(long@) == st1.long);
                assert(short@ == st1.short);
            }
        } else if has_prefix(token, &['-']) {
            assert(['-']@ =~= seq!['-']);
            let body = trim_end_char_of(slice_subrange(token, 1, token.len()), ',');
            assert(!starts_with(token@, lit_dd()));
            assert(starts_with(token@, seq!['-']));
            assert(body@ == trim_end_char(token@.subrange(1, token@.len() as int), ','));
            if has_suffix(body, &['.', '.', '.']) {
                let stem = slice_subrange(body, 0, body.len() - 3);
                count = true;
                if stem.len() == 1 {
                    short.push(stem[0]);
                }
            } else if body.len() == 1 {
                short.push(body[0]);
            }
        } else if has_prefix(token, &['<']) || has_prefix(token, &['[']) {
            assert(['<']@ =~= seq!['<']);
            assert(['[']@ =~= seq!['[']);
            arg = Some(value_arg(token));
        } else {
            assert(['<']@ =~= seq!['<']);
            assert(['[']@ =~= seq!['[']);
            assert(['-']@ =~= seq!['-']);
        }
        assert(short@ == st1.short);
        assert(texts(long@) == st1.long);
        assert(opt_arg(arg) == st1.arg);
        assert(count == st1.count);
        assert(flag_def_fold(toks.take(i + 1)) == st1);
        i += 1;
    }
    proof {
        assert(toks.take(tokens@.len() as int) =~= toks);
    }
    if long.len() == 0 && short.len() == 0 {
        return None;
    }
    let name = if long.len() > 0 {
        long[0].clone()
    } else {
        to_string(&[short[0]])
    };
    let mut flag = SpecFlag::named(name);
    flag.count = count && arg.is_none();
    flag.short = short;
    flag.long = long;
    flag.arg = arg;
    Some(flag)
}

} // verus!

verus! {

// ---------------------------------------------------------------------------
// Bracket annotations: `[default: x]`, `[possible values: a, b]`, ...
// ---------------------------------------------------------------------------

pub type Ann = (Text, Text);

pub open spec fn key_default() -> Text { seq!['d', 'e', 'f', 'a', 'u', 'l', 't'] }
pub open spec fn key_possible_values() -> Text {
    seq!['p', 'o', 's', 's', 'i', 'b', 'l', 'e', ' ', 'v', 'a', 'l', 'u', 'e', 's']
}
pub open spec fn key_aliases() -> Text { seq!['a', 'l', 'i', 'a', 's', 'e', 's'] }
pub open spec fn key_alias() -> Text { seq!['a', 'l', 'i', 'a', 's'] }
pub open spec fn key_short_aliases() -> Text {
    seq!['s', 'h', 'o', 'r', 't', ' ', 'a', 'l', 'i', 'a', 's', 'e', 's']
}
pub open spec fn key_env() -> Text { seq!['e', 'n', 'v'] }
pub open spec fn lit_colon_space() -> Text { seq![':', ' '] }

/// The annotation keys clap renders.
pub open spec fn known_key(k: Text) -> bool {
    k == key_default() || k == key_possible_values() || k == key_aliases() || k == key_alias()
        || k == key_short_aliases() || k == key_env()
}

/// The text with recognised annotations cut out, and those annotations as
/// lower-cased key and trimmed value. Unknown brackets stay in the text.
pub open spec fn ann_walk(r: Text) -> (Text, Seq<Ann>)
    decreases r.len(),
{
    let open = find_char_from(r, '[', 0);
    if open < 0 || open >= r.len() {
        (r, seq![])
    } else {
        let close = find_char_from(r, ']', open);
        if close < open || close >= r.len() {
            (r, seq![])
        } else {
            let inside = r.subrange(open + 1, close);
            let rest = r.subrange(close + 1, r.len() as int);
            let (kept, found) = match split_once(inside, lit_colon_space()) {
                Some((k, v)) => if known_key(lower(trim(k))) {
                    (r.subrange(0, open), seq![(lower(trim(k)), trim(v))])
                } else {
                    (r.subrange(0, close + 1), seq![])
                },
                None => (r.subrange(0, close + 1), seq![]),
            };
            let (c2, a2) = ann_walk(rest);
            (kept + c2, found + a2)
        }
    }
}

pub open spec fn annotations(help: Text) -> (Text, Seq<Ann>) {
    (trim(ann_walk(help).0), ann_walk(help).1)
}

pub open spec fn anns_view(v: Seq<(String, String)>) -> Seq<Ann> {
    v.map_values(|p: (String, String)| (p.0@, p.1@))
}

fn is_known_key(k: &[char]) -> (r: bool)
    ensures
        r == known_key(k@),
{
    let default = ['d', 'e', 'f', 'a', 'u', 'l', 't'];
    let possible = ['p', 'o', 's', 's', 'i', 'b', 'l', 'e', ' ', 'v', 'a', 'l', 'u', 'e', 's'];
    let aliases = ['a', 'l', 'i', 'a', 's', 'e', 's'];
    let alias = ['a', 'l', 'i', 'a', 's'];
    let short_aliases = ['s', 'h', 'o', 'r', 't', ' ', 'a', 'l', 'i', 'a', 's', 'e', 's'];
    let env = ['e', 'n', 'v'];
    eq_chars(k, &default) || eq_chars(k, &possible) || eq_chars(k, &aliases) || eq_chars(k, &alias)
        || eq_chars(k, &short_aliases) || eq_chars(k, &env)
}

/// Pull clap's bracket annotations out of an assembled help string.
pub fn extract_annotations(help: &[char]) -> (r: (Vec<char>, Vec<(String, String)>))
    ensures
        r.0@ == annotations(help@).0,
        anns_view(r.1@) == annotations(help@).1,
{
    let mut cleaned: Vec<char> = Vec::new();
    let mut anns: Vec<(String, String)> = Vec::new();
    let mut rest: &[char] = help;
    loop
        invariant
            cleaned@ + ann_walk(rest@).0 == ann_walk(help@).0,
            anns_view(anns@) + ann_walk(rest@).1 == ann_walk(help@).1,
        ensures
            cleaned@ + rest@ == ann_walk(help@).0,
            anns_view(anns@) == ann_walk(help@).1,
        decreases rest@.len(),
    {
        let n = rest.len();
        proof {
            lemma_find_char_from_range(rest@, '[', 0);
        }
        let open = match find_char_at(rest, '[', 0) {
            Some(o) => o,
            None => {
                assert(ann_walk(rest@).1 =~= Seq::<Ann>::empty());
                assert(anns_view(anns@) + Seq::<Ann>::empty() =~= anns_view(anns@));
                break ;
            },
        };
        proof {
            lemma_find_char_from_range(rest@, ']', open as int);
        }
        let close = match find_char_at(rest, ']', open) {
            Some(c) => c,
            None => {
                assert(ann_walk(rest@).1 =~= Seq::<Ann>::empty());
                assert(anns_view(anns@) + Seq::<Ann>::empty() =~= anns_view(anns@));
                break ;
            },
        };
        let inside = slice_subrange(rest, open + 1, close);
        let after = slice_subrange(rest, close + 1, rest.len());
        let ghost r0 = rest@;
        let ghost anns0 = anns_view(anns@);
        let ghost cleaned0 = cleaned@;
        let mut taken = false;
        match split_once_on(inside, &[':', ' ']) {
            Some((k, v)) => {
                let key = to_lower(trim_of(k));
                if is_known_key(key.as_slice()) {
                    anns.push((to_string(key.as_slice()), to_string(trim_of(v))));
                    append_vec(&mut cleaned, slice_subrange(rest, 0, open));
                    taken = true;
                    proof {
                        assert(anns_view(anns@) =~= anns0 + seq![(key@, trim(v@))]);
                    }
                }
            },
            None => {},
        }
        if !taken {
            append_vec(&mut cleaned, slice_subrange(rest, 0, close + 1));
            assert(anns_view(anns@) =~= anns0 + Seq::<Ann>::empty());
        }
        proof {
            assert(after@ == r0.subrange(close + 1, r0.len() as int));
            assert(ann_walk(r0) == (
                (cleaned@.subrange(cleaned0.len() as int, cleaned@.len() as int)) + ann_walk(after@).0,
                anns_view(anns@).subrange(anns0.len() as int, anns_view(anns@).len() as int) + ann_walk(after@).1,
            )) by {
                assert(cleaned@.subrange(cleaned0.len() as int, cleaned@.len() as int) =~= if taken {
                    r0.subrange(0, open as int)
                } else {
                    r0.subrange(0, close + 1)
                });
                assert(anns_view(anns@).subrange(anns0.len() as int, anns_view(anns@).len() as int) =~= if taken {
                    seq![(lower(trim(inside@.subrange(0, find(inside@, lit_colon_space())))), trim(inside@.subrange(find(inside@, lit_colon_space()) + 2, inside@.len() as int)))]
                } else {
                    Seq::<Ann>::empty()
                });
            }
            assert(cleaned@ + ann_walk(after@).0 =~= cleaned0 + ann_walk(r0).0);
            assert(anns_view(anns@) + ann_walk(after@).1 =~= anns0 + ann_walk(r0).1);
        }
        rest = after;
    }
    append_vec(&mut cleaned, rest);
    let t = trim_of(cleaned.as_slice());
    (to_vec(t), anns)
}

/// The value of the first annotation with key `key`.
pub open spec fn first_ann(a: Seq<Ann>, key: Text, i: int) -> Option<Text>
    decreases a.len() - i,
{
    if i < 0 || i >= a.len() {
        None
    } else if a[i].0 == key {
        Some(a[i].1)
    } else {
        first_ann(a, key, i + 1)
    }
}

fn find_ann<'a>(anns: &'a Vec<(String, String)>, key: &[char]) -> (r: Option<&'a String>)
    ensures
        match r {
            Some(v) => first_ann(anns_view(anns@), key@, 0) == Some(v@),
            None => first_ann(anns_view(anns@), key@, 0) is None,
        },
{
    let mut i: usize = 0;
    while i < anns.len()
        invariant
            i <= anns@.len(),
            first_ann(anns_view(anns@), key@, 0) == first_ann(anns_view(anns@), key@, i as int),
        decreases anns@.len() - i,
    {
        let k = chars_of(anns[i].0.as_str());
        if eq_chars(k.as_slice(), key) {
            return Some(&anns[i].1);
        }
        i += 1;
    }
    None
}

/// `[default: x]` as a flag/arg default.
pub open spec fn ann_default(a: Seq<Ann>) -> Seq<Text> {
    match first_ann(a, key_default(), 0) {
        Some(v) => seq![v],
        None => seq![],
    }
}

/// `[possible values: a, b]` as choices, if any are listed.
pub open spec fn ann_choices(a: Seq<Ann>) -> Option<Seq<Text>> {
    match first_ann(a, key_possible_values(), 0) {
        Some(list) => {
            let c = trimmed_nonempty(split(list, seq![',']));
            if c.len() > 0 {
                Some(c)
            } else {
                None
            }
        },
        None => None,
    }
}

/// Every alias named by `[aliases: ..]` / `[alias: ..]`.
pub open spec fn ann_aliases(a: Seq<Ann>) -> Seq<Text>
    decreases a.len(),
{
    if a.len() == 0 {
        seq![]
    } else {
        let rest = ann_aliases(a.drop_last());
        let (k, v) = a.last();
        if k == key_aliases() || k == key_alias() {
            rest + trimmed_nonempty(split(v, seq![',']))
        } else {
            rest
        }
    }
}

pub fn default_from(anns: &Vec<(String, String)>) -> (r: Vec<String>)
    ensures
        texts(r@) == ann_default(anns_view(anns@)),
{
    let key = ['d', 'e', 'f', 'a', 'u', 'l', 't'];
    match find_ann(anns, &key) {
        Some(v) => {
            let r = vec![v.clone()];
            assert(texts(r@) =~= seq![v@]);
            r
        },
        None => {
            let r: Vec<String> = Vec::new();
            assert(texts(r@) =~= Seq::<Text>::empty());
            r
        },
    }
}

pub fn choices_from(anns: &Vec<(String, String)>) -> (r: Option<Vec<String>>)
    ensures
        match r {
            Some(c) => ann_choices(anns_view(anns@)) == Some(texts(c@)),
            None => ann_choices(anns_view(anns@)) is None,
        },
{
    let key = ['p', 'o', 's', 's', 'i', 'b', 'l', 'e', ' ', 'v', 'a', 'l', 'u', 'e', 's'];
    match find_ann(anns, &key) {
        Some(list) => {
            let l = chars_of(list.as_str());
            let pieces = split_on(l.as_slice(), &[',']);
            assert([',']@ =~= seq![',']);
            let c = trimmed_strings(&pieces, Ghost(split(l@, seq![','])));
            assert(strings_view(c@) == texts(c@));
            if c.len() > 0 {
                Some(c)
            } else {
                None
            }
        },
        None => None,
    }
}

pub fn aliases_from(anns: &Vec<(String, String)>) -> (r: Vec<String>)
    ensures
        texts(r@) == ann_aliases(anns_view(anns@)),
{
    let mut out: Vec<String> = Vec::new();
    let mut i: usize = 0;
    let ghost a = anns_view(anns@);
    let aliases = ['a', 'l', 'i', 'a', 's', 'e', 's'];
    let alias = ['a', 'l', 'i', 'a', 's'];
    while i < anns.len()
        invariant
            i <= anns@.len(),
            a == anns_view(anns@),
            aliases@ == key_aliases(),
            alias@ == key_alias(),
            texts(out@) == ann_aliases(a.take(i as int)),
        decreases anns@.len() - i,
    {
        proof {
            assert(a.take(i + 1).drop_last() =~= a.take(i as int));
            assert(a.take(i + 1).last() == a[i as int]);
        }
        let k = chars_of(anns[i].0.as_str());
        if eq_chars(k.as_slice(), &aliases) || eq_chars(k.as_slice(), &alias) {
            let v = chars_of(anns[i].1.as_str());
            let pieces = split_on(v.as_slice(), &[',']);
            assert([',']@ =~= seq![',']);
            let more = trimmed_strings(&pieces, Ghost(split(v@, seq![','])));
            let ghost before = out@;
            let mut j: usize = 0;
            while j < more.len()
                invariant
                    j <= more@.len(),
                    out@ == before + more@.subrange(0, j as int),
                decreases more@.len() - j,
            {
                out.push(more[j].clone());
                assert(more@.subrange(0, j + 1) =~= more@.subrange(0, j as int).push(more@[j as int]));
                j += 1;
            }
            proof {
                assert(more@.subrange(0, more@.len() as int) =~= more@);
                assert(texts(out@) =~= texts(before) + texts(more@));
            }
        }
        i += 1;
    }
    proof {
        assert(a.take(anns@.len() as int) =~= a);
    }
    out
}

} // verus!

verus! {

// ---------------------------------------------------------------------------
// The verbose `Possible values:` block
// ---------------------------------------------------------------------------

pub open spec fn lit_pv_label() -> Text {
    seq!['P', 'o', 's', 's', 'i', 'b', 'l', 'e', ' ', 'v', 'a', 'l', 'u', 'e', 's', ':']
}
pub open spec fn lit_bullet() -> Text { seq!['*', ' '] }
pub open spec fn name_stops() -> Text { seq!['(', ':'] }
pub open spec fn lit_default_marker() -> Text { seq!['(', 'd', 'e', 'f', 'a', 'u', 'l', 't', ')'] }

/// The value a bullet (`name (desc)` / `name: desc`) names.
pub open spec fn bullet_name(item: Text) -> Text {
    trim(trim_end_char(trim(before_any(item, name_stops())), '.'))
}

/// The choices, and the default, of a bullet list.
pub open spec fn pv_bullets(items: Seq<Text>) -> (Seq<Text>, Option<Text>)
    decreases items.len(),
{
    if items.len() == 0 {
        (seq![], None)
    } else {
        let (c, d) = pv_bullets(items.drop_last());
        let item = items.last();
        let name = bullet_name(item);
        if name.len() == 0 {
            (c, d)
        } else {
            (c.push(name), if contains(item, lit_default_marker()) { Some(name) } else { d })
        }
    }
}

/// A comma-list entry wrapped in `*…*` marks the default.
pub open spec fn starred(token: Text) -> bool {
    token.len() > 1 && starts_with(token, seq!['*']) && ends_with(token, seq!['*'])
}

/// The choices, and the default, of an inline comma list.
pub open spec fn pv_inline(tokens: Seq<Text>) -> (Seq<Text>, Option<Text>)
    decreases tokens.len(),
{
    if tokens.len() == 0 {
        (seq![], None)
    } else {
        let (c, d) = pv_inline(tokens.drop_last());
        let token = tokens.last();
        let name = trim(trim_set(token, seq!['*']));
        if name.len() == 0 {
            (c, d)
        } else {
            (c.push(name), if starred(token) { Some(name) } else { d })
        }
    }
}

/// The help with the `Possible values:` block removed, the choices it lists
/// and the default it marks — when it lists any.
pub open spec fn pv_block(help: Text) -> Option<(Text, Seq<Text>, Option<Text>)> {
    let idx = find(help, lit_pv_label());
    if idx < 0 {
        None
    } else {
        let cleaned = trim_end(help.subrange(0, idx));
        let after = trim(help.subrange(idx + 16, help.len() as int));
        let (choices, default) = if contains(after, lit_bullet()) {
            pv_bullets(trimmed_nonempty(split(after, lit_bullet())))
        } else {
            pv_inline(trimmed_all(split(trim_end_char(after, '.'), seq![','])))
        };
        if choices.len() > 0 {
            Some((cleaned, choices, default))
        } else {
            None
        }
    }
}

pub open spec fn opt_texts(o: Option<String>) -> Option<Text> {
    match o {
        Some(s) => Some(s@),
        None => None,
    }
}

/// Recover clap's verbose "Possible values:" block.
pub fn extract_possible_values_block(help: &[char]) -> (r: Option<(Vec<char>, Vec<String>, Option<String>)>)
    ensures
        match r {
            Some((c, v, d)) => pv_block(help@) == Some((c@, texts(v@), opt_texts(d))),
            None => pv_block(help@) is None,
        },
{
    let label = ['P', 'o', 's', 's', 'i', 'b', 'l', 'e', ' ', 'v', 'a', 'l', 'u', 'e', 's', ':'];
    proof {
        lemma_find_from_range(help@, lit_pv_label(), 0);
    }
    let idx = match find_in(help, &label) {
        Some(i) => i,
        None => return None,
    };
    let n = help.len();
    assert(label@ =~= lit_pv_label());
    let cleaned = trim_end_of(slice_subrange(help, 0, idx));
    let after = trim_of(slice_subrange(help, idx + 16, help.len()));
    let mut choices: Vec<String> = Vec::new();
    let mut default: Option<String> = None;
    let ghost expected = if contains(after@, lit_bullet()) {
        pv_bullets(trimmed_nonempty(split(after@, lit_bullet())))
    } else {
        pv_inline(trimmed_all(split(trim_end_char(after@, '.'), seq![','])))
    };
    if contains_in(after, &['*', ' ']) {
        let pieces = split_on(after, &['*', ' ']);
        let items = trimmed_pieces(&pieces, Ghost(split(after@, lit_bullet())));
        let ghost l = trimmed_nonempty(split(after@, lit_bullet()));
        let mut i: usize = 0;
        while i < items.len()
            invariant
                i <= items@.len(),
                views_as(items@, l),
                texts(choices@) == pv_bullets(l.take(i as int)).0,
                opt_texts(default) == pv_bullets(l.take(i as int)).1,
            decreases items@.len() - i,
        {
            let item = items[i];
            proof {
                assert(l.take(i + 1).drop_last() =~= l.take(i as int));
                assert(l.take(i + 1).last() == item@);
            }
            let name = trim_of(trim_end_char_of(trim_of(before_any_of(item, &['(', ':'])), '.'));
            assert(['(', ':']@ =~= name_stops());
            if name.len() > 0 {
                let ghost before = choices@;
                if contains_in(item, &['(', 'd', 'e', 'f', 'a', 'u', 'l', 't', ')']) {
                    default = Some(to_string(name));
                }
                choices.push(to_string(name));
                assert(texts(choices@) =~= texts(before).push(name@));
            }
            i += 1;
        }
        assert(l.take(items@.len() as int) =~= l);
    } else {
        let body = trim_end_char_of(after, '.');
        let pieces = split_on(body, &[',']);
        assert([',']@ =~= seq![',']);
        let tokens = trimmed_each(&pieces, Ghost(split(body@, seq![','])));
        let ghost l = trimmed_all(split(body@, seq![',']));
        let mut i: usize = 0;
        while i < tokens.len()
            invariant
                i <= tokens@.len(),
                views_as(tokens@, l),
                texts(choices@) == pv_inline(l.take(i as int)).0,
                opt_texts(default) == pv_inline(l.take(i as int)).1,
            decreases tokens@.len() - i,
        {
            let token = tokens[i];
            proof {
                assert(l.take(i + 1).drop_last() =~= l.take(i as int));
                assert(l.take(i + 1).last() == token@);
            }
            assert(['*']@ =~= seq!['*']);
            let is_default = token.len() > 1 && has_prefix(token, &['*']) && has_suffix(token, &['*']);
            let name = trim_of(trim_set_of(token, &['*']));
            if name.len() > 0 {
                let ghost before = choices@;
                if is_default {
                    default = Some(to_string(name));
                }
                choices.push(to_string(name));
                assert(texts(choices@) =~= texts(before).push(name@));
            }
            i += 1;
        }
        assert(l.take(tokens@.len() as int) =~= l);
    }
    if choices.len() > 0 {
        Some((to_vec(cleaned), choices, default))
    } else {
        None
    }
}

// ---------------------------------------------------------------------------
// Finishing a flag or argument once its help is assembled
// ---------------------------------------------------------------------------

/// The help, choices and default a help text yields once its annotations
/// (or its `Possible values:` block) are recovered and cut out.
pub open spec fn help_meta(h: Text) -> (Text, Option<Seq<Text>>, Seq<Text>) {
    let (clean0, anns) = annotations(h);
    let d0 = ann_default(anns);
    let c0 = ann_choices(anns);
    if c0 is None && pv_block(clean0) is Some {
        let (c, vals, d) = pv_block(clean0)->0;
        (c, Some(vals), if d0.len() == 0 && d is Some { seq![d->0] } else { d0 })
    } else {
        (clean0, c0, d0)
    }
}

pub open spec fn nonempty_text(t: Text) -> Option<Text> {
    if t.len() > 0 {
        Some(t)
    } else {
        None
    }
}

pub open spec fn enriched_flag(f: FlagV) -> FlagV {
    match f.help {
        None => f,
        Some(h) => {
            let (help, choices, default) = help_meta(h);
            FlagV {
                help: nonempty_text(help),
                default,
                arg: match choices {
                    Some(c) => match f.arg {
                        Some(a) => Some(ArgV { choices: Some(c), ..a }),
                        None => None,
                    },
                    None => f.arg,
                },
                ..f
            }
        },
    }
}

pub open spec fn enriched_arg(a: ArgV) -> ArgV {
    match a.help {
        None => a,
        Some(h) => {
            let (help, choices, default) = help_meta(h);
            ArgV { help: nonempty_text(help), default, choices, ..a }
        },
    }
}

fn recover_meta(help: &[char]) -> (r: (Vec<char>, Option<Vec<String>>, Vec<String>))
    ensures
        ({
            let (h, c, d) = help_meta(help@);
            &&& r.0@ == h
            &&& match r.1 {
                Some(v) => c == Some(texts(v@)),
                None => c is None,
            }
            &&& texts(r.2@) == d
        }),
{
    let (clean, anns) = extract_annotations(help);
    let d0 = default_from(&anns);
    let c0 = choices_from(&anns);
    if c0.is_none() {
        match extract_possible_values_block(clean.as_slice()) {
            Some((c, vals, d)) => {
                let default = if d0.len() == 0 && d.is_some() {
                    let v = vec![d.unwrap()];
                    assert(texts(v@) =~= seq![opt_texts(d)->0]);
                    v
                } else {
                    d0
                };
                return (c, Some(vals), default);
            },
            None => {},
        }
    }
    (clean, c0, d0)
}

fn some_nonempty(t: Vec<char>) -> (r: Option<String>)
    ensures
        opt_texts(r) == nonempty_text(t@),
{
    if t.len() > 0 {
        Some(to_string(t.as_slice()))
    } else {
        None
    }
}

/// Recover a flag's annotations from its assembled help and clean them out.
pub fn enrich_flag(flag: &mut SpecFlag)
    ensures
        final(flag)@ == enriched_flag(old(flag)@),
{
    let help = match flag.help.take() {
        Some(h) => h,
        None => return ,
    };
    let hv = chars_of(help.as_str());
    let (clean, choices, default) = recover_meta(hv.as_slice());
    flag.default = default;
    flag.help = some_nonempty(clean);
    match choices {
        Some(c) => {
            match flag.arg.take() {
                Some(a) => {
                    let mut a = a;
                    a.choices = Some(SpecChoices { choices: c });
                    flag.arg = Some(a);
                },
                None => {},
            }
        },
        None => {},
    }
}

/// Recover an argument's annotations from its assembled help.
pub fn enrich_arg(arg: &mut SpecArg)
    ensures
        final(arg)@ == enriched_arg(old(arg)@),
{
    let help = match arg.help.take() {
        Some(h) => h,
        None => return ,
    };
    let hv = chars_of(help.as_str());
    let (clean, choices, default) = recover_meta(hv.as_slice());
    arg.default = default;
    arg.help = some_nonempty(clean);
    arg.choices = match choices {
        Some(c) => Some(SpecChoices { choices: c }),
        None => None,
    };
}

} // verus!

verus! {

// ---------------------------------------------------------------------------
// Command rows and usage lines
// ---------------------------------------------------------------------------

pub open spec fn has_alnum(s: Text) -> bool {
    exists|k: int| 0 <= k < s.len() && unicode_alphanumeric(s[k])
}

/// The first word of each comma-separated piece that holds an alphanumeric
/// character.
pub open spec fn row_names(pieces: Seq<Text>) -> Seq<Text>
    decreases pieces.len(),
{
    if pieces.len() == 0 {
        seq![]
    } else {
        let rest = row_names(pieces.drop_last());
        match first_word(pieces.last()) {
            Some(w) => if has_alnum(w) {
                rest.push(w)
            } else {
                rest
            },
            None => rest,
        }
    }
}

/// A command row's name and aliases (`build, b`); `None` for a row naming
/// no command, such as cargo's `...` elision marker.
pub open spec fn command_names(def: Text) -> Option<(Text, Seq<Text>)> {
    let names = row_names(split(def, seq![',']));
    if names.len() > 0 {
        Some((names[0], names.drop_first()))
    } else {
        None
    }
}

fn any_alnum(s: &[char]) -> (r: bool)
    ensures
        r == has_alnum(s@),
{
    let mut i: usize = 0;
    while i < s.len()
        invariant
            i <= s@.len(),
            forall|k: int| 0 <= k < i ==> !unicode_alphanumeric(s@[k]),
        decreases s@.len() - i,
    {
        if is_alphanumeric(s[i]) {
            return true;
        }
        i += 1;
    }
    false
}

pub fn split_command_names(def: &[char]) -> (r: Option<(String, Vec<String>)>)
    ensures
        match r {
            Some((n, a)) => command_names(def@) == Some((n@, texts(a@))),
            None => command_names(def@) is None,
        },
{
    assert([',']@ =~= seq![',']);
    let pieces = split_on(def, &[',']);
    let ghost l = split(def@, seq![',']);
    let mut names: Vec<String> = Vec::new();
    let mut i: usize = 0;
    while i < pieces.len()
        invariant
            i <= pieces@.len(),
            views_as(pieces@, l),
            texts(names@) == row_names(l.take(i as int)),
        decreases pieces@.len() - i,
    {
        proof {
            assert(l.take(i + 1).drop_last() =~= l.take(i as int));
            assert(l.take(i + 1).last() == l[i as int]);
        }
        let ws = split_words(pieces[i]);
        if ws.len() > 0 {
            let w = ws[0];
            if any_alnum(w) {
                let ghost before = names@;
                names.push(to_string(w));
                assert(texts(names@) =~= texts(before).push(w@));
            }
        }
        i += 1;
    }
    assert(l.take(pieces@.len() as int) =~= l);
    if names.len() == 0 {
        return None;
    }
    let ghost all = names@;
    let first = names.remove(0);
    assert(texts(names@) =~= texts(all).drop_first());
    Some((first, names))
}

pub open spec fn lit_command() -> Text { seq!['c', 'o', 'm', 'm', 'a', 'n', 'd'] }
pub open spec fn lit_subcommand() -> Text { seq!['s', 'u', 'b', 'c', 'o', 'm', 'm', 'a', 'n', 'd'] }
pub open spec fn lit_options_token() -> Text { seq!['[', 'O', 'P', 'T', 'I', 'O', 'N', 'S', ']'] }

/// clap's generic subcommand placeholder (`<COMMAND>` / `[COMMAND]`).
pub open spec fn command_placeholder(token: Text) -> bool {
    let bare = trim_set(token, brackets());
    eq_ci(bare, lit_command()) || eq_ci(bare, lit_subcommand())
}

pub fn is_command_placeholder(token: &[char]) -> (r: bool)
    ensures
        r == command_placeholder(token@),
{
    let bare = trim_set_of(token, &['<', '>', '[', ']']);
    eq_ignore_case(bare, &['c', 'o', 'm', 'm', 'a', 'n', 'd'])
        || eq_ignore_case(bare, &['s', 'u', 'b', 'c', 'o', 'm', 'm', 'a', 'n', 'd'])
}

/// Whether the usage words from `i` on keep the line a pure dispatch form,
/// given whether the placeholder was already seen.
pub open spec fn dispatch_from(ws: Seq<Text>, i: int, saw: bool) -> bool
    decreases ws.len() - i,
{
    if i < 0 || i >= ws.len() {
        saw
    } else if command_placeholder(ws[i]) {
        dispatch_from(ws, i + 1, true)
    } else if ws[i] == lit_options_token() {
        dispatch_from(ws, i + 1, saw)
    } else if starts_with(ws[i], seq!['<']) || starts_with(ws[i], seq!['[']) {
        false
    } else {
        dispatch_from(ws, i + 1, saw)
    }
}

/// A usage line whose only non-option token after the binary is the
/// subcommand placeholder (`zoxide <COMMAND>`).
pub open spec fn dispatch_form(line: Text) -> bool {
    dispatch_from(words(line), 0, false)
}

pub fn is_dispatch_form(line: &[char]) -> (r: bool)
    ensures
        r == dispatch_form(line@),
{
    let ws = split_words(line);
    let ghost l = words(line@);
    let mut saw = false;
    let mut i: usize = 0;
    let opts: [char; 9] = ['[', 'O', 'P', 'T', 'I', 'O', 'N', 'S', ']'];
    assert(opts@ =~= lit_options_token());
    while i < ws.len()
        invariant
            opts@ == lit_options_token(),
            l == words(line@),
            i <= ws@.len(),
            views_as(ws@, l),
            dispatch_from(l, 0, false) == dispatch_from(l, i as int, saw),
        decreases ws@.len() - i,
    {
        let t = ws[i];
        assert(t@ == l[i as int]);
        assert(['<']@ =~= seq!['<']);
        assert(['[']@ =~= seq!['[']);
        let ghost saw0 = saw;
        if is_command_placeholder(t) {
            saw = true;
        } else if eq_chars(t, &opts) {
        } else if has_prefix(t, &['<']) || has_prefix(t, &['[']) {
            assert(dispatch_from(l, i as int, saw0) == false);
            return false;
        }
        assert(dispatch_from(l, i as int, saw0) == dispatch_from(l, i + 1, saw));
        i += 1;
    }
    saw
}

} // verus!

verus! {

// ---------------------------------------------------------------------------
// The line-by-line walk
// ---------------------------------------------------------------------------

pub type Entry = (Text, Seq<Text>, Option<Text>);

/// What the lines read so far have established.
#[verifier::ext_equal]
pub struct ClapState {
    pub section: Section,
    pub preamble: Seq<Text>,
    pub usage: Seq<Text>,
    pub args: Seq<ArgV>,
    pub flags: Seq<FlagV>,
    /// Command rows: name, aliases and raw help (annotations not yet cut out).
    pub commands: Seq<Entry>,
}

pub open spec fn clap_start() -> ClapState {
    ClapState {
        section: Section::Preamble,
        preamble: seq![],
        usage: seq![],
        args: seq![],
        flags: seq![],
        commands: seq![],
    }
}

pub open spec fn lit_help() -> Text { seq!['h', 'e', 'l', 'p'] }
pub open spec fn lit_print_this() -> Text {
    seq!['P', 'r', 'i', 'n', 't', ' ', 't', 'h', 'i', 's', ' ', 'm', 'e', 's', 's', 'a', 'g', 'e']
}

/// A positional from an `Arguments:` entry (`<NAME>`, `[NAME]...`).
pub open spec fn positional(def: Text, desc: Option<Text>) -> ArgV {
    let token = match first_word(def) {
        Some(w) => w,
        None => def,
    };
    ArgV {
        name: metavar(token),
        required: starts_with(token, seq!['<']),
        var: contains(token, lit_ellipsis()),
        help: desc,
        ..arg_named(seq![])
    }
}

/// A line read inside the current section.
pub open spec fn clap_body(st: ClapState, line: Text) -> ClapState {
    let t = trim(line);
    match st.section {
        Section::Preamble => ClapState { preamble: st.preamble.push(t), ..st },
        Section::Usage => if t.len() > 0 {
            ClapState { usage: st.usage.push(t), ..st }
        } else {
            st
        },
        Section::Arguments => if t.len() == 0 {
            st
        } else if starts_with(t, seq!['<']) || starts_with(t, seq!['[']) {
            let (def, desc) = split_def(t);
            ClapState { args: st.args.push(positional(def, desc)), ..st }
        } else if st.args.len() > 0 {
            let last = st.args.last();
            ClapState { args: st.args.drop_last().push(ArgV { help: appended(last.help, t), ..last }), ..st }
        } else {
            st
        },
        Section::Options => if t.len() == 0 {
            st
        } else if starts_with(t, seq!['-']) {
            let (def, desc) = split_def(t);
            match flag_def(def) {
                Some(f) => ClapState { flags: st.flags.push(FlagV { help: desc, ..f }), ..st },
                None => st,
            }
        } else if st.flags.len() > 0 {
            let last = st.flags.last();
            ClapState { flags: st.flags.drop_last().push(FlagV { help: appended(last.help, t), ..last }), ..st }
        } else {
            st
        },
        Section::Commands => if t.len() == 0 {
            st
        } else {
            let (def, desc) = split_def(t);
            match desc {
                Some(d) => match command_names(def) {
                    None => st,
                    Some((name, aliases)) => if name == lit_help() && starts_with(d, lit_print_this()) {
                        st
                    } else {
                        ClapState { commands: st.commands.push((name, aliases, Some(d))), ..st }
                    },
                },
                None => if st.commands.len() > 0 {
                    let (n, a, h) = st.commands.last();
                    ClapState { commands: st.commands.drop_last().push((n, a, appended(h, def))), ..st }
                } else {
                    st
                },
            }
        },
        Section::Other => st,
    }
}

/// One line of help: a column-0 line may open a section (or carry an inline
/// `Usage:`); anything else belongs to the current section.
pub open spec fn clap_step(st: ClapState, line: Text) -> ClapState {
    if line.len() > 0 && !is_ws(line[0]) {
        let stripped = trim_end(line);
        if starts_with_ci(stripped, lit_usage_colon()) {
            let rest = trim(stripped.subrange(6, stripped.len() as int));
            ClapState {
                section: Section::Usage,
                usage: if rest.len() > 0 { st.usage.push(rest) } else { st.usage },
                ..st
            }
        } else if header_of(stripped) is Some {
            ClapState { section: header_of(stripped)->0, ..st }
        } else if st.section != Section::Preamble {
            ClapState { section: Section::Other, ..st }
        } else {
            clap_body(st, line)
        }
    } else {
        clap_body(st, line)
    }
}

pub open spec fn clap_fold(lines: Seq<Text>) -> ClapState
    decreases lines.len(),
{
    if lines.len() == 0 {
        clap_start()
    } else {
        clap_step(clap_fold(lines.drop_last()), lines.last())
    }
}

/// A command row made into a subcommand: its help cleaned of annotations,
/// and aliases from the row and from `[aliases: ..]` both kept.
pub open spec fn built_cmd(e: Entry) -> CmdV {
    let (name, aliases, raw) = e;
    match raw {
        Some(h) => {
            let (clean, anns) = annotations(h);
            CmdV { help: nonempty_text(clean), aliases: aliases + ann_aliases(anns), ..cmd_named(name) }
        },
        None => CmdV { aliases, ..cmd_named(name) },
    }
}

pub open spec fn built_cmds(es: Seq<Entry>) -> Seq<CmdV> {
    es.map_values(|e: Entry| built_cmd(e))
}

/// Whether some usage line offers a way to run the command itself.
pub open spec fn has_run_form(usage: Seq<Text>) -> bool {
    exists|i: int| 0 <= i < usage.len() && !dispatch_form(usage[i])
}

/// The spec clap help describes.
pub open spec fn clap_spec(content: Text) -> SpecV {
    let st = clap_fold(lines(content));
    let flags = st.flags.map_values(|f: FlagV| enriched_flag(f));
    let args = st.args.map_values(|a: ArgV| enriched_arg(a));
    let subs = with_subcommands(seq![], built_cmds(st.commands));
    let pre = nonempty_only(st.preamble);
    let help = if pre.len() > 0 { Some(pre.last()) } else { None };
    let help_long = if pre.len() > 1 { Some(join(pre, seq!['\n'])) } else { None };
    let bin = if st.usage.len() > 0 && first_word(st.usage[0]) is Some {
        first_word(st.usage[0])->0
    } else {
        seq![]
    };
    SpecV {
        name: bin,
        bin,
        about: help,
        cmd: CmdV {
            name: bin,
            help,
            help_long,
            aliases: seq![],
            flags,
            args,
            subcommands: subs,
            subcommand_required: subs.len() > 0 && !has_run_form(st.usage),
        },
    }
}

/// Help that `str`-slicing the inline `Usage:` prefix would not split inside
/// a character: every column-0 line at least six bytes long has a character
/// boundary at byte six.
pub open spec fn usage_prefix_slicable(content: Text) -> bool {
    forall|i: int| 0 <= i < lines(content).len() ==> {
        let l = #[trigger] lines(content)[i];
        let s = trim_end(l);
        (l.len() > 0 && !is_ws(l[0]) && utf8_len(s) >= 6) ==> is_char_boundary(s, 6)
    }
}

proof fn lemma_utf8_len_mono(s: Seq<char>, a: int, b: int)
    requires
        0 <= a <= b <= s.len(),
    ensures
        utf8_len(s.take(a)) + (b - a) <= utf8_len(s.take(b)),
    decreases b - a,
{
    if a < b {
        lemma_utf8_len_mono(s, a, b - 1);
        assert(s.take(b).drop_last() =~= s.take(b - 1));
    }
}

/// Whether the line's byte six, when it has one, falls between characters.
fn line_ok(l: &[char]) -> (r: bool)
    ensures
        r == ((l@.len() > 0 && !is_ws(l@[0]) && utf8_len(trim_end(l@)) >= 6) ==> is_char_boundary(trim_end(l@), 6)),
{
    if l.len() == 0 || is_whitespace(l[0]) {
        return true;
    }
    let t = trim_end_of(l);
    let mut w: usize = 0;
    let mut k: usize = 0;
    while w < 6 && k < t.len()
        invariant
            k <= t@.len(),
            w == utf8_len(t@.take(k as int)),
            w < 6 + 4,
            k == 0 || utf8_len(t@.take(k - 1)) < 6,
        decreases t@.len() - k,
    {
        let c = t[k];
        let cw: usize = if (c as u32) < 0x80 { 1 } else if (c as u32) < 0x800 { 2 } else if (c as u32) < 0x10000 { 3 } else { 4 };
        assert(t@.take(k + 1).drop_last() =~= t@.take(k as int));
        assert(t@.take(k + 1).last() == c);
        w += cw;
        k += 1;
    }
    proof {
        if w < 6 {
            assert(k == t@.len());
            assert(t@.take(k as int) =~= t@);
        } else if w > 6 {
            assert forall|j: int| 0 <= j <= t@.len() implies utf8_len(#[trigger] t@.take(j)) != 6 by {
                if j < k {
                    lemma_utf8_len_mono(t@, j, k - 1);
                } else {
                    lemma_utf8_len_mono(t@, k as int, j);
                }
            }
            lemma_utf8_len_mono(t@, k as int, t@.len() as int);
            assert(t@.take(t@.len() as int) =~= t@);
        } else {
            assert(utf8_len(t@.take(k as int)) == 6);
            lemma_utf8_len_mono(t@, k as int, t@.len() as int);
            assert(t@.take(t@.len() as int) =~= t@);
        }
    }
    w <= 6
}

/// Whether clap help text can be read: every column-0 line at least six
/// bytes long has a character boundary at byte six.
pub fn clap_input_ok(content: &str) -> (r: bool)
    ensures
        r == usage_prefix_slicable(content@),
{
    let cs = chars_of(content);
    let ls = split_lines(cs.as_slice());
    let ghost l = lines(content@);
    let mut i: usize = 0;
    while i < ls.len()
        invariant
            i <= ls@.len(),
            views_as(ls@, l),
            l == lines(content@),
            forall|j: int| 0 <= j < i ==> {
                let x = #[trigger] l[j];
                let s = trim_end(x);
                (x.len() > 0 && !is_ws(x[0]) && utf8_len(s) >= 6) ==> is_char_boundary(s, 6)
            },
        decreases ls@.len() - i,
    {
        if !line_ok(ls[i]) {
            return false;
        }
        i += 1;
    }
    true
}

} // verus!

verus! {

pub open spec fn entries_view(v: Seq<(String, Vec<String>, Option<String>)>) -> Seq<Entry> {
    v.map_values(|e: (String, Vec<String>, Option<String>)| (e.0@, texts(e.1@), opt_texts(e.2)))
}

/// The walk's state while reading lines.
pub struct ClapBuild {
    pub section: Section,
    pub preamble: Vec<String>,
    pub usage: Vec<String>,
    pub args: Vec<SpecArg>,
    pub flags: Vec<SpecFlag>,
    pub commands: Vec<(String, Vec<String>, Option<String>)>,
}

impl View for ClapBuild {
    type V = ClapState;

    open spec fn view(&self) -> ClapState {
        ClapState {
            section: self.section,
            preamble: texts(self.preamble@),
            usage: texts(self.usage@),
            args: args_view(self.args@),
            flags: flags_view(self.flags@),
            commands: entries_view(self.commands@),
        }
    }
}

impl ClapBuild {
    pub fn new() -> (r: ClapBuild)
        ensures
            r@ == clap_start(),
    {
        let r = ClapBuild {
            section: Section::Preamble,
            preamble: Vec::new(),
            usage: Vec::new(),
            args: Vec::new(),
            flags: Vec::new(),
            commands: Vec::new(),
        };
        assert(r@ =~= clap_start());
        r
    }

    /// A line inside the current section.
    pub fn body(&mut self, line: &[char])
        ensures
            final(self)@ == clap_body(old(self)@, line@),
    {
        let t = trim_of(line);
        assert(['<']@ =~= seq!['<']);
        assert(['[']@ =~= seq!['[']);
        assert(['-']@ =~= seq!['-']);
        match self.section {
            Section::Preamble => {
                let ghost before = self.preamble@;
                self.preamble.push(to_string(t));
                assert(texts(self.preamble@) =~= texts(before).push(t@));
            },
            Section::Usage => {
                if t.len() > 0 {
                    let ghost before = self.usage@;
                    self.usage.push(to_string(t));
                    assert(texts(self.usage@) =~= texts(before).push(t@));
                }
            },
            Section::Arguments => {
                if t.len() == 0 {
                } else if has_prefix(t, &['<']) || has_prefix(t, &['[']) {
                    let (def, desc) = split_def_and_description(t);
                    let ws = split_words(def);
                    let token = if ws.len() > 0 { ws[0] } else { def };
                    let mut arg = SpecArg::named(to_string(metavar_name(token).as_slice()));
                    arg.required = has_prefix(token, &['<']);
                    arg.var = contains_in(token, &['.', '.', '.']);
                    arg.help = match desc {
                        Some(d) => Some(to_string(d)),
                        None => None,
                    };
                    let ghost before = self.args@;
                    self.args.push(arg);
                    assert(args_view(self.args@) =~= args_view(before).push(positional(split_def(t@).0, split_def(t@).1)));
                } else if self.args.len() > 0 {
                    let ghost before = self.args@;
                    let mut last = self.args.pop().unwrap();
                    append_help(&mut last.help, t);
                    self.args.push(last);
                    assert(args_view(self.args@) =~= args_view(before).drop_last().push(ArgV { help: appended(args_view(before).last().help, t@), ..args_view(before).last() }));
                }
            },
            Section::Options => {
                if t.len() == 0 {
                } else if has_prefix(t, &['-']) {
                    let (def, desc) = split_def_and_description(t);
                    match parse_flag_def(def) {
                        Some(f) => {
                            let mut f = f;
                            f.help = match desc {
                                Some(d) => Some(to_string(d)),
                                None => None,
                            };
                            let ghost before = self.flags@;
                            self.flags.push(f);
                            assert(flags_view(self.flags@) =~= flags_view(before).push(FlagV { help: split_def(t@).1, ..flag_def(split_def(t@).0)->0 }));
                        },
                        None => {},
                    }
                } else if self.flags.len() > 0 {
                    let ghost before = self.flags@;
                    let mut last = self.flags.pop().unwrap();
                    append_help(&mut last.help, t);
                    self.flags.push(last);
                    assert(flags_view(self.flags@) =~= flags_view(before).drop_last().push(FlagV { help: appended(flags_view(before).last().help, t@), ..flags_view(before).last() }));
                }
            },
            Section::Commands => {
                if t.len() > 0 {
                    let (def, desc) = split_def_and_description(t);
                    match desc {
                        Some(d) => {
                            match split_command_names(def) {
                                None => {},
                                Some((name, aliases)) => {
                                    let nv = chars_of(name.as_str());
                                    let help_word = ['h', 'e', 'l', 'p'];
                                    let print_this = ['P', 'r', 'i', 'n', 't', ' ', 't', 'h', 'i', 's', ' ', 'm', 'e', 's', 's', 'a', 'g', 'e'];
                                    assert(help_word@ =~= lit_help());
                                    assert(print_this@ =~= lit_print_this());
                                    if eq_chars(nv.as_slice(), &help_word) && has_prefix(d, &print_this) {
                                    } else {
                                        let ghost before = self.commands@;
                                        let ghost e = (name@, texts(aliases@), Some(d@));
                                        self.commands.push((name, aliases, Some(to_string(d))));
                                        assert(entries_view(self.commands@) =~= entries_view(before).push(e));
                                    }
                                },
                            }
                        },
                        None => {
                            if self.commands.len() > 0 {
                                let ghost before = self.commands@;
                                let (n, a, h) = self.commands.pop().unwrap();
                                let mut h = h;
                                append_help(&mut h, def);
                                let ghost e = (n@, texts(a@), opt_texts(h));
                                self.commands.push((n, a, h));
                                assert(entries_view(self.commands@) =~= entries_view(before).drop_last().push(e));
                            }
                        },
                    }
                }
            },
            Section::Other => {},
        }
    }
}

} // verus!

verus! {

impl ClapBuild {
    /// One line of help.
    pub fn step(&mut self, line: &[char])
        ensures
            final(self)@ == clap_step(old(self)@, line@),
    {
        if line.len() > 0 && !is_whitespace(line[0]) {
            let stripped = trim_end_of(line);
            let usage_colon = ['u', 's', 'a', 'g', 'e', ':'];
            assert(usage_colon@ =~= lit_usage_colon());
            if has_prefix_ci(stripped, &usage_colon) {
                self.section = Section::Usage;
                let rest = trim_of(slice_subrange(stripped, 6, stripped.len()));
                if rest.len() > 0 {
                    let ghost before = self.usage@;
                    self.usage.push(to_string(rest));
                    assert(texts(self.usage@) =~= texts(before).push(rest@));
                }
                return;
            }
            match detect_header(stripped) {
                Some(s) => {
                    self.section = s;
                    return;
                },
                None => {},
            }
            if self.section != Section::Preamble {
                self.section = Section::Other;
                return;
            }
        }
        self.body(line);
    }
}

/// The flags with their annotations recovered.
fn finish_flags(flags: Vec<SpecFlag>) -> (r: Vec<SpecFlag>)
    ensures
        flags_view(r@) == flags_view(flags@).map_values(|f: FlagV| enriched_flag(f)),
{
    let ghost all = flags_view(flags@);
    let mut src = flags;
    let mut out: Vec<SpecFlag> = Vec::new();
    while src.len() > 0
        invariant
            all.len() == out@.len() + src@.len(),
            flags_view(out@) == all.take(out@.len() as int).map_values(|f: FlagV| enriched_flag(f)),
            flags_view(src@) == all.skip(out@.len() as int),
        decreases src@.len(),
    {
        let ghost k = out@.len();
        let ghost prev = src@;
        let mut f = src.remove(0);
        assert(f@ == all[k as int]) by {
            assert(flags_view(prev)[0] == all.skip(k as int)[0]);
        }
        enrich_flag(&mut f);
        let ghost before = out@;
        out.push(f);
        proof {
            assert forall|j: int| 0 <= j < out@.len() implies
                #[trigger] flags_view(out@)[j] == enriched_flag(all[j]) by {
                if j < k {
                    assert(flags_view(before)[j] == all.take(k as int).map_values(|f: FlagV| enriched_flag(f))[j]);
                }
            }
            assert(flags_view(out@) =~= all.take((k + 1) as int).map_values(|f: FlagV| enriched_flag(f)));
            assert forall|j: int| 0 <= j < src@.len() implies
                #[trigger] flags_view(src@)[j] == all[k + 1 + j] by {
                assert(src@[j] == prev[j + 1]);
                assert(flags_view(prev)[j + 1] == all.skip(k as int)[j + 1]);
            }
            assert(flags_view(src@) =~= all.skip((k + 1) as int));
        }
    }
    assert(all.take(all.len() as int) =~= all);
    out
}

/// The arguments with their annotations recovered.
fn finish_args(args: Vec<SpecArg>) -> (r: Vec<SpecArg>)
    ensures
        args_view(r@) == args_view(args@).map_values(|a: ArgV| enriched_arg(a)),
{
    let ghost all = args_view(args@);
    let mut src = args;
    let mut out: Vec<SpecArg> = Vec::new();
    while src.len() > 0
        invariant
            all.len() == out@.len() + src@.len(),
            args_view(out@) == all.take(out@.len() as int).map_values(|a: ArgV| enriched_arg(a)),
            args_view(src@) == all.skip(out@.len() as int),
        decreases src@.len(),
    {
        let ghost k = out@.len();
        let ghost prev = src@;
        let mut a = src.remove(0);
        assert(a@ == all[k as int]) by {
            assert(args_view(prev)[0] == all.skip(k as int)[0]);
        }
        enrich_arg(&mut a);
        let ghost before = out@;
        out.push(a);
        proof {
            assert forall|j: int| 0 <= j < out@.len() implies
                #[trigger] args_view(out@)[j] == enriched_arg(all[j]) by {
                if j < k {
                    assert(args_view(before)[j] == all.take(k as int).map_values(|a: ArgV| enriched_arg(a))[j]);
                }
            }
            assert(args_view(out@) =~= all.take((k + 1) as int).map_values(|a: ArgV| enriched_arg(a)));
            assert forall|j: int| 0 <= j < src@.len() implies
                #[trigger] args_view(src@)[j] == all[k + 1 + j] by {
                assert(src@[j] == prev[j + 1]);
                assert(args_view(prev)[j + 1] == all.skip(k as int)[j + 1]);
            }
            assert(args_view(src@) =~= all.skip((k + 1) as int));
        }
    }
    assert(all.take(all.len() as int) =~= all);
    out
}

/// A command row made into a subcommand.
fn build_command(name: String, aliases: Vec<String>, raw: Option<String>) -> (r: SpecCommand)
    ensures
        r@ == built_cmd((name@, texts(aliases@), opt_texts(raw))),
{
    let mut cmd = SpecCommand::named(name);
    let mut aliases = aliases;
    match raw {
        Some(h) => {
            let hv = chars_of(h.as_str());
            let (clean, anns) = extract_annotations(hv.as_slice());
            cmd.help = some_nonempty(clean);
            let more = aliases_from(&anns);
            let ghost before = aliases@;
            let mut j: usize = 0;
            while j < more.len()
                invariant
                    j <= more@.len(),
                    aliases@ == before + more@.subrange(0, j as int),
                decreases more@.len() - j,
            {
                aliases.push(more[j].clone());
                assert(more@.subrange(0, j + 1) =~= more@.subrange(0, j as int).push(more@[j as int]));
                j += 1;
            }
            assert(more@.subrange(0, more@.len() as int) =~= more@);
            assert(texts(aliases@) =~= texts(before) + texts(more@));
        },
        None => {},
    }
    cmd.aliases = aliases;
    cmd
}

/// The non-empty lines of the preamble.
fn nonempty_lines(lines: &Vec<String>) -> (r: Vec<String>)
    ensures
        texts(r@) == nonempty_only(texts(lines@)),
{
    let ghost l = texts(lines@);
    let mut out: Vec<String> = Vec::new();
    let mut i: usize = 0;
    while i < lines.len()
        invariant
            i <= lines@.len(),
            l == texts(lines@),
            texts(out@) == nonempty_only(l.take(i as int)),
        decreases lines@.len() - i,
    {
        proof {
            assert(l.take(i + 1).drop_last() =~= l.take(i as int));
            assert(l.take(i + 1).last() == lines@[i as int]@);
        }
        let c = chars_of(lines[i].as_str());
        if c.len() > 0 {
            let ghost before = out@;
            out.push(lines[i].clone());
            assert(texts(out@) =~= texts(before).push(lines@[i as int]@));
        }
        i += 1;
    }
    assert(l.take(lines@.len() as int) =~= l);
    out
}

fn any_run_form(usage: &Vec<String>) -> (r: bool)
    ensures
        r == has_run_form(texts(usage@)),
{
    let mut i: usize = 0;
    while i < usage.len()
        invariant
            i <= usage@.len(),
            forall|k: int| 0 <= k < i ==> dispatch_form(#[trigger] texts(usage@)[k]),
        decreases usage@.len() - i,
    {
        let l = chars_of(usage[i].as_str());
        if !is_dispatch_form(l.as_slice()) {
            assert(!dispatch_form(texts(usage@)[i as int]));
            return true;
        }
        i += 1;
    }
    false
}

/// Parse clap help into a spec.
pub fn parse(content: &str) -> (r: Result<Spec, ParseError>)
    requires
        usage_prefix_slicable(content@),
    ensures
        match r {
            Ok(s) => s@ == clap_spec(content@),
            Err(_) => false,
        },
{
    let chars = chars_of(content);
    let ls = split_lines(chars.as_slice());
    let ghost l = lines(content@);
    let mut st = ClapBuild::new();
    let mut i: usize = 0;
    while i < ls.len()
        invariant
            i <= ls@.len(),
            views_as(ls@, l),
            l == lines(content@),
            st@ == clap_fold(l.take(i as int)),
        decreases ls@.len() - i,
    {
        proof {
            assert(l.take(i + 1).drop_last() =~= l.take(i as int));
            assert(l.take(i + 1).last() == ls@[i as int]@);
        }
        st.step(ls[i]);
        i += 1;
    }
    assert(l.take(ls@.len() as int) =~= l);
    let ghost fin = st@;
    let ClapBuild { section: _, preamble, usage, args, flags, commands } = st;

    let flags = finish_flags(flags);
    let args = finish_args(args);

    let ghost built = built_cmds(entries_view(commands@));
    let mut cmd = SpecCommand::named(String::new());
    let mut commands = commands;
    let mut k: usize = 0;
    let ghost total = commands@.len();
    assert(total <= usize::MAX) by { assert(commands@.len() == commands.len()); }
    let ghost es = entries_view(commands@);
    while commands.len() > 0
        invariant
            k + commands@.len() == total,
            total <= usize::MAX,
            es.len() == total,
            built == built_cmds(es),
            entries_view(commands@) == es.skip(k as int),
            cmd@.subcommands == with_subcommands(seq![], built.take(k as int)),
            cmd@.name == Seq::<char>::empty(),
            cmd@.aliases == Seq::<Text>::empty(),
        decreases commands@.len(),
    {
        let ghost prev = commands@;
        let (name, aliases, raw) = commands.remove(0);
        proof {
            assert forall|j: int| 0 <= j < commands@.len() implies
                #[trigger] entries_view(commands@)[j] == es[k + 1 + j] by {
                assert(commands@[j] == prev[j + 1]);
                assert(entries_view(prev)[j + 1] == es.skip(k as int)[j + 1]);
            }
            assert(entries_view(commands@) =~= es.skip(k + 1));
            assert(es[k as int] == (name@, texts(aliases@), opt_texts(raw))) by {
                assert(entries_view(prev)[0] == es.skip(k as int)[0]);
            }
            assert(built.take(k + 1).drop_last() =~= built.take(k as int));
        }
        let c = build_command(name, aliases, raw);
        cmd.insert_subcommand(c);
        k += 1;
    }
    assert(built.take(total as int) =~= built);

    let pre = nonempty_lines(&preamble);
    let help: Option<String> = if pre.len() > 0 {
        Some(pre[pre.len() - 1].clone())
    } else {
        None
    };
    let help_long: Option<String> = if pre.len() > 1 {
        Some(join_strings(&pre, &['\n']))
    } else {
        None
    };
    assert(['\n']@ =~= seq!['\n']);
    let mut bin = String::new();
    if usage.len() > 0 {
        let u0 = chars_of(usage[0].as_str());
        let ws = split_words(u0.as_slice());
        if ws.len() > 0 {
            bin = to_string(ws[0]);
        }
    }
    let run_form = any_run_form(&usage);
    let required = cmd.subcommands.len() > 0 && !run_form;
    proof {
        lemma_cmds_view(cmd.subcommands@);
    }
    cmd.name = bin.clone();
    cmd.help = help.clone();
    cmd.help_long = help_long;
    cmd.flags = flags;
    cmd.args = args;
    cmd.subcommand_required = required;
    let spec = Spec { name: bin.clone(), bin, about: help, cmd };
    proof {
        let cs = clap_spec(content@);
        assert(fin == clap_fold(lines(content@)));
        assert(flags_view(spec.cmd.flags@) == cs.cmd.flags);
        assert(args_view(spec.cmd.args@) == cs.cmd.args);
        assert(spec.cmd@.subcommands == cs.cmd.subcommands);
        assert(opt_texts(spec.cmd.help) == cs.cmd.help);
        assert(opt_texts(spec.cmd.help_long) == cs.cmd.help_long);
        assert(spec.bin@ == cs.bin);
        assert(spec.cmd.subcommand_required == cs.cmd.subcommand_required);
    }
    Ok(spec)
}

} // verus!
