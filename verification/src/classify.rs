//! Which framework built a program, and therefore how to parse its `--help`.
//! What can be read of a program (its Go build info, a clap marker, the
//! Python interpreter a wrapper names) is gathered elsewhere; the decisions
//! on that evidence are here.

use vstd::prelude::*;
use crate::spec::InputFormat;
use crate::text::{
    chars_of, contains_char, eq_chars, has_char, has_prefix, split, split_on, split_words,
    starts_with, to_string, trim, trim_of, trim_set, trim_set_of, views_as, words,
};
use crate::node::strs;

verus! {

/// A module a Go program was built with.
pub struct GoDep {
    pub path: String,
    pub version: String,
}

pub open spec fn cobra_module() -> Seq<char> {
    "github.com/spf13/cobra"@
}

pub open spec fn has_cobra(deps: Seq<GoDep>) -> bool {
    exists|i: int| 0 <= i < deps.len() && #[trigger] deps[i].path@ == cobra_module()
}

/// The format a program's help is in: Cobra for a Go program built with
/// cobra, else Clap for a Rust program carrying clap's marker, else whatever
/// its Python interpreter's packages say.
pub open spec fn format_of(go_deps: Option<Seq<GoDep>>, clap_found: bool, python: Option<InputFormat>) -> Option<InputFormat> {
    if go_deps matches Some(d) && has_cobra(d) {
        Some(InputFormat::CobraHelptext)
    } else if clap_found {
        Some(InputFormat::ClapHelptext)
    } else {
        python
    }
}

pub fn format_from_evidence(go_deps: Option<&Vec<GoDep>>, clap_found: bool, python: Option<InputFormat>) -> (r: Option<InputFormat>)
    ensures
        r == format_of(
            match go_deps {
                Some(d) => Some(d@),
                None => None,
            },
            clap_found,
            python,
        ),
{
    if let Some(deps) = go_deps {
        let cobra = ['g', 'i', 't', 'h', 'u', 'b', '.', 'c', 'o', 'm', '/', 's', 'p', 'f', '1', '3', '/', 'c', 'o', 'b', 'r', 'a'];
        proof {
            reveal_strlit("github.com/spf13/cobra");
            assert(cobra@ =~= cobra_module());
        }
        let mut i: usize = 0;
        while i < deps.len()
            invariant
                i <= deps@.len(),
                cobra@ == cobra_module(),
                go_deps == Some(deps),
                forall|j: int| 0 <= j < i ==> #[trigger] deps@[j].path@ != cobra_module(),
            decreases deps@.len() - i,
        {
            let p = chars_of(deps[i].path.as_str());
            if eq_chars(p.as_slice(), &cobra) {
                assert(deps@[i as int].path@ == cobra_module());
                assert(has_cobra(deps@));
                return Some(InputFormat::CobraHelptext);
            }
            i += 1;
        }
    }
    if clap_found {
        Some(InputFormat::ClapHelptext)
    } else {
        python
    }
}

// ---------------------------------------------------------------------------
// Multi-call dispatchers
// ---------------------------------------------------------------------------

/// A program that serves many names, and how to ask it which program a name
/// runs: `<binary> <resolve_subcommand> <name>` prints that program's path.
pub struct Dispatcher {
    pub binary: String,
    pub resolve_subcommand: String,
}

pub open spec fn rustup_name() -> Seq<char> {
    "rustup"@
}

pub open spec fn which_name() -> Seq<char> {
    "which"@
}

/// The dispatcher behind a program reached as `invoked` whose file is named
/// `target`: only a known dispatcher reached under another name is one. Any
/// other link is an alias of the program it points at.
pub fn dispatcher_for(target: &str, invoked: &str) -> (r: Option<Dispatcher>)
    ensures
        r is Some <==> (target@ != invoked@ && target@ == rustup_name()),
        r matches Some(d) ==> d.binary@ == rustup_name() && d.resolve_subcommand@ == which_name(),
{
    let t = chars_of(target);
    let v = chars_of(invoked);
    if eq_chars(t.as_slice(), v.as_slice()) {
        return None;
    }
    let rustup = ['r', 'u', 's', 't', 'u', 'p'];
    let which = ['w', 'h', 'i', 'c', 'h'];
    proof {
        reveal_strlit("rustup");
        reveal_strlit("which");
        assert(rustup@ =~= rustup_name());
        assert(which@ =~= which_name());
    }
    if eq_chars(t.as_slice(), &rustup) {
        Some(Dispatcher { binary: to_string(&rustup), resolve_subcommand: to_string(&which) })
    } else {
        None
    }
}

// ---------------------------------------------------------------------------
// The interpreter behind a Python entry point
// ---------------------------------------------------------------------------

/// How many lines of a wrapper script are searched for its interpreter.
pub const WRAPPER_LINES: usize = 20;

pub open spec fn quotes() -> Seq<char> {
    seq!['"', '\'']
}

/// The last component of a `/`-separated path, as `Path::file_name` gives
/// it: trailing separators and `.` components are passed over, and a path
/// ending in `..` has none.
pub open spec fn file_name_of(p: Seq<char>) -> Option<Seq<char>> {
    last_component(split(p, seq!['/']))
}

pub open spec fn last_component(cs: Seq<Seq<char>>) -> Option<Seq<char>>
    decreases cs.len(),
{
    if cs.len() == 0 {
        None
    } else if cs.last().len() == 0 || cs.last() == seq!['.'] {
        last_component(cs.drop_last())
    } else if cs.last() == seq!['.', '.'] {
        None
    } else {
        Some(cs.last())
    }
}

/// A token naming a Python interpreter by path (quotes around it ignored):
/// it holds a separator and its file name starts with `python`. Whether a
/// file is there is for the caller to see.
pub open spec fn interpreter_token(token: Seq<char>) -> Option<Seq<char>> {
    let t = trim_set(token, quotes());
    if !has_char(t, '/') {
        None
    } else {
        match file_name_of(t) {
            Some(n) => if starts_with(n, "python"@) { Some(t) } else { None },
            None => None,
        }
    }
}

pub open spec fn token_candidates(ws: Seq<Seq<char>>) -> Seq<Seq<char>>
    decreases ws.len(),
{
    if ws.len() == 0 {
        seq![]
    } else {
        let rest = token_candidates(ws.drop_last());
        match interpreter_token(ws.last()) {
            Some(t) => rest.push(t),
            None => rest,
        }
    }
}

pub open spec fn line_candidates(ls: Seq<Seq<char>>) -> Seq<Seq<char>>
    decreases ls.len(),
{
    if ls.len() == 0 {
        seq![]
    } else {
        line_candidates(ls.drop_last()) + token_candidates(words(ls.last()))
    }
}

/// The interpreters a wrapper script's first lines name, in the order they
/// are tried: those on the `#!` line first, then those in the lines after.
/// A script that does not open with `#!` names none.
pub open spec fn interpreter_candidates(head: Seq<Seq<char>>) -> Seq<Seq<char>> {
    let ls = head.take(if head.len() < WRAPPER_LINES { head.len() as int } else { WRAPPER_LINES as int });
    if ls.len() == 0 || !starts_with(ls[0], "#!"@) {
        seq![]
    } else {
        token_candidates(words(trim(ls[0].skip(2)))) + line_candidates(ls.skip(1))
    }
}

pub fn file_name(p: &[char]) -> (r: Option<&[char]>)
    ensures
        match r {
            Some(n) => file_name_of(p@) == Some(n@),
            None => file_name_of(p@) is None,
        },
{
    let sep = ['/'];
    assert(sep@ =~= seq!['/']);
    let comps = split_on(p, &sep);
    let ghost cs = split(p@, seq!['/']);
    let mut n: usize = comps.len();
    assert(cs.take(comps@.len() as int) =~= cs);
    let dot = ['.'];
    let dots = ['.', '.'];
    assert(dot@ =~= seq!['.']);
    assert(dots@ =~= seq!['.', '.']);
    while n > 0
        invariant
            n <= comps@.len(),
            views_as(comps@, cs),
            cs == split(p@, seq!['/']),
            last_component(cs) == last_component(cs.take(n as int)),
            dot@ == seq!['.'],
            dots@ == seq!['.', '.'],
        decreases n,
    {
        let c = comps[n - 1];
        assert(cs.take(n as int).drop_last() =~= cs.take(n - 1));
        assert(cs.take(n as int).last() == c@);
        if c.len() == 0 || eq_chars(c, &dot) {
            n -= 1;
        } else if eq_chars(c, &dots) {
            assert(last_component(cs.take(n as int)) is None);
            return None;
        } else {
            assert(last_component(cs.take(n as int)) == Some(c@));
            return Some(c);
        }
    }
    assert(cs.take(0) =~= Seq::<Seq<char>>::empty());
    None
}

/// The interpreter a token names by path, if any.
pub fn interpreter_in(token: &[char]) -> (r: Option<String>)
    ensures
        match r {
            Some(t) => interpreter_token(token@) == Some(t@),
            None => interpreter_token(token@) is None,
        },
{
    let q = ['"', '\''];
    assert(q@ =~= quotes());
    let t = trim_set_of(token, &q);
    if !contains_char(t, '/') {
        return None;
    }
    match file_name(t) {
        Some(n) => {
            let py = ['p', 'y', 't', 'h', 'o', 'n'];
            proof {
                reveal_strlit("python");
                assert(py@ =~= "python"@);
            }
            if has_prefix(n, &py) {
                Some(to_string(t))
            } else {
                None
            }
        },
        None => None,
    }
}

fn push_candidates(out: &mut Vec<String>, line: &[char])
    ensures
        strs(final(out)@) == strs(old(out)@) + token_candidates(words(line@)),
{
    let ws = split_words(line);
    let ghost w = words(line@);
    let ghost base = strs(out@);
    let mut i: usize = 0;
    while i < ws.len()
        invariant
            i <= ws@.len(),
            views_as(ws@, w),
            strs(out@) == base + token_candidates(w.take(i as int)),
        decreases ws@.len() - i,
    {
        assert(w.take(i + 1).drop_last() =~= w.take(i as int));
        assert(w.take(i + 1).last() == ws@[i as int]@);
        let ghost before = strs(out@);
        match interpreter_in(ws[i]) {
            Some(t) => {
                out.push(t);
                assert(strs(out@) =~= before.push(t@));
            },
            None => {},
        }
        i += 1;
    }
    assert(w.take(w.len() as int) =~= w);
}

/// The interpreters the first lines of a wrapper script name, in the order
/// they are to be tried.
pub fn interpreter_candidates_of(head: &Vec<String>) -> (r: Vec<String>)
    ensures
        strs(r@) == interpreter_candidates(strs(head@)),
{
    let mut out: Vec<String> = Vec::new();
    let ghost h = strs(head@);
    let n: usize = if head.len() < WRAPPER_LINES { head.len() } else { WRAPPER_LINES };
    let ghost ls = h.take(n as int);
    if n == 0 {
        assert(strs(out@) =~= interpreter_candidates(h));
        return out;
    }
    let first = chars_of(head[0].as_str());
    let bang = ['#', '!'];
    proof {
        reveal_strlit("#!");
        assert(bang@ =~= "#!"@);
        assert(ls[0] == first@);
    }
    if !has_prefix(first.as_slice(), &bang) {
        assert(strs(out@) =~= interpreter_candidates(h));
        return out;
    }
    let rest = vstd::slice::slice_subrange(first.as_slice(), 2, first.len());
    let shebang = trim_of(rest);
    assert(rest@ =~= first@.skip(2));
    push_candidates(&mut out, shebang);
    let mut i: usize = 1;
    while i < n
        invariant
            1 <= i <= n,
            n <= head@.len(),
            h == strs(head@),
            ls == h.take(n as int),
            strs(out@) == token_candidates(words(trim(ls[0].skip(2)))) + line_candidates(ls.skip(1).take(i - 1)),
        decreases n - i,
    {
        let line = chars_of(head[i].as_str());
        let ghost before = strs(out@);
        proof {
            assert(ls.skip(1).take(i as int).drop_last() =~= ls.skip(1).take(i - 1));
            assert(ls.skip(1).take(i as int).last() == line@);
        }
        push_candidates(&mut out, line.as_slice());
        assert(strs(out@) =~= before + token_candidates(words(line@)));
        i += 1;
    }
    assert(ls.skip(1).take(n - 1) =~= ls.skip(1));
    out
}

} // verus!

verus! {

/// A Go program that lists `github.com/spf13/cobra` among its modules, at
/// any place in the list, is read as a Cobra program, whatever else is known
/// of it.
pub proof fn lemma_cobra_anywhere_in_deps(deps: Seq<GoDep>, i: int, clap_found: bool, python: Option<InputFormat>)
    requires
        0 <= i < deps.len(),
        deps[i].path@ == "github.com/spf13/cobra"@,
    ensures
        format_of(Some(deps), clap_found, python) == Some(InputFormat::CobraHelptext),
{
    assert(has_cobra(deps));
}

/// The order of a program's module list does not change the format read
/// from it: two lists with the same modules give the same answer.
pub proof fn lemma_deps_order_free(a: Seq<GoDep>, b: Seq<GoDep>, clap_found: bool, python: Option<InputFormat>)
    requires
        a.to_multiset() == b.to_multiset(),
    ensures
        format_of(Some(a), clap_found, python) == format_of(Some(b), clap_found, python),
{
    if has_cobra(a) {
        let i = choose|i: int| 0 <= i < a.len() && #[trigger] a[i].path@ == cobra_module();
        vstd::seq_lib::to_multiset_contains(a, a[i]);
        vstd::seq_lib::to_multiset_contains(b, a[i]);
        assert(a.contains(a[i]));
        let j = choose|j: int| 0 <= j < b.len() && b[j] == a[i];
        assert(b[j].path@ == cobra_module());
    }
    if has_cobra(b) {
        let i = choose|i: int| 0 <= i < b.len() && #[trigger] b[i].path@ == cobra_module();
        vstd::seq_lib::to_multiset_contains(b, b[i]);
        vstd::seq_lib::to_multiset_contains(a, b[i]);
        assert(b.contains(b[i]));
        let j = choose|j: int| 0 <= j < a.len() && a[j] == b[i];
        assert(a[j].path@ == cobra_module());
    }
}

} // verus!
