//! What the browser shows, decided apart from how it is drawn: the glyph of
//! each row, the key hints of the footer, which columns are in view, and
//! where the pinned mise entries end.

use vstd::prelude::*;
use crate::node::{NodeKind, strs};
use crate::text::{chars_of, eq_chars, find_char_at, push_str, to_string};

verus! {

/// How many columns are in view: some context on the left, the active
/// column, and the preview on the right.
pub const MAX_VISIBLE_COLUMNS: usize = 3;

/// A row's glyph.
#[derive(Clone, Copy, PartialEq, Eq, Structural, Debug)]
pub enum Icon {
    /// A command that is also a group (`◆`).
    RunnableBranch,
    /// A group (`▸`).
    Branch,
    /// A command (`•`).
    RunnableLeaf,
    /// A leaf with nothing to run, most often a tool whose help could not be
    /// read (a dim `•`).
    DeadLeaf,
    /// Not read yet (`·`).
    Unknown,
}

pub fn icon_of(kind: NodeKind, runnable: bool) -> (r: Icon)
    ensures
        r == (match kind {
            NodeKind::Branch => if runnable { Icon::RunnableBranch } else { Icon::Branch },
            NodeKind::Leaf => if runnable { Icon::RunnableLeaf } else { Icon::DeadLeaf },
            NodeKind::Unknown => Icon::Unknown,
        }),
{
    match kind {
        NodeKind::Branch => if runnable { Icon::RunnableBranch } else { Icon::Branch },
        NodeKind::Leaf => if runnable { Icon::RunnableLeaf } else { Icon::DeadLeaf },
        NodeKind::Unknown => Icon::Unknown,
    }
}

pub fn icon_glyph(icon: Icon) -> (r: char)
    ensures
        r == (match icon {
            Icon::RunnableBranch => '◆',
            Icon::Branch => '▸',
            Icon::RunnableLeaf => '•',
            Icon::DeadLeaf => '•',
            Icon::Unknown => '·',
        }),
{
    match icon {
        Icon::RunnableBranch => '◆',
        Icon::Branch => '▸',
        Icon::RunnableLeaf => '•',
        Icon::DeadLeaf => '•',
        Icon::Unknown => '·',
    }
}

/// A key hint: the key, then what it does.
pub struct Hint {
    pub key: String,
    pub label: String,
}

pub open spec fn hint_v(h: Hint) -> (Seq<char>, Seq<char>) {
    (h.key@, h.label@)
}

/// The footer's hints: open (and run, for a group that is also a command)
/// or run, then back, then clearing the filter while one is typed, or search
/// and quit otherwise.
pub open spec fn footer_of(expandable: bool, runnable: bool, filtering: bool) -> Seq<(Seq<char>, Seq<char>)> {
    let first: Seq<(Seq<char>, Seq<char>)> = if expandable {
        if runnable { seq![("→/↵"@, " open"@), ("r"@, " run"@)] } else { seq![("→/↵"@, " open"@)] }
    } else if runnable {
        seq![("↵"@, " run"@)]
    } else {
        seq![]
    };
    let last: Seq<(Seq<char>, Seq<char>)> = if filtering {
        seq![("esc"@, " clear filter"@)]
    } else {
        seq![("/"@, " search"@), ("q"@, " quit"@)]
    };
    first + seq![("←"@, " back"@)] + last
}

fn hint(key: &str, label: &str) -> (r: Hint)
    ensures
        r.key@ == key@,
        r.label@ == label@,
{
    Hint { key: to_string(chars_of(key).as_slice()), label: to_string(chars_of(label).as_slice()) }
}

pub fn footer_hints(expandable: bool, runnable: bool, filtering: bool) -> (r: Vec<Hint>)
    ensures
        r@.map_values(|h: Hint| hint_v(h)) == footer_of(expandable, runnable, filtering),
{
    let mut out: Vec<Hint> = Vec::new();
    if expandable {
        out.push(hint("→/↵", " open"));
        if runnable {
            out.push(hint("r", " run"));
        }
    } else if runnable {
        out.push(hint("↵", " run"));
    }
    out.push(hint("←", " back"));
    if filtering {
        out.push(hint("esc", " clear filter"));
    } else {
        out.push(hint("/", " search"));
        out.push(hint("q", " quit"));
    }
    assert(out@.map_values(|h: Hint| hint_v(h)) =~= footer_of(expandable, runnable, filtering));
    out
}

/// How much of a load error the footer shows: its first line, cut to sixty
/// characters, after a warning sign.
pub open spec fn error_hint_of(error: Seq<char>) -> Seq<char> {
    let nl = crate::text::find_char_from(error, '\n', 0);
    let first = if 0 <= nl < error.len() { error.take(nl) } else { error };
    let first = if first.len() > 0 && first.last() == '\r' { first.drop_last() } else { first };
    "⚠ "@ + first.take(if first.len() < 60 { first.len() as int } else { 60 })
}

pub fn error_hint(error: &str) -> (r: String)
    ensures
        r@ == error_hint_of(error@),
{
    let e = chars_of(error);
    let end = match find_char_at(e.as_slice(), '\n', 0) {
        Some(i) => i,
        None => e.len(),
    };
    proof {
        crate::text::lemma_find_char_from_range(e@, '\n', 0);
    }
    let mut first = vstd::slice::slice_subrange(e.as_slice(), 0, end);
    if first.len() > 0 && first[first.len() - 1] == '\r' {
        first = vstd::slice::slice_subrange(first, 0, first.len() - 1);
    }
    let n = if first.len() < 60 { first.len() } else { 60 };
    let shown = vstd::slice::slice_subrange(first, 0, n);
    let mut out = String::new();
    push_str(&mut out, "⚠ ");
    crate::text::push_chars(&mut out, shown);
    out
}

pub open spec fn pinned_count(ids: Seq<Seq<char>>, n: int) -> int
    decreases n,
{
    if n <= 0 {
        0
    } else if pinned_count(ids, n - 1) == n - 1 && (ids[n - 1] == "mise_tasks"@ || ids[n - 1] == "mise"@) {
        n
    } else {
        pinned_count(ids, n - 1)
    }
}

/// The row after which the root column draws a rule: the last of the pinned
/// mise entries (its tasks, then mise itself) at the top, when tools follow.
pub open spec fn root_separator_of(ids: Seq<Seq<char>>) -> Option<int> {
    let p = pinned_count(ids, ids.len() as int);
    if p > 0 && ids.len() > p { Some(p - 1) } else { None }
}

pub fn root_separator_after(ids: &Vec<String>) -> (r: Option<usize>)
    ensures
        match r {
            Some(i) => root_separator_of(strs(ids@)) == Some(i as int),
            None => root_separator_of(strs(ids@)) is None,
        },
{
    let ghost v = strs(ids@);
    let mut p: usize = 0;
    while p < ids.len() && is_pinned(&ids[p])
        invariant
            p <= ids@.len(),
            v == strs(ids@),
            pinned_count(v, p as int) == p,
        decreases ids@.len() - p,
    {
        p += 1;
    }
    proof {
        lemma_pinned_stops(v, p as int, v.len() as int);
    }
    if p > 0 && ids.len() > p { Some(p - 1) } else { None }
}

fn is_pinned(id: &String) -> (r: bool)
    ensures
        r == (id@ == "mise_tasks"@ || id@ == "mise"@),
{
    let c = chars_of(id.as_str());
    let tasks = chars_of("mise_tasks");
    let mise = chars_of("mise");
    eq_chars(c.as_slice(), tasks.as_slice()) || eq_chars(c.as_slice(), mise.as_slice())
}

proof fn lemma_pinned_stops(ids: Seq<Seq<char>>, p: int, n: int)
    requires
        0 <= p <= n <= ids.len(),
        pinned_count(ids, p) == p,
        p < n ==> !(ids[p] == "mise_tasks"@ || ids[p] == "mise"@),
    ensures
        pinned_count(ids, n) == p,
    decreases n - p,
{
    if p < n {
        lemma_pinned_stops(ids, p, n - 1);
        if n - 1 == p {
        } else {
            lemma_pinned_le(ids, n - 1);
        }
    }
}

proof fn lemma_pinned_le(ids: Seq<Seq<char>>, n: int)
    requires
        0 <= n,
    ensures
        pinned_count(ids, n) <= n,
    decreases n,
{
    if n > 0 {
        lemma_pinned_le(ids, n - 1);
    }
}

/// The first depth in view when the active column is at `active`; the
/// preview at `active + 1` is the last.
pub fn first_visible_depth(active: usize) -> (r: usize)
    ensures
        r == (if active >= MAX_VISIBLE_COLUMNS - 2 { active - (MAX_VISIBLE_COLUMNS - 2) } else { 0 }),
{
    active.saturating_sub(MAX_VISIBLE_COLUMNS - 2)
}

/// The highlighted row once a rule is drawn after row `after`: rows below it
/// move down one.
pub fn row_with_rule(selected: Option<usize>, after: Option<usize>) -> (r: Option<usize>)
    requires
        selected matches Some(s) ==> s < usize::MAX,
    ensures
        r == (match selected {
            Some(s) => match after {
                Some(a) => if s > a { Some((s + 1) as usize) } else { Some(s) },
                None => Some(s),
            },
            None => None::<usize>,
        }),
{
    match selected {
        Some(s) => match after {
            Some(a) => if s > a { Some(s + 1) } else { Some(s) },
            None => Some(s),
        },
        None => None,
    }
}

/// The heading of a level's parameters in a preview: the level's name, or
/// "Parameters" for the command's own.
pub fn param_heading(label: &str) -> (r: String)
    ensures
        r@ == (if label@.len() == 0 { "Parameters"@ } else { label@ }),
{
    if label.is_empty() {
        to_string(chars_of("Parameters").as_slice())
    } else {
        to_string(chars_of(label).as_slice())
    }
}

} // verus!
