//! Miller-columns navigation: the file-explorer column view applied to a CLI
//! command tree. The item selected in each column shows its children in the
//! column to its right; descending moves the focus right, ascending back.
//! Children load lazily, and the focused item is loaded one level ahead so
//! its expandability is known before it is acted on.

use vstd::prelude::*;
use vstd::multiset::Multiset;
use crate::env_params::{EnvSource, NullEnv};
use crate::loader::{LoadOutcome, LoadRequest, Loader, Priority, outcome_ids};
use crate::memory::{FormMemory, NullFormMemory};
use crate::node::{
    Children, ChildrenV, Node, NodeKind, NodeV, copy_strings, expandable, lemma_nodes_view,
    node_view, nodes_view, strs,
};
use crate::source::{Loaded, Source};
use crate::text::{
    chars_of, contains, contains_in, eq_chars, lemma_text_le_total, lemma_text_le_trans,
    text_le, text_le_exec, to_lowercase, unicode_lower,
};

verus! {

/// How a tool is run: its binary argv and the separator of its command path.
pub struct ToolMeta {
    pub bin: Vec<String>,
    pub separator: String,
}

pub struct MillerView<L: Loader, M: FormMemory, E: EnvSource> {
    roots: Vec<Node>,
    /// Selection index at each visited depth; `path[0]` indexes `roots`.
    path: Vec<usize>,
    tool_meta: Vec<(String, ToolMeta)>,
    loader: L,
    /// In-flight loads with the priority they were requested at.
    pending: Vec<(String, Priority)>,
    spinner: usize,
    error: Option<String>,
    /// Type-ahead filter on the active column (`None`: not filtering).
    filter: Option<String>,
    memory: M,
    env: E,
}

// ---------------------------------------------------------------------------
// The columns as mathematical values
// ---------------------------------------------------------------------------

/// The nodes of the column at depth `d`: the children of the node selected at
/// `d - 1`, or nothing where those are not loaded (or the selection is off
/// the column).
pub open spec fn column_at(roots: Seq<NodeV>, path: Seq<usize>, d: nat) -> Seq<NodeV>
    decreases d,
{
    if d == 0 {
        roots
    } else {
        let prev = column_at(roots, path, (d - 1) as nat);
        let idx: int = if d - 1 < path.len() { path[d - 1] as int } else { 0 };
        if 0 <= idx < prev.len() {
            match prev[idx].children {
                ChildrenV::Loaded(c) => c,
                _ => seq![],
            }
        } else {
            seq![]
        }
    }
}

/// The depth of the active column.
pub open spec fn active_depth_of(path: Seq<usize>) -> nat {
    if path.len() > 0 { (path.len() - 1) as nat } else { 0 }
}

/// The focused node: the one selected in the active column.
pub open spec fn focus_of(roots: Seq<NodeV>, path: Seq<usize>) -> Option<NodeV> {
    let d = active_depth_of(path);
    let col = column_at(roots, path, d);
    if d < path.len() && path[d as int] < col.len() {
        Some(col[path[d as int] as int])
    } else {
        None
    }
}

pub open spec fn pending_ids(p: Seq<(String, Priority)>) -> Seq<Seq<char>> {
    p.map_values(|e: (String, Priority)| e.0@)
}

/// No node is pending twice.
pub open spec fn unique_ids(ids: Seq<Seq<char>>) -> bool {
    forall|i: int, j: int| 0 <= i < j < ids.len() ==> ids[i] != ids[j]
}

pub open spec fn names_of(nodes: Seq<NodeV>) -> Seq<Seq<char>> {
    nodes.map_values(|n: NodeV| n.name)
}

pub open spec fn count_unknown(nodes: Seq<NodeV>) -> nat
    decreases nodes.len(),
{
    if nodes.len() == 0 {
        0
    } else {
        count_unknown(nodes.drop_last()) + if nodes.last().kind == NodeKind::Unknown { 1nat } else { 0nat }
    }
}

proof fn lemma_column_empty(roots: Seq<NodeV>, path: Seq<usize>, k: nat, m: nat)
    requires
        k <= m,
        column_at(roots, path, k).len() == 0,
    ensures
        column_at(roots, path, m).len() == 0,
    decreases m - k,
{
    if k < m {
        lemma_column_empty(roots, path, k, (m - 1) as nat);
    }
}

impl<L: Loader, M: FormMemory, E: EnvSource> MillerView<L, M, E> {
    pub closed spec fn roots_view(&self) -> Seq<NodeV> {
        nodes_view(self.roots@)
    }

    pub closed spec fn path_view(&self) -> Seq<usize> {
        self.path@
    }

    pub closed spec fn pending_view(&self) -> Seq<Seq<char>> {
        pending_ids(self.pending@)
    }

    pub closed spec fn filter_view(&self) -> Option<Seq<char>> {
        match self.filter {
            Some(f) => Some(f@),
            None => None,
        }
    }

    pub closed spec fn error_view(&self) -> Option<Seq<char>> {
        match self.error {
            Some(e) => Some(e@),
            None => None,
        }
    }

    /// The view's invariant: no node is pending twice, and the tools stay in
    /// their column order (mise's tasks first, then mise, then the rest by
    /// name).
    pub closed spec fn wf(&self) -> bool {
        &&& self.core_wf()
        &&& self.loads_tracked()
    }

    closed spec fn core_wf(&self) -> bool {
        &&& unique_ids(pending_ids(self.pending@))
        &&& sorted_roots(self.roots_view())
    }

    /// With a loader that answers at once, every load in flight is one the
    /// loader still holds.
    closed spec fn loads_tracked(&self) -> bool {
        self.loader.answers_at_once() ==> self.pending_map().dom().subset_of(self.loader.queued().to_set())
    }

    /// Whether the view's loader answers every request on its next poll.
    pub closed spec fn answers_at_once(&self) -> bool {
        self.loader.answers_at_once()
    }

    /// Whatever keys and loads a well-formed view has seen, its tools
    /// column is in order: mise's tasks first, then mise itself, then the
    /// other tools by lower-cased name.
    pub proof fn lemma_tools_in_order(&self)
        requires
            self.wf(),
        ensures
            sorted_roots(self.roots_view()),
    {
    }

    pub closed spec fn spinner_view(&self) -> usize {
        self.spinner
    }

    pub open spec fn focus(&self) -> Option<NodeV> {
        focus_of(self.roots_view(), self.path_view())
    }

    pub open spec fn column(&self, d: nat) -> Seq<NodeV> {
        column_at(self.roots_view(), self.path_view(), d)
    }

    fn active_depth(&self) -> (r: usize)
        ensures
            r == active_depth_of(self.path_view()),
    {
        if self.path.len() > 0 {
            self.path.len() - 1
        } else {
            0
        }
    }

    /// The nodes shown in the column at `depth`.
    pub fn column_nodes(&self, depth: usize) -> (r: &[Node])
        ensures
            nodes_view(r@) == self.column(depth as nat),
    {
        let mut nodes: &[Node] = self.roots.as_slice();
        let mut d: usize = 0;
        while d < depth
            invariant
                d <= depth,
                nodes_view(nodes@) == column_at(self.roots_view(), self.path_view(), d as nat),
            decreases depth - d,
        {
            let idx: usize = if d < self.path.len() { self.path[d] } else { 0 };
            proof {
                lemma_nodes_view(nodes@);
            }
            if idx < nodes.len() {
                match &nodes[idx].children {
                    Children::Loaded(c) => {
                        nodes = c.as_slice();
                    },
                    _ => {
                        proof {
                            lemma_column_empty(self.roots_view(), self.path_view(), (d + 1) as nat, depth as nat);
                        }
                        return &[];
                    },
                }
            } else {
                proof {
                    lemma_column_empty(self.roots_view(), self.path_view(), (d + 1) as nat, depth as nat);
                }
                return &[];
            }
            d += 1;
        }
        nodes
    }

    fn focused(&self) -> (r: Option<&Node>)
        ensures
            match r {
                Some(n) => self.focus() == Some(node_view(*n)),
                None => self.focus() is None,
            },
    {
        let depth = self.active_depth();
        if depth >= self.path.len() {
            return None;
        }
        let idx = self.path[depth];
        let col = self.column_nodes(depth);
        proof {
            lemma_nodes_view(col@);
        }
        if idx < col.len() {
            Some(&col[idx])
        } else {
            None
        }
    }

    // --- queries -----------------------------------------------------------

    /// The selected position in each open column, the first column first.
    pub fn selection(&self) -> (r: &Vec<usize>)
        ensures
            r@ == self.path_view(),
    {
        &self.path
    }

    /// The type-ahead filter, while one is being typed.
    pub fn filter_text(&self) -> (r: Option<&String>)
        ensures
            match r {
                Some(f) => self.filter_view() == Some(f@),
                None => self.filter_view() is None,
            },
    {
        match &self.filter {
            Some(f) => Some(f),
            None => None,
        }
    }

    /// The last load error, if one is shown.
    pub fn error_message(&self) -> (r: Option<&String>)
        ensures
            match r {
                Some(e) => self.error_view() == Some(e@),
                None => self.error_view() is None,
            },
    {
        match &self.error {
            Some(e) => Some(e),
            None => None,
        }
    }

    /// How far the loading spinner has turned.
    pub fn spinner_frame(&self) -> (r: usize)
        ensures
            r == self.spinner_view(),
    {
        self.spinner
    }

    /// The name of the focused node.
    pub fn focused_command(&self) -> (r: Option<&str>)
        ensures
            match r {
                Some(s) => self.focus() matches Some(n) && s@ == n.name,
                None => self.focus() is None,
            },
    {
        match self.focused() {
            Some(n) => Some(n.name.as_str()),
            None => None,
        }
    }

    /// The names of the tools, in column order.
    pub fn root_names(&self) -> (r: Vec<String>)
        ensures
            strs(r@) == names_of(self.roots_view()),
    {
        proof {
            lemma_nodes_view(self.roots@);
        }
        let mut out: Vec<String> = Vec::new();
        let mut i: usize = 0;
        while i < self.roots.len()
            invariant
                i <= self.roots@.len(),
                nodes_view(self.roots@).len() == self.roots@.len(),
                forall|k: int| 0 <= k < self.roots@.len() ==> #[trigger] nodes_view(self.roots@)[k] == node_view(self.roots@[k]),
                strs(out@) == names_of(self.roots_view().take(i as int)),
            decreases self.roots@.len() - i,
        {
            let ghost before = out@;
            out.push(self.roots[i].name.clone());
            proof {
                let rv = nodes_view(self.roots@);
                assert(rv[i as int] == node_view(self.roots@[i as int]));
                assert(strs(out@) =~= strs(before).push(self.roots@[i as int].name@));
                assert(rv.take(i + 1) =~= rv.take(i as int).push(rv[i as int]));
                assert(names_of(rv.take(i + 1)) =~= names_of(rv.take(i as int)).push(rv[i as int].name));
            }
            assert(strs(out@) =~= names_of(self.roots_view().take(i + 1)));
            i += 1;
        }
        assert(self.roots_view().take(self.roots@.len() as int) =~= self.roots_view());
        out
    }

    /// How many loads are in flight.
    pub fn pending_loads(&self) -> (r: usize)
        ensures
            r == self.pending_view().len(),
    {
        self.pending.len()
    }

    /// Whether the focused node's children have loaded.
    pub fn focused_loaded(&self) -> (r: bool)
        ensures
            r == (self.focus() matches Some(n) && n.children is Loaded),
    {
        match self.focused() {
            Some(n) => match n.children {
                Children::Loaded(_) => true,
                _ => false,
            },
            None => false,
        }
    }

    /// The focused node's description.
    pub fn focused_description(&self) -> (r: Option<String>)
        ensures
            match r {
                Some(s) => self.focus() matches Some(n) && s@ == n.description,
                None => self.focus() is None,
            },
    {
        match self.focused() {
            Some(n) => Some(n.description.clone()),
            None => None,
        }
    }

    /// The depth of the active column.
    pub fn depth(&self) -> (r: usize)
        ensures
            r == active_depth_of(self.path_view()),
    {
        self.active_depth()
    }

    /// Whether the focused node can be run.
    pub fn focused_runnable(&self) -> (r: bool)
        ensures
            r == (self.focus() matches Some(n) && n.runnable),
    {
        match self.focused() {
            Some(n) => n.runnable,
            None => false,
        }
    }

    /// Whether the focused node can be descended into.
    pub fn focused_expandable(&self) -> (r: bool)
        ensures
            r == (self.focus() matches Some(n) && expandable(n.kind)),
    {
        match self.focused() {
            Some(n) => n.is_expandable(),
            None => false,
        }
    }

    fn count_unknown_in(nodes: &[Node]) -> (r: usize)
        ensures
            r == count_unknown(nodes_view(nodes@)),
    {
        proof {
            lemma_nodes_view(nodes@);
        }
        let mut c: usize = 0;
        let mut i: usize = 0;
        while i < nodes.len()
            invariant
                i <= nodes@.len(),
                c <= i,
                nodes_view(nodes@).len() == nodes@.len(),
                forall|k: int| 0 <= k < nodes@.len() ==> #[trigger] nodes_view(nodes@)[k] == node_view(nodes@[k]),
                c == count_unknown(nodes_view(nodes@).take(i as int)),
            decreases nodes@.len() - i,
        {
            assert(nodes_view(nodes@).take(i + 1).drop_last() =~= nodes_view(nodes@).take(i as int));
            if nodes[i].kind == NodeKind::Unknown {
                c += 1;
            }
            i += 1;
        }
        assert(nodes_view(nodes@).take(nodes@.len() as int) =~= nodes_view(nodes@));
        c
    }

    /// How many items in the active column and the one after it still have
    /// unknown expandability.
    pub fn unresolved_visible(&self) -> (r: usize)
        requires
            count_unknown(self.column(active_depth_of(self.path_view())))
                + count_unknown(self.column(active_depth_of(self.path_view()) + 1)) <= usize::MAX,
        ensures
            r == count_unknown(self.column(active_depth_of(self.path_view())))
                + count_unknown(self.column(active_depth_of(self.path_view()) + 1)),
    {
        let n = self.path.len();
        let active = if n > 0 { n - 1 } else { 0 };
        let a = Self::count_unknown_in(self.column_nodes(active));
        let b = Self::count_unknown_in(self.column_nodes(active + 1));
        a + b
    }
}

} // verus!

verus! {

// ---------------------------------------------------------------------------
// Folding load results into the tree
// ---------------------------------------------------------------------------

pub struct LoadedV {
    pub description: Seq<char>,
    pub runnable: bool,
    pub flags: Seq<crate::node::FlagNV>,
    pub args: Seq<crate::node::ArgNV>,
    pub children: Seq<NodeV>,
}

pub open spec fn loaded_view(l: Loaded) -> LoadedV {
    LoadedV {
        description: l.description@,
        runnable: l.runnable,
        flags: crate::node::flag_views(l.flags@),
        args: crate::node::arg_views(l.args@),
        children: nodes_view(l.children@),
    }
}

/// What is done to the node a load concerns.
pub enum Update {
    /// Its load finished with this result.
    Outcome(Result<Loaded, String>),
    /// Its load went out; show it as loading.
    MarkLoading,
}

pub enum UpdateV {
    Outcome(Result<LoadedV, Seq<char>>),
    MarkLoading,
}

pub open spec fn update_view(u: Update) -> UpdateV {
    match u {
        Update::Outcome(Ok(l)) => UpdateV::Outcome(Ok(loaded_view(l))),
        Update::Outcome(Err(e)) => UpdateV::Outcome(Err(e@)),
        Update::MarkLoading => UpdateV::MarkLoading,
    }
}

/// A node after an update. A loaded node with children is a branch and one
/// without is a leaf; its own help says whether it is runnable, and an empty
/// description leaves the one it had. A failed load leaves it with no
/// children, and an unknown node becomes a leaf.
pub open spec fn applied(n: NodeV, u: UpdateV) -> NodeV {
    match u {
        UpdateV::Outcome(Ok(l)) => NodeV {
            description: if l.description.len() > 0 { l.description } else { n.description },
            flags: l.flags,
            args: l.args,
            kind: if l.children.len() == 0 { NodeKind::Leaf } else { NodeKind::Branch },
            runnable: l.runnable,
            children: ChildrenV::Loaded(l.children),
            ..n
        },
        UpdateV::Outcome(Err(_)) => NodeV {
            children: ChildrenV::Loaded(seq![]),
            kind: if n.kind == NodeKind::Unknown { NodeKind::Leaf } else { n.kind },
            ..n
        },
        UpdateV::MarkLoading => NodeV { children: ChildrenV::Loading, ..n },
    }
}

/// The forest with the update made to the first node, in depth-first order,
/// whose id is `id`; `None` when no node has it.
pub open spec fn tree_update(nodes: Seq<NodeV>, id: Seq<char>, u: UpdateV) -> Option<Seq<NodeV>>
    decreases nodes,
{
    if nodes.len() == 0 {
        None
    } else {
        let n = nodes[0];
        if n.id == id {
            Some(seq![applied(n, u)] + nodes.skip(1))
        } else {
            let below = match n.children {
                ChildrenV::Loaded(c) => tree_update(c, id, u),
                _ => None,
            };
            match below {
                Some(c2) => Some(seq![NodeV { children: ChildrenV::Loaded(c2), ..n }] + nodes.skip(1)),
                None => match tree_update(nodes.skip(1), id, u) {
                    Some(rest) => Some(seq![n] + rest),
                    None => None,
                },
            }
        }
    }
}

proof fn lemma_tree_update_len(nodes: Seq<NodeV>, id: Seq<char>, u: UpdateV)
    ensures
        tree_update(nodes, id, u) matches Some(t) ==> t.len() == nodes.len(),
    decreases nodes,
{
    if nodes.len() > 0 {
        lemma_tree_update_len(nodes.skip(1), id, u);
    }
}

/// Two forests whose top-level nodes, position by position, belong to the
/// same tools under the same names.
pub open spec fn same_top(a: Seq<NodeV>, b: Seq<NodeV>) -> bool {
    a.len() == b.len() && forall|k: int| 0 <= k < a.len() ==> #[trigger] b[k].tool_id == a[k].tool_id && b[k].name == a[k].name
}

proof fn lemma_tree_update_top(nodes: Seq<NodeV>, id: Seq<char>, u: UpdateV)
    ensures
        tree_update(nodes, id, u) matches Some(t) ==> same_top(nodes, t),
    decreases nodes,
{
    if nodes.len() > 0 {
        let n = nodes[0];
        let rest = nodes.skip(1);
        lemma_tree_update_top(rest, id, u);
        lemma_tree_update_len(nodes, id, u);
        let below = match n.children {
            ChildrenV::Loaded(c) => tree_update(c, id, u),
            _ => None,
        };
        if let Some(t) = tree_update(nodes, id, u) {
            let head = if n.id == id {
                applied(n, u)
            } else if below is Some {
                NodeV { children: ChildrenV::Loaded(below->0), ..n }
            } else {
                n
            };
            assert(head.tool_id == n.tool_id && head.name == n.name);
            if n.id == id || below is Some {
                assert(t == seq![head] + rest);
            } else {
                assert(t == seq![n] + tree_update(rest, id, u)->0);
            }
            assert forall|k: int| 0 <= k < nodes.len() implies #[trigger] t[k].tool_id == nodes[k].tool_id && t[k].name == nodes[k].name by {
                if k > 0 {
                    assert(rest[k - 1] == nodes[k]);
                }
            }
        }
    }
}

proof fn lemma_same_top_trans(a: Seq<NodeV>, b: Seq<NodeV>, c: Seq<NodeV>)
    requires
        same_top(a, b),
        same_top(b, c),
    ensures
        same_top(a, c),
{
    assert forall|k: int| 0 <= k < a.len() implies #[trigger] c[k].tool_id == a[k].tool_id && c[k].name == a[k].name by {
        let x = b[k].tool_id;
        let y = c[k].tool_id;
        assert(x == a[k].tool_id && b[k].name == a[k].name);
        assert(y == x && c[k].name == b[k].name);
    }
}

proof fn lemma_updated_top(nodes: Seq<NodeV>, id: Seq<char>, u: UpdateV)
    ensures
        same_top(nodes, updated_or_same(nodes, id, u)),
{
    lemma_tree_update_top(nodes, id, u);
}

proof fn lemma_folded_top(r: Seq<NodeV>, outs: Seq<(Seq<char>, UpdateV)>)
    ensures
        same_top(r, folded(r, outs)),
    decreases outs.len(),
{
    if outs.len() > 0 {
        lemma_folded_top(r, outs.drop_last());
        let f = folded(r, outs.drop_last());
        lemma_updated_top(f, outs.last().0, outs.last().1);
        lemma_same_top_trans(r, f, folded(r, outs));
    }
}

/// A focused load started: the tools column keeps its tools and names.
proof fn lemma_focus_step_top(a: Seq<NodeV>, b: Seq<NodeV>, id: Seq<char>)
    requires
        b == a || b == updated_or_same(a, id, UpdateV::MarkLoading)
            || exists|u: UpdateV| #![trigger updated_or_same(a, id, u)] u is Outcome && b == updated_or_same(a, id, u),
    ensures
        same_top(a, b),
{
    if b == updated_or_same(a, id, UpdateV::MarkLoading) {
        lemma_updated_top(a, id, UpdateV::MarkLoading);
    } else if b != a {
        let u = choose|u: UpdateV| #![trigger updated_or_same(a, id, u)] u is Outcome && b == updated_or_same(a, id, u);
        lemma_updated_top(a, id, u);
    }
}

/// `i` is the first position of `col` holding a node named `name`.
pub open spec fn first_named_at(col: Seq<NodeV>, name: Seq<char>, i: int) -> bool {
    0 <= i < col.len() && col[i].name == name && forall|k: int| 0 <= k < i ==> #[trigger] col[k].name != name
}

proof fn lemma_same_top_sorted(a: Seq<NodeV>, b: Seq<NodeV>)
    requires
        same_top(a, b),
        sorted_roots(a),
    ensures
        sorted_roots(b),
{
    assert forall|i: int, j: int| 0 <= i < j < b.len() implies key_le(root_key(b[i]), root_key(b[j])) by {
        assert(root_key(b[i]) == root_key(a[i]));
        assert(root_key(b[j]) == root_key(a[j]));
    }
}

proof fn lemma_update_keeps_sorted(nodes: Seq<NodeV>, id: Seq<char>, u: UpdateV)
    requires
        sorted_roots(nodes),
    ensures
        sorted_roots(updated_or_same(nodes, id, u)),
{
    lemma_tree_update_top(nodes, id, u);
    match tree_update(nodes, id, u) {
        Some(t) => lemma_same_top_sorted(nodes, t),
        None => {},
    }
}

pub open spec fn lifted(prefix: Seq<NodeV>, o: Option<Seq<NodeV>>) -> Option<Seq<NodeV>> {
    match o {
        Some(t) => Some(prefix + t),
        None => None,
    }
}

pub open spec fn error_of(u: UpdateV) -> Option<Seq<char>> {
    match u {
        UpdateV::Outcome(Err(e)) => Some(e),
        _ => None,
    }
}

fn apply_update(n: &mut Node, u: Update) -> (r: Option<String>)
    ensures
        node_view(*final(n)) == applied(node_view(*old(n)), update_view(u)),
        match r {
            Some(e) => error_of(update_view(u)) == Some(e@),
            None => error_of(update_view(u)) is None,
        },
{
    match u {
        Update::Outcome(Ok(loaded)) => {
            let Loaded { description, runnable, flags, args, children } = loaded;
            if !description.as_str().is_empty() {
                n.description = description;
            }
            n.flags = flags;
            n.args = args;
            n.kind = if children.len() == 0 { NodeKind::Leaf } else { NodeKind::Branch };
            n.runnable = runnable;
            proof {
                lemma_nodes_view(children@);
            }
            n.children = Children::Loaded(children);
            None
        },
        Update::Outcome(Err(e)) => {
            n.children = Children::Loaded(Vec::new());
            if n.kind == NodeKind::Unknown {
                n.kind = NodeKind::Leaf;
            }
            proof {
                assert(nodes_view(Seq::<Node>::empty()) =~= Seq::<NodeV>::empty());
            }
            Some(e)
        },
        Update::MarkLoading => {
            n.children = Children::Loading;
            None
        },
    }
}

/// Make `u` to the first node of `nodes`, depth first, whose id is `id`.
/// `Ok` carries the error a failed load reports; `Err` hands `u` back when no
/// node has the id.
fn update_first(nodes: &mut Vec<Node>, id: &[char], u0: Update) -> (r: Result<Option<String>, Update>)
    ensures
        match tree_update(nodes_view(old(nodes)@), id@, update_view(u0)) {
            Some(t) => nodes_view(final(nodes)@) == t && (r matches Ok(e) && match e {
                Some(m) => error_of(update_view(u0)) == Some(m@),
                None => error_of(update_view(u0)) is None,
            }),
            None => nodes_view(final(nodes)@) == nodes_view(old(nodes)@) && (r matches Err(u2)
                && update_view(u2) == update_view(u0)),
        },
    decreases nodes_view(old(nodes)@),
{
    let ghost orig = nodes_view(nodes@);
    let ghost uv = update_view(u0);
    let ghost onodes = nodes@;
    proof {
        lemma_nodes_view(nodes@);
        assert(orig.skip(0) =~= orig);
        assert(orig.take(0) + orig =~= orig);
    }
    let mut u = u0;
    let mut i: usize = 0;
    while i < nodes.len()
        invariant
            i <= nodes@.len(),
            nodes@.len() == onodes.len(),
            onodes == old(nodes)@,
            orig == nodes_view(onodes),
            orig.len() == onodes.len(),
            forall|k: int| 0 <= k < onodes.len() ==> #[trigger] orig[k] == node_view(nodes@[k]),
            update_view(u) == uv,
            uv == update_view(u0),
            tree_update(orig, id@, uv) == lifted(orig.take(i as int), tree_update(orig.skip(i as int), id@, uv)),
        decreases onodes.len() - i,
    {
        let ghost rest = orig.skip(i as int);
        assert(rest[0] == orig[i as int]);
        assert(rest.skip(1) =~= orig.skip(i + 1));
        let c = chars_of(nodes[i].id.as_str());
        if eq_chars(c.as_slice(), id) {
            let mut n = nodes.remove(i);
            assert(orig[i as int].id == id@);
            assert(tree_update(rest, id@, uv) == Some(seq![applied(rest[0], uv)] + rest.skip(1)));
            let err = apply_update(&mut n, u);
            nodes.insert(i, n);
            proof {
                lemma_nodes_view(nodes@);
                assert(nodes_view(nodes@) =~= orig.take(i as int) + (seq![applied(orig[i as int], uv)] + orig.skip(i + 1)));
                assert(tree_update(orig, id@, uv) == Some(nodes_view(nodes@)));
                assert(orig == nodes_view(old(nodes)@));
                assert(uv == update_view(u0));
            }
            return Ok(err);
        }
        assert(orig[i as int].id != id@);
        proof {
            match tree_update(orig.skip(i + 1), id@, uv) {
                Some(t) => {
                    assert(orig.take(i as int) + (seq![orig[i as int]] + t) =~= orig.take(i + 1) + t);
                },
                None => {},
            }
        }
        let has_children = match &nodes[i].children {
            Children::Loaded(_) => true,
            _ => false,
        };
        if has_children {
            let mut n = nodes.remove(i);
            let mut kids = Children::Unloaded;
            std::mem::swap(&mut kids, &mut n.children);
            match kids {
                Children::Loaded(mut c) => {
                    proof {
                        assert(orig[i as int].children == ChildrenV::Loaded(nodes_view(c@)));
                        assert(decreases_to!(orig => orig[i as int]));
                        assert(decreases_to!(orig[i as int] => orig[i as int].children));
                        assert(decreases_to!(orig[i as int].children => nodes_view(c@)));
                        assert(decreases_to!(orig => nodes_view(c@)));
                        assert(orig == nodes_view(old(nodes)@));
                        assert(decreases_to!(nodes_view(old(nodes)@) => nodes_view(c@)));
                    }
                    let res = update_first(&mut c, id, u);
                    n.children = Children::Loaded(c);
                    nodes.insert(i, n);
                    match res {
                        Ok(e) => {
                            proof {
                                let c2 = nodes_view(c@);
                                assert(tree_update(rest, id@, uv) == Some(seq![NodeV { children: ChildrenV::Loaded(c2), ..orig[i as int] }] + rest.skip(1)));
                                lemma_nodes_view(nodes@);
                                assert(nodes_view(nodes@) =~= orig.take(i as int) + (seq![
                                    NodeV { children: ChildrenV::Loaded(nodes_view(c@)), ..orig[i as int] },
                                ] + orig.skip(i + 1)));
                            }
                            return Ok(e);
                        },
                        Err(u2) => {
                            u = u2;
                            proof {
                                lemma_nodes_view(nodes@);
                                assert(node_view(nodes@[i as int]) == orig[i as int]);
                                assert(orig.take(i + 1) =~= orig.take(i as int) + seq![orig[i as int]]);
                            }
                        },
                    }
                },
                other => {
                    n.children = other;
                    nodes.insert(i, n);
                },
            }
        } else {
            proof {
                assert(orig.take(i + 1) =~= orig.take(i as int) + seq![orig[i as int]]);
            }
        }
        i += 1;
    }
    proof {
        assert(orig.skip(i as int) =~= Seq::<NodeV>::empty());
        assert(orig.take(i as int) =~= orig);
        lemma_nodes_view(nodes@);
        assert(nodes_view(nodes@) =~= orig);
    }
    Err(u)
}

} // verus!

verus! {

// ---------------------------------------------------------------------------
// In-flight loads, as a map from node id to priority
// ---------------------------------------------------------------------------

pub open spec fn pmap(p: Seq<(String, Priority)>) -> Map<Seq<char>, Priority>
    decreases p.len(),
{
    if p.len() == 0 {
        Map::empty()
    } else {
        pmap(p.drop_last()).insert(p.last().0@, p.last().1)
    }
}

proof fn lemma_pmap_has(p: Seq<(String, Priority)>)
    requires
        unique_ids(pending_ids(p)),
    ensures
        forall|k: int| 0 <= k < p.len() ==> #[trigger] pmap(p).contains_key(p[k].0@) && pmap(p)[p[k].0@]
            == p[k].1,
        forall|id: Seq<char>| #[trigger] pmap(p).contains_key(id) ==> exists|k: int| 0 <= k < p.len() && p[k].0@ == id,
    decreases p.len(),
{
    if p.len() > 0 {
        let q = p.drop_last();
        assert(unique_ids(pending_ids(q))) by {
            assert forall|i: int, j: int| 0 <= i < j < pending_ids(q).len() implies pending_ids(q)[i] != pending_ids(q)[j] by {
                assert(pending_ids(q)[i] == pending_ids(p)[i]);
                assert(pending_ids(q)[j] == pending_ids(p)[j]);
            }
        }
        lemma_pmap_has(q);
        assert forall|k: int| 0 <= k < p.len() implies #[trigger] pmap(p).contains_key(p[k].0@) && pmap(p)[p[k].0@] == p[k].1 by {
            if k < p.len() - 1 {
                assert(pending_ids(p)[k] != pending_ids(p)[p.len() - 1]);
                assert(q[k] == p[k]);
                assert(pmap(q).contains_key(q[k].0@));
                assert(p[k].0@ != p.last().0@);
            } else {
                assert(p[k] == p.last());
            }
        }
        assert forall|id: Seq<char>| #[trigger] pmap(p).contains_key(id) implies exists|k: int| 0 <= k < p.len() && p[k].0@ == id by {
            if id != p.last().0@ {
                assert(pmap(q).contains_key(id));
                let k = choose|k: int| 0 <= k < q.len() && q[k].0@ == id;
                assert(p[k] == q[k]);
            } else {
                assert(p[p.len() - 1].0@ == id);
            }
        }
    }
}

proof fn lemma_unique_remove(p: Seq<(String, Priority)>, k: int)
    requires
        unique_ids(pending_ids(p)),
        0 <= k < p.len(),
    ensures
        unique_ids(pending_ids(p.remove(k))),
        pmap(p.remove(k)) == pmap(p).remove(p[k].0@),
{
    let r = p.remove(k);
    assert forall|i: int, j: int| 0 <= i < j < pending_ids(r).len() implies pending_ids(r)[i] != pending_ids(r)[j] by {
        let ii = if i < k { i } else { i + 1 };
        let jj = if j < k { j } else { j + 1 };
        assert(pending_ids(r)[i] == pending_ids(p)[ii]);
        assert(pending_ids(r)[j] == pending_ids(p)[jj]);
    }
    lemma_pmap_has(p);
    lemma_pmap_has(r);
    let key = p[k].0@;
    assert forall|id: Seq<char>| #[trigger] pmap(r).contains_key(id) == pmap(p).remove(key).contains_key(id) by {
        if pmap(r).contains_key(id) {
            let w = choose|x: int| 0 <= x < r.len() && r[x].0@ == id;
            let ww = if w < k { w } else { w + 1 };
            assert(r[w] == p[ww]);
            assert(pending_ids(p)[ww] != pending_ids(p)[k]);
        }
        if pmap(p).remove(key).contains_key(id) {
            let w = choose|x: int| 0 <= x < p.len() && p[x].0@ == id;
            assert(w != k);
            let ww = if w < k { w } else { w - 1 };
            assert(r[ww] == p[w]);
        }
    }
    assert forall|id: Seq<char>| #[trigger] pmap(r).contains_key(id) implies pmap(r)[id] == pmap(p).remove(key)[id] by {
        let w = choose|x: int| 0 <= x < r.len() && r[x].0@ == id;
        let ww = if w < k { w } else { w + 1 };
        assert(r[w] == p[ww]);
    }
    assert(pmap(r) =~= pmap(p).remove(key));
}

proof fn lemma_unique_set(p: Seq<(String, Priority)>, k: int, e: (String, Priority))
    requires
        unique_ids(pending_ids(p)),
        0 <= k < p.len(),
        e.0@ == p[k].0@,
    ensures
        unique_ids(pending_ids(p.update(k, e))),
        pmap(p.update(k, e)) == pmap(p).insert(e.0@, e.1),
{
    let r = p.update(k, e);
    assert forall|i: int, j: int| 0 <= i < j < pending_ids(r).len() implies pending_ids(r)[i] != pending_ids(r)[j] by {
        assert(pending_ids(r)[i] == pending_ids(p)[i]);
        assert(pending_ids(r)[j] == pending_ids(p)[j]);
    }
    lemma_pmap_has(p);
    lemma_pmap_has(r);
    assert forall|id: Seq<char>| #[trigger] pmap(r).contains_key(id) == pmap(p).insert(e.0@, e.1).contains_key(id) by {
        if pmap(r).contains_key(id) {
            let w = choose|x: int| 0 <= x < r.len() && r[x].0@ == id;
            if w != k {
                assert(r[w] == p[w]);
            }
        }
        if pmap(p).contains_key(id) {
            let w = choose|x: int| 0 <= x < p.len() && p[x].0@ == id;
            if w != k {
                assert(r[w] == p[w]);
            }
        }
        if id == e.0@ {
            assert(r[k].0@ == id);
        }
    }
    assert forall|id: Seq<char>| #[trigger] pmap(r).contains_key(id) implies pmap(r)[id] == pmap(p).insert(e.0@, e.1)[id] by {
        let w = choose|x: int| 0 <= x < r.len() && r[x].0@ == id;
        if w != k {
            assert(r[w] == p[w]);
            assert(pending_ids(p)[w] != pending_ids(p)[k]);
        }
    }
    assert(pmap(r) =~= pmap(p).insert(e.0@, e.1));
}

proof fn lemma_unique_push(p: Seq<(String, Priority)>, e: (String, Priority))
    requires
        unique_ids(pending_ids(p)),
        !pmap(p).contains_key(e.0@),
    ensures
        unique_ids(pending_ids(p.push(e))),
        pmap(p.push(e)) == pmap(p).insert(e.0@, e.1),
{
    let r = p.push(e);
    lemma_pmap_has(p);
    assert forall|i: int, j: int| 0 <= i < j < pending_ids(r).len() implies pending_ids(r)[i] != pending_ids(r)[j] by {
        assert(pending_ids(r)[i] == r[i].0@);
        assert(pending_ids(r)[j] == r[j].0@);
        if j == p.len() {
            assert(r[i] == p[i]);
            assert(pmap(p).contains_key(p[i].0@));
        } else {
            assert(pending_ids(r)[i] == pending_ids(p)[i]);
            assert(pending_ids(r)[j] == pending_ids(p)[j]);
        }
    }
    assert(r.drop_last() =~= p);
}

} // verus!

verus! {

/// The tree after an update, or as it was when no node has the id.
pub open spec fn updated_or_same(nodes: Seq<NodeV>, id: Seq<char>, u: UpdateV) -> Seq<NodeV> {
    match tree_update(nodes, id, u) {
        Some(t) => t,
        None => nodes,
    }
}

/// The forest after the loads `outs` came back, in order: each answer
/// folded into the node with its id.
pub open spec fn folded(roots: Seq<NodeV>, outs: Seq<(Seq<char>, UpdateV)>) -> Seq<NodeV>
    decreases outs.len(),
{
    if outs.len() == 0 {
        roots
    } else {
        updated_or_same(folded(roots, outs.drop_last()), outs.last().0, outs.last().1)
    }
}

/// The loads in flight once the answers `outs` came back.
pub open spec fn drained(p: Map<Seq<char>, Priority>, outs: Seq<(Seq<char>, UpdateV)>) -> Map<Seq<char>, Priority>
    decreases outs.len(),
{
    if outs.len() == 0 {
        p
    } else {
        drained(p, outs.drop_last()).remove(outs.last().0)
    }
}

/// Every entry of `outs` is the answer of a load.
pub open spec fn all_answers(outs: Seq<(Seq<char>, UpdateV)>) -> bool {
    forall|i: int| 0 <= i < outs.len() ==> (#[trigger] outs[i]).1 is Outcome
}

pub open spec fn out_ids(outs: Seq<(Seq<char>, UpdateV)>) -> Seq<Seq<char>> {
    outs.map_values(|o: (Seq<char>, UpdateV)| o.0)
}

proof fn lemma_fold_append(r: Seq<NodeV>, p: Map<Seq<char>, Priority>, a: Seq<(Seq<char>, UpdateV)>, b: Seq<(Seq<char>, UpdateV)>)
    ensures
        folded(r, a + b) == folded(folded(r, a), b),
        drained(p, a + b) == drained(drained(p, a), b),
        all_answers(a) && all_answers(b) ==> all_answers(a + b),
    decreases b.len(),
{
    if b.len() > 0 {
        lemma_fold_append(r, p, a, b.drop_last());
        assert((a + b).drop_last() =~= a + b.drop_last());
        assert((a + b).last() == b.last());
    } else {
        assert(a + b =~= a);
    }
    if all_answers(a) && all_answers(b) {
        assert forall|i: int| 0 <= i < (a + b).len() implies (#[trigger] (a + b)[i]).1 is Outcome by {
            if i >= a.len() {
                assert((a + b)[i] == b[i - a.len()]);
            } else {
                assert((a + b)[i] == a[i]);
            }
        }
    }
}

proof fn lemma_drained_keeps(p: Map<Seq<char>, Priority>, outs: Seq<(Seq<char>, UpdateV)>, id: Seq<char>)
    requires
        p.contains_key(id),
    ensures
        drained(p, outs).contains_key(id) || out_ids(outs).contains(id),
    decreases outs.len(),
{
    if outs.len() > 0 {
        lemma_drained_keeps(p, outs.drop_last(), id);
        if out_ids(outs.drop_last()).contains(id) {
            let i = choose|i: int| 0 <= i < out_ids(outs.drop_last()).len() && out_ids(outs.drop_last())[i] == id;
            assert(out_ids(outs)[i] == id);
        } else if !drained(p, outs).contains_key(id) {
            assert(out_ids(outs)[outs.len() - 1] == id);
        }
    }
}

/// The error a view shows after an update: a failed load's, if the update
/// found its node, else the one it showed.
pub open spec fn error_after(nodes: Seq<NodeV>, id: Seq<char>, u: UpdateV, before: Option<Seq<char>>) -> Option<Seq<char>> {
    match tree_update(nodes, id, u) {
        Some(_) => match error_of(u) {
            Some(e) => Some(e),
            None => before,
        },
        None => before,
    }
}

/// A request is dropped when a load of at least its priority is in flight.
pub open spec fn request_skipped(pending: Map<Seq<char>, Priority>, id: Seq<char>, priority: Priority) -> bool {
    pending.contains_key(id) && (pending[id] == Priority::High || priority == Priority::Low)
}

/// Whether a visible item still hides something a peek would reveal: unknown
/// expandability, or no description yet.
pub open spec fn wants_peek(n: NodeV) -> bool {
    (n.kind == NodeKind::Unknown || n.description.len() == 0) && n.children is Unloaded
}

/// `id` is that of a node a peek is wanted for in the active column (at
/// depth `act`) or the one after it.
pub open spec fn peek_wanted(roots: Seq<NodeV>, path: Seq<usize>, id: Seq<char>) -> bool {
    wanted_within(roots, path, id, active_depth_of(path) as int, 2, 0)
}

/// `id` is that of a node a peek is wanted for among the first `step`
/// columns from depth `act`, or the first `k` nodes of the next one.
pub open spec fn wanted_within(roots: Seq<NodeV>, path: Seq<usize>, id: Seq<char>, act: int, step: int, k: int) -> bool {
    exists|s: int, j: int|
        #![trigger column_at(roots, path, (act + s) as nat)[j]]
        0 <= s <= step && 0 <= j && (s < step || j < k) && s < 2
        && j < column_at(roots, path, (act + s) as nat).len()
        && wants_peek(column_at(roots, path, (act + s) as nat)[j])
        && column_at(roots, path, (act + s) as nat)[j].id == id
}

pub open spec fn target_ids(t: Seq<(String, String, Vec<String>)>) -> Seq<Seq<char>> {
    t.map_values(|e: (String, String, Vec<String>)| e.0@)
}

impl<L: Loader, M: FormMemory, E: EnvSource> MillerView<L, M, E> {
    /// In-flight loads by node id.
    pub closed spec fn pending_map(&self) -> Map<Seq<char>, Priority> {
        pmap(self.pending@)
    }

    fn find_pending(&self, id: &[char]) -> (r: Option<usize>)
        requires
            self.core_wf(),
        ensures
            match r {
                Some(k) => k < self.pending@.len() && self.pending@[k as int].0@ == id@
                    && self.pending_map().contains_key(id@) && self.pending_map()[id@] == self.pending@[k as int].1,
                None => !self.pending_map().contains_key(id@),
            },
    {
        proof {
            lemma_pmap_has(self.pending@);
        }
        let mut i: usize = 0;
        while i < self.pending.len()
            invariant
                i <= self.pending@.len(),
                self.core_wf(),
                forall|k: int| 0 <= k < i ==> #[trigger] self.pending@[k].0@ != id@,
            decreases self.pending@.len() - i,
        {
            let c = chars_of(self.pending[i].0.as_str());
            if eq_chars(c.as_slice(), id) {
                proof {
                    lemma_pmap_has(self.pending@);
                    assert(pmap(self.pending@).contains_key(self.pending@[i as int].0@));
                }
                return Some(i);
            }
            i += 1;
        }
        None
    }

    /// Fold one load result into the tree.
    fn apply_outcome(&mut self, node_id: &[char], loaded: Result<Loaded, String>)
        requires
            old(self).core_wf(),
        ensures
            final(self).core_wf(),
            final(self).loader == old(self).loader,
            final(self).pending_map() == old(self).pending_map().remove(node_id@),
            final(self).roots_view() == updated_or_same(old(self).roots_view(), node_id@, update_view(Update::Outcome(loaded))),
            final(self).error_view() == error_after(old(self).roots_view(), node_id@, update_view(Update::Outcome(loaded)), old(self).error_view()),
            final(self).path_view() == old(self).path_view(),
            final(self).spinner_view() == old(self).spinner_view(),
            final(self).filter_view() == old(self).filter_view(),
            final(self).roots_view().len() == old(self).roots_view().len(),
    {
        proof {
            lemma_tree_update_len(self.roots_view(), node_id@, update_view(Update::Outcome(loaded)));
            lemma_update_keeps_sorted(self.roots_view(), node_id@, update_view(Update::Outcome(loaded)));
        }
        match self.find_pending(node_id) {
            Some(k) => {
                proof {
                    lemma_unique_remove(self.pending@, k as int);
                }
                self.pending.remove(k);
            },
            None => {
                assert(self.pending_map().remove(node_id@) =~= self.pending_map());
            },
        }
        match update_first(&mut self.roots, node_id, Update::Outcome(loaded)) {
            Ok(Some(e)) => {
                self.error = Some(e);
            },
            _ => {},
        }
    }

    /// Ask for the details of a node, unless a load of at least this
    /// priority is already in flight for it. A focus load the loader can
    /// answer from cache is folded in at once.
    fn request_load(&mut self, id: String, tool_id: String, command_path: Vec<String>, priority: Priority, show_spinner: bool)
        requires
            old(self).wf(),
        ensures
            final(self).wf(),
            final(self).answers_at_once() == old(self).answers_at_once(),
            final(self).path_view() == old(self).path_view(),
            final(self).spinner_view() == old(self).spinner_view(),
            final(self).filter_view() == old(self).filter_view(),
            final(self).roots_view().len() == old(self).roots_view().len(),
            request_skipped(old(self).pending_map(), id@, priority) ==> (final(self).pending_map() == old(self).pending_map()
                && final(self).roots_view() == old(self).roots_view()
                && final(self).error_view() == old(self).error_view()),
            !request_skipped(old(self).pending_map(), id@, priority) ==> ((final(self).pending_map() == old(self).pending_map().insert(id@, priority)
                && final(self).roots_view() == (if show_spinner {
                    updated_or_same(old(self).roots_view(), id@, UpdateV::MarkLoading)
                } else {
                    old(self).roots_view()
                })
                && final(self).error_view() == old(self).error_view())
                || (priority == Priority::High && final(self).pending_map() == old(self).pending_map().remove(id@)
                    && exists|u: UpdateV| #![trigger updated_or_same(old(self).roots_view(), id@, u)]
                        u is Outcome && final(self).roots_view() == updated_or_same(old(self).roots_view(), id@, u))),
    {
        let idc = chars_of(id.as_str());
        let found = self.find_pending(idc.as_slice());
        match found {
            Some(k) => {
                let cur = self.pending[k].1;
                if cur == Priority::High || priority == Priority::Low {
                    return;
                }
            },
            None => {},
        }
        let req = LoadRequest { node_id: id, tool_id, command_path, priority };
        if priority == Priority::High {
            match self.loader.load_cached(&req) {
                Some(result) => {
                    let ghost u = update_view(Update::Outcome(result));
                    let ghost before = *self;
                    self.apply_outcome(idc.as_slice(), result);
                    assert(self.roots_view() == updated_or_same(old(self).roots_view(), id@, u));
                    proof {
                        if self.loader.answers_at_once() {
                            assert forall|x: Seq<char>| self.pending_map().dom().contains(x) implies #[trigger] self.loader.queued().to_set().contains(x) by {
                                assert(old(self).pending_map().dom().contains(x));
                                assert(old(self).loader.queued().to_set().contains(x));
                            }
                        }
                    }
                    return;
                },
                None => {},
            }
        }
        let entry = (req.node_id.clone(), priority);
        match found {
            Some(k) => {
                proof {
                    lemma_unique_set(self.pending@, k as int, entry);
                }
                self.pending.set(k, entry);
            },
            None => {
                proof {
                    lemma_unique_push(self.pending@, entry);
                }
                self.pending.push(entry);
            },
        }
        if show_spinner {
            proof {
                lemma_tree_update_len(self.roots_view(), id@, UpdateV::MarkLoading);
                lemma_update_keeps_sorted(self.roots_view(), id@, UpdateV::MarkLoading);
            }
            let _ = update_first(&mut self.roots, idc.as_slice(), Update::MarkLoading);
        }
        let ghost rid = req.node_id@;
        let ghost l0 = self.loader;
        self.loader.request(req);
        proof {
            if self.loader.answers_at_once() {
                assert forall|x: Seq<char>| self.pending_map().dom().contains(x) implies #[trigger] self.loader.queued().to_set().contains(x) by {
                    if x == rid {
                        assert(self.loader.queued()[l0.queued().len() as int] == x);
                    } else {
                        assert(old(self).pending_map().dom().contains(x));
                        assert(old(self).loader.queued().to_set().contains(x));
                        let q = choose|q: int| 0 <= q < l0.queued().len() && l0.queued()[q] == x;
                        assert(self.loader.queued()[q] == x);
                    }
                }
            }
        }
    }

    /// Load the focused node's children if nothing has asked for them yet.
    fn ensure_focused_loading(&mut self)
        requires
            old(self).wf(),
        ensures
            final(self).wf(),
            final(self).answers_at_once() == old(self).answers_at_once(),
            final(self).path_view() == old(self).path_view(),
            final(self).spinner_view() == old(self).spinner_view(),
            final(self).filter_view() == old(self).filter_view(),
            final(self).roots_view().len() == old(self).roots_view().len(),
            !(old(self).focus() matches Some(n) && n.children is Unloaded) ==> *final(self) == *old(self),
            (old(self).focus() matches Some(n) && n.children is Unloaded) ==> {
                let id = old(self).focus()->0.id;
                &&& request_skipped(old(self).pending_map(), id, Priority::High) ==> (final(self).pending_map() == old(self).pending_map()
                    && final(self).roots_view() == old(self).roots_view())
                &&& !request_skipped(old(self).pending_map(), id, Priority::High) ==> (
                    (final(self).pending_map() == old(self).pending_map().insert(id, Priority::High)
                        && final(self).roots_view() == updated_or_same(old(self).roots_view(), id, UpdateV::MarkLoading))
                    || (final(self).pending_map() == old(self).pending_map().remove(id)
                        && exists|u: UpdateV| #![trigger updated_or_same(old(self).roots_view(), id, u)]
                            u is Outcome && final(self).roots_view() == updated_or_same(old(self).roots_view(), id, u)))
            },
    {
        let (id, tool_id, command_path) = match self.focused() {
            Some(n) => match n.children {
                Children::Unloaded => (n.id.clone(), n.tool_id.clone(), copy_strings(&n.command_path)),
                _ => return,
            },
            None => return,
        };
        self.request_load(id, tool_id, command_path, Priority::High, true);
    }

    /// Apply every outcome the loader has ready (done before each redraw, so
    /// what is drawn is current).
    pub fn integrate_results(&mut self)
        requires
            old(self).wf(),
        ensures
            final(self).wf(),
            final(self).answers_at_once() == old(self).answers_at_once(),
            old(self).answers_at_once() ==> final(self).pending_view().len() == 0,
            final(self).path_view() == old(self).path_view(),
            final(self).spinner_view() == old(self).spinner_view(),
            final(self).filter_view() == old(self).filter_view(),
            exists|outs: Seq<(Seq<char>, UpdateV)>| #![trigger folded(old(self).roots_view(), outs)]
                all_answers(outs) && final(self).roots_view() == folded(old(self).roots_view(), outs)
                && final(self).pending_map() == drained(old(self).pending_map(), outs),
    {
        let outcomes = self.loader.poll();
        let mut outcomes = outcomes;
        let ghost mut done: Seq<(Seq<char>, UpdateV)> = seq![];
        proof {
            if self.loader.answers_at_once() {
                assert forall|x: Seq<char>| #[trigger] self.pending_map().dom().contains(x) implies outcome_ids(outcomes@).contains(x) by {
                    assert(old(self).loader.queued().to_set().contains(x));
                }
            }
        }
        while outcomes.len() > 0
            invariant
                self.core_wf(),
                self.loader.answers_at_once() == old(self).loader.answers_at_once(),
                self.loader.answers_at_once() ==> self.loader.queued().len() == 0,
                self.loader.answers_at_once() ==> forall|x: Seq<char>| #[trigger] self.pending_map().dom().contains(x)
                    ==> outcome_ids(outcomes@).contains(x),
                self.path_view() == old(self).path_view(),
                self.spinner_view() == old(self).spinner_view(),
                self.filter_view() == old(self).filter_view(),
                all_answers(done),
                self.roots_view() == folded(old(self).roots_view(), done),
                self.pending_map() == drained(old(self).pending_map(), done),
            decreases outcomes@.len(),
        {
            let ghost outs0 = outcomes@;
            let LoadOutcome { node_id, loaded } = outcomes.remove(0);
            let idc = chars_of(node_id.as_str());
            let ghost u = update_view(Update::Outcome(loaded));
            let ghost p0 = self.pending_map();
            self.apply_outcome(idc.as_slice(), loaded);
            proof {
                if self.loader.answers_at_once() {
                    assert forall|x: Seq<char>| #[trigger] self.pending_map().dom().contains(x) implies outcome_ids(outcomes@).contains(x) by {
                        assert(p0.dom().contains(x) && x != idc@);
                        assert(outcome_ids(outs0).contains(x));
                        let q = choose|q: int| 0 <= q < outs0.len() && outcome_ids(outs0)[q] == x;
                        assert(outs0[0].node_id@ == idc@);
                        assert(q != 0);
                        assert(outcomes@[q - 1] == outs0[q]);
                        assert(outcome_ids(outcomes@)[q - 1] == x);
                    }
                }
            }
            proof {
                let d2 = done.push((idc@, u));
                assert(d2.drop_last() =~= done);
                assert forall|i: int| 0 <= i < d2.len() implies (#[trigger] d2[i]).1 is Outcome by {
                    if i < done.len() {
                        assert(d2[i] == done[i]);
                    }
                }
                done = d2;
            }
        }
        proof {
            lemma_pmap_len(self.pending@);
            if old(self).answers_at_once() {
                assert forall|x: Seq<char>| !self.pending_map().dom().contains(x) by {
                    if self.pending_map().dom().contains(x) {
                        assert(outcome_ids(outcomes@).contains(x));
                    }
                }
                assert(self.pending_map().dom() =~= Set::<Seq<char>>::empty());
            }
        }
    }

    /// Drive loading to completion with a loader that resolves inline.
    fn settle(&mut self)
        requires
            old(self).wf(),
        ensures
            final(self).wf(),
            final(self).answers_at_once() == old(self).answers_at_once(),
            old(self).answers_at_once() ==> final(self).pending_view().len() == 0,
            final(self).path_view() == old(self).path_view(),
            final(self).filter_view() == old(self).filter_view(),
            exists|outs: Seq<(Seq<char>, UpdateV)>| #![trigger folded(old(self).roots_view(), outs)]
                all_answers(outs) && final(self).roots_view() == folded(old(self).roots_view(), outs)
                && final(self).pending_map() == drained(old(self).pending_map(), outs),
    {
        let mut round: usize = 0;
        let ghost mut done: Seq<(Seq<char>, UpdateV)> = seq![];
        while round < 64
            invariant
                self.wf(),
                self.path_view() == old(self).path_view(),
                self.filter_view() == old(self).filter_view(),
                all_answers(done),
                self.roots_view() == folded(old(self).roots_view(), done),
                self.pending_map() == drained(old(self).pending_map(), done),
                self.answers_at_once() == old(self).answers_at_once(),
                (round > 0 && old(self).answers_at_once()) ==> self.pending_view().len() == 0,
            ensures
                self.pending_view().len() == 0 || (old(self).answers_at_once() ==> self.pending_view().len() == 0),
            decreases 64 - round,
        {
            if self.pending.len() == 0 {
                break;
            }
            let ghost r0 = self.roots_view();
            let ghost p0 = self.pending_map();
            self.integrate_results();
            proof {
                let outs = choose|outs: Seq<(Seq<char>, UpdateV)>| all_answers(outs) && self.roots_view() == folded(r0, outs)
                    && self.pending_map() == drained(p0, outs);
                lemma_fold_append(old(self).roots_view(), old(self).pending_map(), done, outs);
                done = done + outs;
            }
            round += 1;
        }
        assert(folded(old(self).roots_view(), done) == self.roots_view());
    }

    /// Peek one level deeper than shown, at low priority, at every visible
    /// item that still hides its expandability or description.
    fn peek_visible(&mut self)
        requires
            old(self).wf(),
        ensures
            final(self).wf(),
            final(self).answers_at_once() == old(self).answers_at_once(),
            final(self).path_view() == old(self).path_view(),
            final(self).spinner_view() == old(self).spinner_view(),
            final(self).filter_view() == old(self).filter_view(),
            final(self).roots_view() == old(self).roots_view(),
            forall|id: Seq<char>| #[trigger] old(self).pending_map().contains_key(id) ==> final(self).pending_map().contains_key(id),
            forall|id: Seq<char>| #[trigger] peek_wanted(old(self).roots_view(), old(self).path_view(), id) ==> final(self).pending_map().contains_key(id),
    {
        let n = self.path.len();
        let active = if n > 0 { n - 1 } else { 0 };
        let ghost act: int = active_depth_of(self.path_view()) as int;
        assert(active == act);
        let mut targets: Vec<(String, String, Vec<String>)> = Vec::new();
        let mut step: usize = 0;
        while step < 2
            invariant
                active + 1 <= usize::MAX,
                active == act,
                act == active_depth_of(self.path_view()),
                step <= 2,
                self.wf(),
                *self == *old(self),
                forall|id: Seq<char>| #[trigger] wanted_within(self.roots_view(), self.path_view(), id, act, step as int, 0)
                    ==> self.pending_map().contains_key(id) || target_ids(targets@).contains(id),
            decreases 2 - step,
        {
            let depth = active + step;
            let col = self.column_nodes(depth);
            proof {
                lemma_nodes_view(col@);
            }
            let mut k: usize = 0;
            while k < col.len()
                invariant
                    k <= col@.len(),
                    depth == act + step,
                    step < 2,
                    act == active_depth_of(self.path_view()),
                    nodes_view(col@) == self.column(depth as nat),
                    nodes_view(col@).len() == col@.len(),
                    forall|j: int| 0 <= j < col@.len() ==> #[trigger] nodes_view(col@)[j] == node_view(col@[j]),
                    self.wf(),
                    *self == *old(self),
                    forall|id: Seq<char>| #[trigger] wanted_within(self.roots_view(), self.path_view(), id, act, step as int, k as int)
                        ==> self.pending_map().contains_key(id) || target_ids(targets@).contains(id),
                decreases col@.len() - k,
            {
                let node = &col[k];
                let wants = node.kind == NodeKind::Unknown || node.description.as_str().is_empty();
                let unloaded = match node.children {
                    Children::Unloaded => true,
                    _ => false,
                };
                let ghost nv = node_view(*node);
                assert(nv == self.column(depth as nat)[k as int]);
                assert(wants_peek(nv) == (wants && unloaded));
                let ghost before = target_ids(targets@);
                if wants && unloaded {
                    let c = chars_of(node.id.as_str());
                    if self.find_pending(c.as_slice()).is_none() {
                        targets.push((node.id.clone(), node.tool_id.clone(), copy_strings(&node.command_path)));
                        assert(target_ids(targets@) =~= before.push(nv.id));
                    }
                }
                assert forall|id: Seq<char>| #[trigger] wanted_within(self.roots_view(), self.path_view(), id, act, step as int, k + 1)
                    implies self.pending_map().contains_key(id) || target_ids(targets@).contains(id) by {
                    if !wanted_within(self.roots_view(), self.path_view(), id, act, step as int, k as int) {
                        assert(id == nv.id && wants_peek(nv));
                        if !self.pending_map().contains_key(id) {
                            assert(target_ids(targets@)[target_ids(targets@).len() - 1] == id);
                        }
                    } else if before.contains(id) {
                        let i = choose|i: int| 0 <= i < before.len() && before[i] == id;
                        assert(target_ids(targets@)[i] == id);
                    }
                }
                k += 1;
            }
            assert forall|id: Seq<char>| #[trigger] wanted_within(self.roots_view(), self.path_view(), id, act, step + 1, 0)
                implies self.pending_map().contains_key(id) || target_ids(targets@).contains(id) by {
                assert(wanted_within(self.roots_view(), self.path_view(), id, act, step as int, k as int));
            }
            step += 1;
        }
        assert forall|id: Seq<char>| #[trigger] peek_wanted(old(self).roots_view(), old(self).path_view(), id)
            implies self.pending_map().contains_key(id) || target_ids(targets@).contains(id) by {
            assert(wanted_within(self.roots_view(), self.path_view(), id, act, 2, 0));
        }
        while targets.len() > 0
            invariant
                self.wf(),
                self.answers_at_once() == old(self).answers_at_once(),
                self.path_view() == old(self).path_view(),
                self.spinner_view() == old(self).spinner_view(),
                self.filter_view() == old(self).filter_view(),
                self.roots_view() == old(self).roots_view(),
                forall|id: Seq<char>| #[trigger] old(self).pending_map().contains_key(id) ==> self.pending_map().contains_key(id),
                forall|id: Seq<char>| #[trigger] peek_wanted(old(self).roots_view(), old(self).path_view(), id)
                    ==> self.pending_map().contains_key(id) || target_ids(targets@).contains(id),
            decreases targets@.len(),
        {
            let ghost ids0 = target_ids(targets@);
            let (id, tool_id, command_path) = targets.remove(0);
            let ghost first = id@;
            assert(ids0[0] == first);
            let ghost before = self.pending_map();
            self.request_load(id, tool_id, command_path, Priority::Low, false);
            proof {
                assert forall|x: Seq<char>| #[trigger] old(self).pending_map().contains_key(x) implies self.pending_map().contains_key(x) by {
                    assert(before.contains_key(x));
                }
                assert forall|x: Seq<char>| #[trigger] peek_wanted(old(self).roots_view(), old(self).path_view(), x)
                    implies self.pending_map().contains_key(x) || target_ids(targets@).contains(x) by {
                    if before.contains_key(x) {
                    } else if x != first {
                        let i = choose|i: int| 0 <= i < ids0.len() && ids0[i] == x;
                        assert(i > 0);
                        assert(target_ids(targets@)[i - 1] == x);
                    }
                }
            }
        }
    }

    /// Whether the selection runs through commands named `names`, one per
    /// level, the tools column first.
    pub fn path_named(&self, names: &[&str]) -> (r: bool)
        ensures
            r == selects_names(self.roots_view(), self.path_view(), names@),
    {
        if self.path.len() != names.len() {
            return false;
        }
        let mut d: usize = 0;
        while d < self.path.len()
            invariant
                d <= self.path@.len(),
                self.path@.len() == names@.len(),
                forall|e: int| 0 <= e < d ==> named_at(self.roots_view(), self.path_view(), names@, e),
            decreases self.path@.len() - d,
        {
            let col = self.column_nodes(d);
            proof {
                lemma_nodes_view(col@);
            }
            let idx = self.path[d];
            if idx >= col.len() {
                assert(!named_at(self.roots_view(), self.path_view(), names@, d as int));
                return false;
            }
            let have = chars_of(col[idx].name.as_str());
            let want = chars_of(names[d]);
            assert(nodes_view(col@)[idx as int] == node_view(col@[idx as int]));
            if !eq_chars(have.as_slice(), want.as_slice()) {
                assert(!named_at(self.roots_view(), self.path_view(), names@, d as int));
                return false;
            }
            assert(named_at(self.roots_view(), self.path_view(), names@, d as int));
            d += 1;
        }
        true
    }

    /// Navigate to a command by display-name path (`["az", "account",
    /// "list"]`), loading each level as needed. True exactly when every name
    /// is found, level by level, and the selection still runs through the
    /// named commands once the loads it started are folded in; false if a
    /// segment is not found.
    pub fn select_path(&mut self, names: &[&str]) -> (r: bool)
        requires
            old(self).wf(),
        ensures
            final(self).wf(),
            names@.len() == 0 ==> !r && *final(self) == *old(self),
            (names@.len() > 0 && lacks_name(old(self).roots_view(), names@[0]@)) ==> !r && *final(self) == *old(self),
            r ==> selects_names(final(self).roots_view(), final(self).path_view(), names@),
            final(self).answers_at_once() == old(self).answers_at_once(),
            // With a loader that answers at once, nothing is left in flight.
            (r && old(self).answers_at_once()) ==> final(self).pending_view().len() == 0,
            // The tool chosen is the first one so named; the tools column keeps its tools and names.
            (names@.len() > 0 && !lacks_name(old(self).roots_view(), names@[0]@)) ==> final(self).path_view().len() >= 1
                && first_named_at(old(self).roots_view(), names@[0]@, final(self).path_view()[0] as int)
                && same_top(old(self).roots_view(), final(self).roots_view()),
            r ==> (final(self).focus() matches Some(n) && n.name == names@.last()@),
            (!r && names@.len() > 0) ==> {
                ||| (*final(self) == *old(self) && lacks_name(old(self).roots_view(), names@[0]@))
                ||| exists|j: int| #![trigger lacks_name(final(self).column(j as nat), names@[j]@)]
                    1 <= j < names@.len() && final(self).path_view().len() == j
                    && lacks_name(final(self).column(j as nat), names@[j]@)
                ||| (final(self).path_view().len() == names@.len()
                    && !selects_names(final(self).roots_view(), final(self).path_view(), names@))
            },
    {
        if names.len() == 0 {
            return false;
        }
        let first = chars_of(names[0]);
        let mut root_idx: usize = 0;
        let mut found = false;
        proof {
            lemma_nodes_view(self.roots@);
        }
        while root_idx < self.roots.len()
            invariant_except_break
                !found,
            invariant
                root_idx <= self.roots@.len(),
                *self == *old(self),
                first@ == names@[0]@,
                nodes_view(self.roots@).len() == self.roots@.len(),
                forall|j: int| 0 <= j < self.roots@.len() ==> #[trigger] nodes_view(self.roots@)[j] == node_view(self.roots@[j]),
                forall|k: int| 0 <= k < root_idx ==> #[trigger] self.roots_view()[k].name != names@[0]@,
            ensures
                !found ==> root_idx == self.roots@.len(),
                found ==> root_idx < self.roots@.len() && self.roots_view()[root_idx as int].name == names@[0]@,
            decreases self.roots@.len() - root_idx,
        {
            let c = chars_of(self.roots[root_idx].name.as_str());
            if eq_chars(c.as_slice(), first.as_slice()) {
                found = true;
                assert(self.roots_view()[root_idx as int] == node_view(self.roots@[root_idx as int]));
                break;
            }
            assert(self.roots_view()[root_idx as int] == node_view(self.roots@[root_idx as int]));
            root_idx += 1;
        }
        if !found {
            assert(lacks_name(old(self).roots_view(), names@[0]@));
            return false;
        }
        assert(!lacks_name(old(self).roots_view(), names@[0]@));
        assert(first_named_at(old(self).roots_view(), names@[0]@, root_idx as int));
        self.path = vec![root_idx];
        let ghost r0 = self.roots_view();
        let ghost f0 = match self.focus() {
            Some(n) => n.id,
            None => seq![],
        };
        self.ensure_focused_loading();
        proof {
            lemma_focus_step_top(r0, self.roots_view(), f0);
        }
        let ghost r1 = self.roots_view();
        self.settle();
        proof {
            let outs = choose|outs: Seq<(Seq<char>, UpdateV)>| #![trigger folded(r1, outs)]
                all_answers(outs) && self.roots_view() == folded(r1, outs);
            lemma_folded_top(r1, outs);
            lemma_same_top_trans(r0, r1, self.roots_view());
        }
        let mut j: usize = 1;
        while j < names.len()
            invariant
                1 <= j <= names@.len(),
                self.wf(),
                self.path_view().len() == j,
                !lacks_name(old(self).roots_view(), names@[0]@),
                self.path_view()[0] == root_idx,
                first_named_at(old(self).roots_view(), names@[0]@, root_idx as int),
                same_top(old(self).roots_view(), self.roots_view()),
                self.answers_at_once() == old(self).answers_at_once(),
                old(self).answers_at_once() ==> self.pending_view().len() == 0,
            decreases names@.len() - j,
        {
            let depth = self.path.len();
            let want = chars_of(names[j]);
            let col = self.column_nodes(depth);
            proof {
                lemma_nodes_view(col@);
            }
            let mut idx: usize = 0;
            let mut hit = false;
            while idx < col.len()
                invariant_except_break
                    !hit,
                invariant
                    idx <= col@.len(),
                    j < names@.len(),
                    want@ == names@[j as int]@,
                    nodes_view(col@) == self.column(depth as nat),
                    nodes_view(col@).len() == col@.len(),
                    forall|q: int| 0 <= q < col@.len() ==> #[trigger] nodes_view(col@)[q] == node_view(col@[q]),
                    forall|k: int| 0 <= k < idx ==> #[trigger] self.column(depth as nat)[k].name != names@[j as int]@,
                ensures
                    !hit ==> idx == col@.len(),
                decreases col@.len() - idx,
            {
                let c = chars_of(col[idx].name.as_str());
                if eq_chars(c.as_slice(), want.as_slice()) {
                    hit = true;
                    break;
                }
                assert(self.column(depth as nat)[idx as int] == node_view(col@[idx as int]));
                idx += 1;
            }
            if !hit {
                let ghost jj: int = j as int;
                assert(lacks_name(self.column(jj as nat), names@[jj]@));
                assert(1 <= jj < names@.len() && self.path_view().len() == jj);
                return false;
            }
            self.path.push(idx);
            let ghost q0 = self.roots_view();
            let ghost g0 = match self.focus() {
                Some(n) => n.id,
                None => seq![],
            };
            self.ensure_focused_loading();
            proof {
                lemma_focus_step_top(q0, self.roots_view(), g0);
                lemma_same_top_trans(old(self).roots_view(), q0, self.roots_view());
            }
            let ghost q1 = self.roots_view();
            self.settle();
            proof {
                let outs = choose|outs: Seq<(Seq<char>, UpdateV)>| #![trigger folded(q1, outs)]
                    all_answers(outs) && self.roots_view() == folded(q1, outs);
                lemma_folded_top(q1, outs);
                lemma_same_top_trans(old(self).roots_view(), q1, self.roots_view());
            }
            j += 1;
        }
        let r = self.path_named(names);
        proof {
            if r {
                let last = (names@.len() - 1) as int;
                assert(named_at(self.roots_view(), self.path_view(), names@, last));
                assert(names@.last() == names@[last]);
            }
        }
        r
    }

    /// Run an idle tick to completion: the focused load, the background
    /// peeks, and every outcome they produce.
    pub fn pump(&mut self)
        requires
            old(self).wf(),
        ensures
            final(self).wf(),
            final(self).answers_at_once() == old(self).answers_at_once(),
            old(self).answers_at_once() ==> final(self).pending_view().len() == 0,
            final(self).path_view() == old(self).path_view(),
            final(self).filter_view() == old(self).filter_view(),
            exists|mid: Seq<NodeV>, outs: Seq<(Seq<char>, UpdateV)>| #![trigger folded(mid, outs)]
                focus_started(old(self).roots_view(), old(self).focus(), mid) && all_answers(outs)
                && final(self).roots_view() == folded(mid, outs)
                && (forall|id: Seq<char>| #[trigger] peek_wanted(mid, old(self).path_view(), id)
                    ==> final(self).pending_map().contains_key(id) || out_ids(outs).contains(id))
                && (old(self).answers_at_once() ==> forall|id: Seq<char>| #[trigger] peek_wanted(mid, old(self).path_view(), id)
                    ==> out_ids(outs).contains(id))
                && ((old(self).answers_at_once() && (old(self).focus() matches Some(n) && n.children is Unloaded))
                    ==> (out_ids(outs).contains(old(self).focus()->0.id)
                        || exists|u: UpdateV| #![trigger updated_or_same(old(self).roots_view(), old(self).focus()->0.id, u)]
                            u is Outcome && mid == updated_or_same(old(self).roots_view(), old(self).focus()->0.id, u))),
    {
        self.ensure_focused_loading();
        let ghost mid = self.roots_view();
        let ghost p1 = self.pending_map();
        self.peek_visible();
        let ghost p2 = self.pending_map();
        self.settle();
        proof {
            let outs = choose|outs: Seq<(Seq<char>, UpdateV)>| all_answers(outs) && self.roots_view() == folded(mid, outs)
                && self.pending_map() == drained(p2, outs);
            if old(self).answers_at_once() {
                lemma_pmap_len(self.pending@);
                assert(self.pending_map().dom() =~= Set::<Seq<char>>::empty()) by {
                    assert forall|x: Seq<char>| !self.pending_map().dom().contains(x) by {
                        if self.pending_map().dom().contains(x) {
                            vstd::set_lib::lemma_set_empty_equivalency_len(self.pending_map().dom());
                        }
                    }
                }
            }
            assert forall|id: Seq<char>| #[trigger] peek_wanted(mid, old(self).path_view(), id)
                implies self.pending_map().contains_key(id) || out_ids(outs).contains(id) by {
                lemma_drained_keeps(p2, outs, id);
            }
            if old(self).answers_at_once() && (old(self).focus() matches Some(n) && n.children is Unloaded) {
                let fid = old(self).focus()->0.id;
                if !(exists|u: UpdateV| #![trigger updated_or_same(old(self).roots_view(), fid, u)]
                    u is Outcome && mid == updated_or_same(old(self).roots_view(), fid, u)) {
                    assert(p1.contains_key(fid));
                    assert(p2.contains_key(fid));
                    lemma_drained_keeps(p2, outs, fid);
                }
            }
            assert(focus_started(old(self).roots_view(), old(self).focus(), mid));
        }
    }
}

} // verus!

verus! {

// ---------------------------------------------------------------------------
// Keys, filtering and moving the selection
// ---------------------------------------------------------------------------

/// A key as the view sees it.
#[derive(Clone, Copy, PartialEq, Eq, Structural, Debug)]
pub enum Key {
    Up,
    Down,
    Left,
    Right,
    Enter,
    Esc,
    Backspace,
    Char(char),
    Other,
}

/// What a form for the focused command needs from the view.
pub struct FormTarget {
    pub bin: Vec<String>,
    pub separator: String,
    pub tool_id: String,
}

/// What handling a key led to.
pub enum KeyOutcome {
    /// The key was used by the view.
    Consumed,
    /// A run form for the focused command should open.
    OpenForm(FormTarget),
}

/// Whether a node passes the type-ahead filter: no filter or an empty one
/// passes everything; otherwise the query, lower-cased, must occur in the
/// lower-cased name or description.
pub open spec fn node_matches(n: NodeV, filter: Option<Seq<char>>) -> bool {
    match filter {
        None => true,
        Some(q) => q.len() == 0 || contains(unicode_lower(n.name), unicode_lower(q))
            || contains(unicode_lower(n.description), unicode_lower(q)),
    }
}

/// The positions among the first `n` of `col` that pass the filter.
pub open spec fn filtered_upto(col: Seq<NodeV>, filter: Option<Seq<char>>, n: int) -> Seq<usize>
    decreases n,
{
    if n <= 0 {
        seq![]
    } else if node_matches(col[n - 1], filter) {
        filtered_upto(col, filter, n - 1).push((n - 1) as usize)
    } else {
        filtered_upto(col, filter, n - 1)
    }
}

pub open spec fn filtered(col: Seq<NodeV>, filter: Option<Seq<char>>) -> Seq<usize> {
    filtered_upto(col, filter, col.len() as int)
}

/// The first position of `x` in `v` at or after `j`, or -1.
pub open spec fn position_of(v: Seq<usize>, x: usize, j: int) -> int
    decreases v.len() - j,
{
    if j < 0 || j >= v.len() {
        -1
    } else if v[j] == x {
        j
    } else {
        position_of(v, x, j + 1)
    }
}

/// Where a move one row down (`forward`) or up lands among `len` visible
/// rows, from row `pos`, wrapping around at either end.
pub open spec fn wrapped(pos: int, forward: bool, len: int) -> int {
    if forward {
        if pos + 1 >= len { 0 } else { pos + 1 }
    } else {
        if pos <= 0 { len - 1 } else { pos - 1 }
    }
}

/// The selection after moving one visible row down (`forward`) or up in the
/// active column, wrapping at the ends; from a hidden row the move counts
/// from the first visible one. Nothing moves when no row is visible.
pub open spec fn moved_path(roots: Seq<NodeV>, path: Seq<usize>, filter: Option<Seq<char>>, forward: bool) -> Seq<usize> {
    let d = active_depth_of(path);
    let vis = filtered(column_at(roots, path, d), filter);
    if vis.len() == 0 || d >= path.len() {
        path
    } else {
        let at = position_of(vis, path[d as int], 0);
        let pos = if at < 0 { 0 } else { at };
        path.update(d as int, vis[wrapped(pos, forward, vis.len() as int)])
    }
}

/// The selection after stepping back a column; the tools column is the
/// last one can step back to.
pub open spec fn ascended_path(path: Seq<usize>) -> Seq<usize> {
    if path.len() > 1 { path.drop_last() } else { path }
}

/// The selection after stepping into the focused node: its first child,
/// when it is a branch whose children are loaded and there are some.
pub open spec fn descended_path(roots: Seq<NodeV>, path: Seq<usize>) -> Seq<usize> {
    match focus_of(roots, path) {
        Some(n) => if expandable(n.kind) && (n.children matches ChildrenV::Loaded(c) && c.len() > 0) {
            path.push(0)
        } else {
            path
        },
        None => path,
    }
}

/// The query after Backspace: its last character dropped, or no filter
/// once there is none left to drop.
pub open spec fn shortened_filter(filter: Option<Seq<char>>) -> Option<Seq<char>> {
    match filter {
        Some(q) => if q.len() == 0 { None } else { Some(q.drop_last()) },
        None => None,
    }
}

/// The nodes selected in the first `n` columns, the tools column first; a
/// column whose selection is off its end adds nothing.
pub open spec fn chain_upto(roots: Seq<NodeV>, path: Seq<usize>, n: nat) -> Seq<NodeV>
    decreases n,
{
    if n == 0 {
        seq![]
    } else {
        let prev = chain_upto(roots, path, (n - 1) as nat);
        let col = column_at(roots, path, (n - 1) as nat);
        let idx = path[n - 1];
        if idx < col.len() { prev.push(col[idx as int]) } else { prev }
    }
}

/// The selection after the query changed: kept where its row still matches,
/// else moved to the first matching row; kept when nothing matches.
pub open spec fn snapped_path(roots: Seq<NodeV>, path: Seq<usize>, filter: Option<Seq<char>>) -> Seq<usize> {
    let d = active_depth_of(path);
    let vis = filtered(column_at(roots, path, d), filter);
    if d >= path.len() || vis.contains(path[d as int]) || vis.len() == 0 {
        path
    } else {
        path.update(d as int, vis[0])
    }
}

/// Where a command's form runs it from: its tool's binary argv, path
/// separator, and the tool.
pub struct TargetV {
    pub bin: Seq<Seq<char>>,
    pub separator: Seq<char>,
    pub tool_id: Seq<char>,
}

pub open spec fn target_view(t: FormTarget) -> TargetV {
    TargetV { bin: strs(t.bin@), separator: t.separator@, tool_id: t.tool_id@ }
}

/// The binary argv and separator of the last tool among the first `n` with
/// the id `id`: a later source of the same id replaces an earlier one.
pub open spec fn meta_for(metas: Seq<(String, ToolMeta)>, id: Seq<char>, n: int) -> Option<(Seq<Seq<char>>, Seq<char>)>
    decreases n,
{
    if n <= 0 || n > metas.len() {
        None
    } else if metas[n - 1].0@ == id {
        Some((strs(metas[n - 1].1.bin@), metas[n - 1].1.separator@))
    } else {
        meta_for(metas, id, n - 1)
    }
}

/// The forest once the focused node's load was started: as it was, the node
/// shown as loading, or its answer, found in cache, folded in.
pub open spec fn focus_started(roots: Seq<NodeV>, focus: Option<NodeV>, mid: Seq<NodeV>) -> bool {
    ||| mid == roots
    ||| (focus matches Some(n) && (mid == updated_or_same(roots, n.id, UpdateV::MarkLoading)
        || exists|u: UpdateV| #![trigger updated_or_same(roots, n.id, u)] u is Outcome && mid == updated_or_same(roots, n.id, u)))
}

/// The selection's node at level `d` is named `names[d]`.
pub open spec fn named_at(roots: Seq<NodeV>, path: Seq<usize>, names: Seq<&str>, d: int) -> bool {
    &&& 0 <= d < path.len()
    &&& path[d] < column_at(roots, path, d as nat).len()
    &&& column_at(roots, path, d as nat)[path[d] as int].name == names[d]@
}

/// The selection runs through commands named `names`, one per level, the
/// tools column first.
pub open spec fn selects_names(roots: Seq<NodeV>, path: Seq<usize>, names: Seq<&str>) -> bool {
    path.len() == names.len() && forall|d: int| 0 <= d < path.len() ==> #[trigger] named_at(roots, path, names, d)
}

/// No node of `col` has the name `name`.
pub open spec fn lacks_name(col: Seq<NodeV>, name: Seq<char>) -> bool {
    forall|k: int| 0 <= k < col.len() ==> #[trigger] col[k].name != name
}

pub open spec fn root_rank(tool_id: Seq<char>) -> u8 {
    if tool_id == "mise_tasks"@ {
        0
    } else if tool_id == "mise"@ {
        1
    } else {
        2
    }
}

/// The order of the tools column: the mise kernel first (tasks, then mise's
/// own CLI), then the rest by lower-cased name.
pub open spec fn key_le(a: (u8, Seq<char>), b: (u8, Seq<char>)) -> bool {
    a.0 < b.0 || (a.0 == b.0 && text_le(a.1, b.1))
}

pub open spec fn root_key(n: NodeV) -> (u8, Seq<char>) {
    (root_rank(n.tool_id), unicode_lower(n.name))
}

pub open spec fn sorted_roots(r: Seq<NodeV>) -> bool {
    forall|i: int, j: int| 0 <= i < j < r.len() ==> key_le(root_key(r[i]), root_key(r[j]))
}

proof fn lemma_key_le_total(a: (u8, Seq<char>), b: (u8, Seq<char>))
    ensures
        key_le(a, b) || key_le(b, a),
{
    lemma_text_le_total(a.1, b.1);
}

proof fn lemma_key_le_trans(a: (u8, Seq<char>), b: (u8, Seq<char>), c: (u8, Seq<char>))
    requires
        key_le(a, b),
        key_le(b, c),
    ensures
        key_le(a, c),
{
    if a.0 == b.0 && b.0 == c.0 {
        lemma_text_le_trans(a.1, b.1, c.1);
    }
}

fn rank_of(tool_id: &String) -> (r: u8)
    ensures
        r == root_rank(tool_id@),
{
    let c = chars_of(tool_id.as_str());
    let tasks = chars_of("mise_tasks");
    let mise = chars_of("mise");
    if eq_chars(c.as_slice(), tasks.as_slice()) {
        0
    } else if eq_chars(c.as_slice(), mise.as_slice()) {
        1
    } else {
        2
    }
}

fn key_le_exec(a: &(u8, Vec<char>), b: &(u8, Vec<char>)) -> (r: bool)
    ensures
        r == key_le((a.0, a.1@), (b.0, b.1@)),
{
    a.0 < b.0 || (a.0 == b.0 && text_le_exec(a.1.as_slice(), b.1.as_slice()))
}

/// A tool's place in the tools column.
pub open spec fn tool_key(t: (Seq<char>, Seq<char>)) -> (u8, Seq<char>) {
    (root_rank(t.0), unicode_lower(t.1))
}

/// `t` put after the last tool of `s` that sorts no later than it.
pub open spec fn insert_tool(s: Seq<(Seq<char>, Seq<char>)>, t: (Seq<char>, Seq<char>)) -> Seq<(Seq<char>, Seq<char>)>
    decreases s.len(),
{
    if s.len() == 0 {
        seq![t]
    } else if key_le(tool_key(s.last()), tool_key(t)) {
        s.push(t)
    } else {
        insert_tool(s.drop_last(), t).push(s.last())
    }
}

/// Tools (id, name) in column order, a stable sort: tools with equal keys
/// keep the order they came in.
pub open spec fn sorted_tools(ts: Seq<(Seq<char>, Seq<char>)>) -> Seq<(Seq<char>, Seq<char>)>
    decreases ts.len(),
{
    if ts.len() == 0 {
        seq![]
    } else {
        insert_tool(sorted_tools(ts.drop_last()), ts.last())
    }
}

proof fn lemma_insert_tool_at(tp: Seq<(Seq<char>, Seq<char>)>, x: (Seq<char>, Seq<char>), p: int)
    requires
        0 <= p <= tp.len(),
        forall|k: int| p <= k < tp.len() ==> !key_le(tool_key(#[trigger] tp[k]), tool_key(x)),
        p > 0 ==> key_le(tool_key(tp[p - 1]), tool_key(x)),
    ensures
        insert_tool(tp, x) == tp.insert(p, x),
    decreases tp.len(),
{
    if tp.len() == p {
        if p == 0 {
            assert(tp.insert(p, x) =~= seq![x]);
        } else {
            assert(tp.insert(p, x) =~= tp.push(x));
        }
    } else {
        let init = tp.drop_last();
        assert(!key_le(tool_key(tp[tp.len() - 1]), tool_key(x)));
        assert forall|k: int| p <= k < init.len() implies !key_le(tool_key(#[trigger] init[k]), tool_key(x)) by {
            assert(init[k] == tp[k]);
        }
        if p > 0 {
            assert(init[p - 1] == tp[p - 1]);
        }
        lemma_insert_tool_at(init, x, p);
        assert(init.insert(p, x).push(tp.last()) =~= tp.insert(p, x));
    }
}

/// The tools in column order; a stable insertion sort, so tools with equal
/// keys keep the order they came in.
fn sort_roots(nodes: Vec<Node>) -> (r: Vec<Node>)
    ensures
        sorted_roots(nodes_view(r@)),
        r@.len() == nodes@.len(),
        tool_pairs(r@).to_multiset() == tool_pairs(nodes@).to_multiset(),
        tool_pairs(r@) == sorted_tools(tool_pairs(nodes@)),
        (forall|k: int| 0 <= k < nodes@.len() ==> fresh_root(node_view(#[trigger] nodes@[k])))
            ==> forall|k: int| 0 <= k < r@.len() ==> fresh_root(node_view(#[trigger] r@[k])),
{
    let mut out: Vec<Node> = Vec::new();
    let mut keys: Vec<(u8, Vec<char>)> = Vec::new();
    let mut src = nodes;
    let ghost total = src@.len();
    let ghost all_fresh = forall|k: int| 0 <= k < nodes@.len() ==> fresh_root(node_view(#[trigger] nodes@[k]));
    proof {
        vstd::seq_lib::to_multiset_len(tool_pairs(out@));
        vstd::multiset::lemma_multiset_empty_len(tool_pairs(out@).to_multiset());
        assert(tool_pairs(out@).to_multiset().add(tool_pairs(src@).to_multiset()) =~= tool_pairs(nodes@).to_multiset());
        assert(tool_pairs(nodes@).take(0) =~= Seq::<(Seq<char>, Seq<char>)>::empty());
        assert(tool_pairs(out@) =~= Seq::<(Seq<char>, Seq<char>)>::empty());
        assert(tool_pairs(nodes@).skip(0) =~= tool_pairs(nodes@));
    }
    while src.len() > 0
        invariant
            out@.len() == keys@.len(),
            out@.len() + src@.len() == total,
            tool_pairs(out@).to_multiset().add(tool_pairs(src@).to_multiset()) == tool_pairs(nodes@).to_multiset(),
            tool_pairs(out@) == sorted_tools(tool_pairs(nodes@).take(total - src@.len())),
            tool_pairs(src@) == tool_pairs(nodes@).skip(total - src@.len()),
            total == nodes@.len(),
            all_fresh == (forall|k: int| 0 <= k < nodes@.len() ==> fresh_root(node_view(#[trigger] nodes@[k]))),
            all_fresh ==> forall|k: int| 0 <= k < out@.len() ==> fresh_root(node_view(#[trigger] out@[k])),
            all_fresh ==> forall|k: int| 0 <= k < src@.len() ==> fresh_root(node_view(#[trigger] src@[k])),
            forall|k: int| 0 <= k < keys@.len() ==> (#[trigger] keys@[k]).0 == root_key(node_view(out@[k])).0
                && keys@[k].1@ == root_key(node_view(out@[k])).1,
            forall|i: int, j: int| 0 <= i < j < out@.len() ==> key_le(root_key(node_view(#[trigger] out@[i])), root_key(node_view(#[trigger] out@[j]))),
        decreases src@.len(),
    {
        let ghost src_before = src@;
        let n = src.remove(0);
        proof {
            assert(tool_pairs(src@) =~= tool_pairs(src_before).remove(0));
            vstd::seq_lib::to_multiset_remove(tool_pairs(src_before), 0);
            assert(src_before[0] == n);
            assert forall|k: int| 0 <= k < src@.len() implies (all_fresh ==> fresh_root(node_view(#[trigger] src@[k]))) by {
                assert(src@[k] == src_before[k + 1]);
            }
        }
        let lower = to_lowercase(n.name.as_str());
        let key: (u8, Vec<char>) = (rank_of(&n.tool_id), chars_of(lower.as_str()));
        let ghost kn = root_key(node_view(n));
        assert(key.0 == kn.0 && key.1@ == kn.1);
        let mut p: usize = out.len();
        while p > 0 && !key_le_exec(&keys[p - 1], &key)
            invariant
                p <= out@.len(),
                out@.len() == keys@.len(),
                key.0 == kn.0 && key.1@ == kn.1,
                forall|k: int| 0 <= k < keys@.len() ==> (#[trigger] keys@[k]).0 == root_key(node_view(out@[k])).0
                    && keys@[k].1@ == root_key(node_view(out@[k])).1,
                forall|k: int| p <= k < out@.len() ==> !key_le(root_key(node_view(#[trigger] out@[k])), kn),
            decreases p,
        {
            proof {
                assert(keys@[p - 1].0 == root_key(node_view(out@[p - 1])).0);
                assert((keys@[p - 1].0, keys@[p - 1].1@) == root_key(node_view(out@[p - 1])));
                assert((key.0, key.1@) == kn);
            }
            p -= 1;
        }
        proof {
            if p > 0 {
                assert((keys@[p - 1].0, keys@[p - 1].1@) == root_key(node_view(out@[p - 1])));
                assert((key.0, key.1@) == kn);
            }
        }
        proof {
            assert forall|k: int| p <= k < out@.len() implies key_le(kn, root_key(node_view(#[trigger] out@[k]))) by {
                lemma_key_le_total(kn, root_key(node_view(out@[k])));
            }
            if p > 0 {
                assert forall|k: int| 0 <= k < p implies key_le(root_key(node_view(#[trigger] out@[k])), kn) by {
                    if k < p - 1 {
                        lemma_key_le_trans(root_key(node_view(out@[k])), root_key(node_view(out@[p - 1])), kn);
                    }
                }
            }
        }
        let ghost before = out@;
        proof {
            let tp = tool_pairs(before);
            let x = (n.tool_id@, n.name@);
            let c = total - src_before.len();
            assert forall|k: int| p <= k < tp.len() implies !key_le(tool_key(#[trigger] tp[k]), tool_key(x)) by {
                assert(root_key(node_view(before[k])) == tool_key(tp[k]));
            }
            if p > 0 {
                assert(root_key(node_view(before[p - 1])) == tool_key(tp[p - 1]));
            }
            assert(root_key(node_view(n)) == tool_key(x));
            lemma_insert_tool_at(tp, x, p as int);
            let all = tool_pairs(nodes@);
            assert(tool_pairs(src_before)[0] == x);
            assert(all[c] == x);
            assert(all.take(c + 1).drop_last() =~= all.take(c));
            assert(all.take(c + 1).last() == x);
            assert(tool_pairs(src@) =~= all.skip(c + 1));
        }
        out.insert(p, n);
        keys.insert(p, key);
        proof {
            assert(tool_pairs(out@) =~= tool_pairs(before).insert(p as int, (n.tool_id@, n.name@)));
            vstd::seq_lib::to_multiset_insert(tool_pairs(before), p as int, (n.tool_id@, n.name@));
            assert(tool_pairs(src_before).to_multiset().contains((n.tool_id@, n.name@))) by {
                assert(tool_pairs(src_before)[0] == (n.tool_id@, n.name@));
                vstd::seq_lib::to_multiset_contains(tool_pairs(src_before), (n.tool_id@, n.name@));
            }
            assert(tool_pairs(out@).to_multiset().add(tool_pairs(src@).to_multiset()) =~= tool_pairs(before).to_multiset().add(
                tool_pairs(src_before).to_multiset()));
            assert forall|k: int| 0 <= k < out@.len() implies (all_fresh ==> fresh_root(node_view(#[trigger] out@[k]))) by {
                if k < p {
                    assert(out@[k] == before[k]);
                } else if k > p {
                    assert(out@[k] == before[k - 1]);
                }
            }
            assert forall|i: int, j: int| 0 <= i < j < out@.len() implies key_le(root_key(node_view(#[trigger] out@[i])), root_key(node_view(#[trigger] out@[j]))) by {
                if j < p {
                    assert(out@[i] == before[i] && out@[j] == before[j]);
                } else if j == p {
                    assert(out@[i] == before[i]);
                } else if i == p {
                    assert(out@[j] == before[j - 1]);
                } else if i < p {
                    assert(out@[i] == before[i] && out@[j] == before[j - 1]);
                    lemma_key_le_trans(root_key(node_view(before[i])), kn, root_key(node_view(before[j - 1])));
                } else {
                    assert(out@[i] == before[i - 1] && out@[j] == before[j - 1]);
                }
            }
        }
    }
    proof {
        lemma_nodes_view(out@);
        vstd::seq_lib::to_multiset_len(tool_pairs(src@));
        vstd::multiset::lemma_multiset_empty_len(tool_pairs(src@).to_multiset());
        assert(tool_pairs(out@).to_multiset().add(Multiset::empty()) =~= tool_pairs(out@).to_multiset());
        assert(tool_pairs(nodes@).take(total as int) =~= tool_pairs(nodes@));
    }
    out
}

/// The tool id and name of each node.
pub open spec fn tool_pairs(s: Seq<Node>) -> Seq<(Seq<char>, Seq<char>)> {
    s.map_values(|n: Node| (n.tool_id@, n.name@))
}

impl<L: Loader, M: FormMemory, E: EnvSource> MillerView<L, M, E> {
    /// Whether `node` passes the current filter.
    fn matches_filter(&self, node: &Node) -> (r: bool)
        ensures
            r == node_matches(node_view(*node), self.filter_view()),
    {
        match &self.filter {
            None => true,
            Some(q) => {
                if q.as_str().is_empty() {
                    return true;
                }
                let ql = to_lowercase(q.as_str());
                let qc = chars_of(ql.as_str());
                let nl = to_lowercase(node.name.as_str());
                let nc = chars_of(nl.as_str());
                if contains_in(nc.as_slice(), qc.as_slice()) {
                    return true;
                }
                let dl = to_lowercase(node.description.as_str());
                let dc = chars_of(dl.as_str());
                contains_in(dc.as_slice(), qc.as_slice())
            },
        }
    }

    /// Positions in the active column that pass the filter.
    pub fn filtered_indices(&self) -> (r: Vec<usize>)
        ensures
            r@ == filtered(self.column(active_depth_of(self.path_view())), self.filter_view()),
    {
        let depth = self.active_depth();
        let col = self.column_nodes(depth);
        let ghost cv = nodes_view(col@);
        proof {
            lemma_nodes_view(col@);
        }
        let mut out: Vec<usize> = Vec::new();
        let mut i: usize = 0;
        while i < col.len()
            invariant
                i <= col@.len(),
                cv == nodes_view(col@),
                cv.len() == col@.len(),
                forall|k: int| 0 <= k < col@.len() ==> #[trigger] cv[k] == node_view(col@[k]),
                out@ == filtered_upto(cv, self.filter_view(), i as int),
            decreases col@.len() - i,
        {
            if self.matches_filter(&col[i]) {
                out.push(i);
            }
            i += 1;
        }
        out
    }

    fn clear_filter(&mut self)
        ensures
            final(self).filter_view() is None,
            final(self).roots_view() == old(self).roots_view(),
            final(self).path_view() == old(self).path_view(),
            final(self).pending_map() == old(self).pending_map(),
            final(self).wf() == old(self).wf(),
    {
        self.filter = None;
    }

    fn start_filter(&mut self)
        ensures
            final(self).filter_view() == Some(Seq::<char>::empty()),
            final(self).roots_view() == old(self).roots_view(),
            final(self).path_view() == old(self).path_view(),
            final(self).wf() == old(self).wf(),
    {
        self.filter = Some(String::new());
    }

    /// Whether the selected row is shown: false only while a filter hides it.
    fn selection_visible(&self) -> (r: bool)
        ensures
            r == (self.filter_view() is None || (active_depth_of(self.path_view()) < self.path_view().len()
                && filtered(self.column(active_depth_of(self.path_view())), self.filter_view()).contains(
                self.path_view()[active_depth_of(self.path_view()) as int],
            ))),
    {
        if self.filter.is_none() {
            return true;
        }
        let depth = self.active_depth();
        if depth >= self.path.len() {
            return false;
        }
        let cur = self.path[depth];
        let vis = self.filtered_indices();
        let mut i: usize = 0;
        while i < vis.len()
            invariant
                i <= vis@.len(),
                depth == active_depth_of(self.path_view()),
                depth < self.path_view().len(),
                cur == self.path_view()[depth as int],
                vis@ == filtered(self.column(depth as nat), self.filter_view()),
                self.filter_view() is Some,
                forall|k: int| 0 <= k < i ==> vis@[k] != cur,
            decreases vis@.len() - i,
        {
            if vis[i] == cur {
                assert(vis@[i as int] == cur);
                assert(vis@.contains(cur));
                return true;
            }
            i += 1;
        }
        false
    }

    /// Move the selection one row down (`forward`) or up among the visible
    /// rows, wrapping at the ends.
    fn move_selection(&mut self, forward: bool)
        requires
            old(self).wf(),
        ensures
            final(self).wf(),
            final(self).roots_view() == old(self).roots_view(),
            final(self).filter_view() == old(self).filter_view(),
            final(self).pending_map() == old(self).pending_map(),
            final(self).pending_view() == old(self).pending_view(),
            final(self).path_view() == moved_path(old(self).roots_view(), old(self).path_view(), old(self).filter_view(), forward),
    {
        let depth = self.active_depth();
        let visible = self.filtered_indices();
        if visible.len() == 0 || depth >= self.path.len() {
            return;
        }
        let cur = self.path[depth];
        let mut pos: usize = 0;
        let mut i: usize = 0;
        let mut found = false;
        while i < visible.len()
            invariant
                i <= visible@.len(),
                !found ==> pos == 0,
                position_of(visible@, cur, 0) == if found { pos as int } else { position_of(visible@, cur, i as int) },
                found ==> pos < visible@.len(),
            decreases visible@.len() - i,
        {
            if !found && visible[i] == cur {
                pos = i;
                found = true;
            }
            if !found {
                assert(position_of(visible@, cur, i as int) == position_of(visible@, cur, i + 1));
            }
            i += 1;
        }
        proof {
            if !found {
                assert(position_of(visible@, cur, i as int) == -1);
            }
        }
        let len = visible.len();
        let n: usize = if forward {
            if pos + 1 >= len { 0 } else { pos + 1 }
        } else {
            if pos == 0 { len - 1 } else { pos - 1 }
        };
        self.path.set(depth, visible[n]);
    }
}

} // verus!

verus! {

impl<L: Loader, M: FormMemory, E: EnvSource> MillerView<L, M, E> {
    /// Open the focused node: step into its children when they are loaded,
    /// or start loading them. Nothing happens while a filter hides the
    /// selection, or for a leaf.
    fn descend(&mut self)
        requires
            old(self).wf(),
        ensures
            final(self).wf(),
            !old(self).selection_visible_spec() ==> *final(self) == *old(self),
            old(self).selection_visible_spec() ==> final(self).filter_view() is None,
            old(self).selection_visible_spec() ==> final(self).path_view() == descended_path(old(self).roots_view(), old(self).path_view()),
    {
        if !self.selection_visible() {
            return;
        }
        self.clear_filter();
        let act: u8 = match self.focused() {
            None => 0,
            Some(n) => {
                if !n.is_expandable() {
                    0
                } else {
                    match &n.children {
                        Children::Loaded(c) => if c.len() > 0 { 1 } else { 0 },
                        Children::Unloaded => 2,
                        Children::Loading => 0,
                    }
                }
            },
        };
        if act == 1 {
            self.path.push(0);
            self.ensure_focused_loading();
        } else if act == 2 {
            self.ensure_focused_loading();
        }
    }

    /// Where the focused command is run from: the binary and separator of its
    /// tool, when the selection is shown and the command is loaded and
    /// runnable and its tool is known.
    pub closed spec fn form_target(&self) -> Option<TargetV> {
        if self.selection_visible_spec() && (self.focus() matches Some(n) && n.runnable && n.children is Loaded) {
            let n = self.focus()->0;
            match meta_for(self.tool_meta@, n.tool_id, self.tool_meta@.len() as int) {
                Some((b, sep)) => Some(TargetV { bin: b, separator: sep, tool_id: n.tool_id }),
                None => None,
            }
        } else {
            None
        }
    }

    /// What Enter opens: the form target of a focused command with nothing
    /// below it.
    pub closed spec fn leaf_target(&self) -> Option<TargetV> {
        if self.focus() matches Some(n) && n.children matches ChildrenV::Loaded(c) && c.len() == 0 {
            self.form_target()
        } else {
            None
        }
    }

    pub closed spec fn selection_visible_spec(&self) -> bool {
        self.filter_view() is None || (active_depth_of(self.path_view()) < self.path_view().len()
            && filtered(self.column(active_depth_of(self.path_view())), self.filter_view()).contains(
            self.path_view()[active_depth_of(self.path_view()) as int],
        ))
    }

    /// Step back to the parent column (the tools column is the last).
    fn ascend(&mut self)
        requires
            old(self).wf(),
        ensures
            final(self).wf(),
            final(self).filter_view() is None,
            final(self).roots_view() == old(self).roots_view(),
            final(self).path_view() == ascended_path(old(self).path_view()),
    {
        self.clear_filter();
        if self.path.len() > 1 {
            self.path.pop();
        }
    }

    /// Keep the selection on a matching row as the query changes.
    fn snap_to_filter(&mut self)
        requires
            old(self).wf(),
        ensures
            final(self).wf(),
            final(self).roots_view() == old(self).roots_view(),
            final(self).filter_view() == old(self).filter_view(),
            final(self).pending_map() == old(self).pending_map(),
            final(self).path_view() == snapped_path(old(self).roots_view(), old(self).path_view(), old(self).filter_view()),
    {
        let depth = self.active_depth();
        if depth >= self.path.len() {
            return;
        }
        let visible = self.filtered_indices();
        let cur = self.path[depth];
        let mut i: usize = 0;
        let mut shown = false;
        while i < visible.len()
            invariant
                i <= visible@.len(),
                shown == visible@.take(i as int).contains(cur),
            decreases visible@.len() - i,
        {
            let ghost t0 = visible@.take(i as int);
            let ghost t1 = visible@.take(i + 1);
            assert(t1 =~= t0.push(visible@[i as int]));
            if visible[i] == cur {
                shown = true;
                assert(t1[i as int] == cur);
            } else {
                proof {
                    if t0.contains(cur) {
                        let w = choose|w: int| 0 <= w < t0.len() && t0[w] == cur;
                        assert(t1[w] == cur);
                    }
                    if t1.contains(cur) {
                        let w = choose|w: int| 0 <= w < t1.len() && t1[w] == cur;
                        assert(w < i);
                        assert(t0[w] == cur);
                    }
                }
            }
            i += 1;
        }
        assert(visible@.take(i as int) =~= visible@);
        if !shown && visible.len() > 0 {
            self.path.set(depth, visible[0]);
        }
    }

    /// A key typed while filtering: `Esc` clears the filter, `Backspace`
    /// drops the query's last character (clearing the filter when there is
    /// none), any other character extends the query.
    fn filter_input(&mut self, key: Key)
        requires
            old(self).wf(),
        ensures
            final(self).wf(),
            final(self).roots_view() == old(self).roots_view(),
            key is Esc ==> final(self).filter_view() is None,
            (key is Char && old(self).filter_view() is Some) ==> final(self).filter_view() == Some(
                old(self).filter_view()->0.push(key->0),
            ),
            key is Backspace ==> final(self).filter_view() == shortened_filter(old(self).filter_view()),
            key is Esc ==> final(self).path_view() == old(self).path_view(),
            (key is Char && old(self).filter_view() is Some) ==> final(self).path_view() == snapped_path(
                old(self).roots_view(), old(self).path_view(), Some(old(self).filter_view()->0.push(key->0))),
            key is Backspace ==> final(self).path_view() == snapped_path(
                old(self).roots_view(), old(self).path_view(), shortened_filter(old(self).filter_view())),
    {
        match key {
            Key::Esc => self.clear_filter(),
            Key::Backspace => {
                let emptied = match self.filter.as_mut() {
                    Some(q) => {
                        let cs = chars_of(q.as_str());
                        if cs.len() == 0 {
                            true
                        } else {
                            let shorter = crate::text::to_string(&cs.as_slice()[0..cs.len() - 1]);
                            *q = shorter;
                            false
                        }
                    },
                    None => false,
                };
                if emptied {
                    self.clear_filter();
                }
                self.snap_to_filter();
            },
            Key::Char(c) => {
                match self.filter.as_mut() {
                    Some(q) => crate::text::push_char(q, c),
                    None => {},
                }
                self.snap_to_filter();
            },
            _ => {},
        }
    }

    /// The focused command's form target, once its own help has loaded and
    /// it is runnable.
    fn run_focused(&self) -> (r: Option<FormTarget>)
        ensures
            r is Some ==> (self.selection_visible_spec() && (self.focus() matches Some(n) && n.runnable
                && n.children is Loaded)),
            match r {
                Some(t) => self.form_target() == Some(target_view(t)),
                None => self.form_target() is None,
            },
    {
        if !self.selection_visible() {
            return None;
        }
        let n = match self.focused() {
            Some(n) => n,
            None => return None,
        };
        let loaded = match n.children {
            Children::Loaded(_) => true,
            _ => false,
        };
        if !loaded || !n.runnable {
            return None;
        }
        let want = chars_of(n.tool_id.as_str());
        let mut i: usize = self.tool_meta.len();
        while i > 0
            invariant
                i <= self.tool_meta@.len(),
                self.selection_visible_spec(),
                self.focus() == Some(node_view(*n)),
                n.runnable,
                n.children is Loaded,
                want@ == n.tool_id@,
                meta_for(self.tool_meta@, n.tool_id@, self.tool_meta@.len() as int) == meta_for(self.tool_meta@, n.tool_id@, i as int),
            decreases i,
        {
            let c = chars_of(self.tool_meta[i - 1].0.as_str());
            if eq_chars(c.as_slice(), want.as_slice()) {
                let meta = &self.tool_meta[i - 1].1;
                let t = FormTarget {
                    bin: copy_strings(&meta.bin),
                    separator: meta.separator.clone(),
                    tool_id: n.tool_id.clone(),
                };
                assert(target_view(t) == (TargetV { bin: strs(meta.bin@), separator: meta.separator@, tool_id: n.tool_id@ }));
                return Some(t);
            }
            i -= 1;
        }
        None
    }

    /// Enter, the primary action: descend a branch, run a leaf, or load
    /// what is not resolved yet.
    fn activate(&mut self) -> (r: Option<FormTarget>)
        requires
            old(self).wf(),
        ensures
            final(self).wf(),
            r is Some ==> (old(self).focus() matches Some(n) && n.runnable && n.children is Loaded),
            match r {
                Some(t) => old(self).leaf_target() == Some(target_view(t)),
                None => old(self).leaf_target() is None,
            },
            !old(self).selection_visible_spec() ==> *final(self) == *old(self),
            (old(self).selection_visible_spec() && (old(self).focus() matches Some(n) && n.children matches ChildrenV::Loaded(c)
                && c.len() > 0)) ==> final(self).path_view() == descended_path(old(self).roots_view(), old(self).path_view())
                && final(self).filter_view() is None,
    {
        if !self.selection_visible() {
            return None;
        }
        let act: u8 = match self.focused() {
            None => return None,
            Some(n) => match &n.children {
                Children::Loaded(c) => if c.len() > 0 { 0 } else { 1 },
                _ => 2,
            },
        };
        if act == 0 {
            self.descend();
            None
        } else if act == 1 {
            self.run_focused()
        } else {
            self.ensure_focused_loading();
            None
        }
    }

    /// The ancestors of the focused node, tool first, ending at the focused
    /// node itself.
    pub fn ancestor_chain(&self) -> (r: Vec<&Node>)
        ensures
            r@.map_values(|n: &Node| node_view(*n)) == chain_upto(self.roots_view(), self.path_view(), self.path_view().len()),
    {
        let mut out: Vec<&Node> = Vec::new();
        let mut d: usize = 0;
        while d < self.path.len()
            invariant
                d <= self.path_view().len(),
                out@.map_values(|n: &Node| node_view(*n)) == chain_upto(self.roots_view(), self.path_view(), d as nat),
            decreases self.path_view().len() - d,
        {
            let col = self.column_nodes(d);
            let idx = self.path[d];
            proof {
                lemma_nodes_view(col@);
            }
            let ghost before = out@;
            if idx < col.len() {
                out.push(&col[idx]);
                assert(out@.map_values(|n: &Node| node_view(*n)) =~= before.map_values(|n: &Node| node_view(*n)).push(node_view(col@[idx as int])));
            }
            d += 1;
        }
        out
    }

    /// Handle one key; `None` when the view has no use for it.
    pub fn handle_key(&mut self, key: Key) -> (r: Option<KeyOutcome>)
        requires
            old(self).wf(),
        ensures
            final(self).wf(),
            old(self).filter_view() is Some ==> r is Some,
            (old(self).filter_view() is None && (key is Esc || key is Backspace || key is Other
                || (key matches Key::Char(c) && c != 'j' && c != 'k' && c != 'l' && c != 'h' && c != 'r' && c != '/')))
                ==> (r is None && *final(self) == *old(self)),
            // Without a filter: moving, stepping out and in, and starting one.
            (old(self).filter_view() is None && (key is Down || key == Key::Char('j') || key is Up || key == Key::Char('k')))
                ==> (r matches Some(KeyOutcome::Consumed) && final(self).filter_view() is None
                && final(self).roots_view() == old(self).roots_view()
                && final(self).pending_view() == old(self).pending_view()
                && final(self).path_view() == moved_path(old(self).roots_view(), old(self).path_view(), None,
                key is Down || key == Key::Char('j'))),
            (old(self).filter_view() is None && (key is Left || key == Key::Char('h')))
                ==> (r matches Some(KeyOutcome::Consumed) && final(self).filter_view() is None
                && final(self).roots_view() == old(self).roots_view()
                && final(self).path_view() == ascended_path(old(self).path_view())),
            (old(self).filter_view() is None && (key is Right || key == Key::Char('l')))
                ==> (r matches Some(KeyOutcome::Consumed) && final(self).filter_view() is None
                && final(self).path_view() == descended_path(old(self).roots_view(), old(self).path_view())),
            (old(self).filter_view() is None && key == Key::Char('/'))
                ==> (r matches Some(KeyOutcome::Consumed) && final(self).filter_view() == Some(Seq::<char>::empty())
                && final(self).roots_view() == old(self).roots_view() && final(self).path_view() == old(self).path_view()),
            // Enter, and `r` without a filter, open a form only for a loaded runnable node.
            (key is Enter || (old(self).filter_view() is None && key == Key::Char('r'))) ==> (r is Some
                && (r matches Some(KeyOutcome::OpenForm(_)) ==> (old(self).focus() matches Some(n) && n.runnable
                && n.children is Loaded))),
            // Enter opens the form of a loaded command with nothing below it.
            key is Enter ==> (match r {
                Some(KeyOutcome::OpenForm(t)) => old(self).leaf_target() == Some(target_view(t)),
                _ => old(self).leaf_target() is None,
            }),
            // While filtering: moving among the matching rows, and editing the query.
            (old(self).filter_view() is Some && (key is Down || key is Up)) ==> (final(self).filter_view() == old(self).filter_view()
                && final(self).roots_view() == old(self).roots_view()
                && final(self).pending_view() == old(self).pending_view()
                && final(self).path_view() == moved_path(old(self).roots_view(), old(self).path_view(), old(self).filter_view(), key is Down)),
            (old(self).filter_view() is Some && key is Left) ==> (final(self).filter_view() is None
                && final(self).roots_view() == old(self).roots_view()
                && final(self).path_view() == ascended_path(old(self).path_view())),
            (old(self).filter_view() is Some && key is Right) ==> (if old(self).selection_visible_spec() {
                final(self).filter_view() is None && final(self).path_view() == descended_path(old(self).roots_view(), old(self).path_view())
            } else {
                *final(self) == *old(self)
            }),
            (old(self).filter_view() is Some && key is Esc) ==> final(self).filter_view() is None,
            (old(self).filter_view() is Some && key is Char) ==> (final(self).filter_view() == Some(old(self).filter_view()->0.push(key->0))
                && final(self).roots_view() == old(self).roots_view()
                && final(self).path_view() == snapped_path(old(self).roots_view(), old(self).path_view(),
                Some(old(self).filter_view()->0.push(key->0)))),
            (old(self).filter_view() is Some && key is Backspace) ==> (final(self).filter_view() == shortened_filter(old(self).filter_view())
                && final(self).roots_view() == old(self).roots_view()
                && final(self).path_view() == snapped_path(old(self).roots_view(), old(self).path_view(),
                shortened_filter(old(self).filter_view()))),
            (old(self).filter_view() is Some && key is Esc) ==> (final(self).roots_view() == old(self).roots_view()
                && final(self).path_view() == old(self).path_view()),
            // Enter while filtering acts on the selection only where the filter shows it.
            (old(self).filter_view() is Some && key is Enter && !old(self).selection_visible_spec())
                ==> (r matches Some(KeyOutcome::Consumed) && *final(self) == *old(self)),
            // Enter on a loaded node with children steps into them.
            (key is Enter && old(self).selection_visible_spec() && (old(self).focus() matches Some(n)
                && n.children matches ChildrenV::Loaded(c) && c.len() > 0))
                ==> (r matches Some(KeyOutcome::Consumed) && final(self).filter_view() is None
                && final(self).path_view() == descended_path(old(self).roots_view(), old(self).path_view())),
            // `r` without a filter opens the form of the focused command once it can run.
            (old(self).filter_view() is None && key == Key::Char('r')) ==> (match r {
                Some(KeyOutcome::OpenForm(t)) => old(self).form_target() == Some(target_view(t)),
                _ => old(self).form_target() is None,
            }),
    {
        if self.filter.is_some() {
            match key {
                Key::Up => self.move_selection(false),
                Key::Down => self.move_selection(true),
                Key::Left => self.ascend(),
                Key::Right => self.descend(),
                Key::Enter => {
                    return match self.activate() {
                        Some(t) => Some(KeyOutcome::OpenForm(t)),
                        None => Some(KeyOutcome::Consumed),
                    };
                },
                other => self.filter_input(other),
            }
            return Some(KeyOutcome::Consumed);
        }
        match key {
            Key::Down | Key::Char('j') => {
                self.move_selection(true);
                Some(KeyOutcome::Consumed)
            },
            Key::Up | Key::Char('k') => {
                self.move_selection(false);
                Some(KeyOutcome::Consumed)
            },
            Key::Right | Key::Char('l') => {
                self.descend();
                Some(KeyOutcome::Consumed)
            },
            Key::Left | Key::Char('h') => {
                self.ascend();
                Some(KeyOutcome::Consumed)
            },
            Key::Enter => match self.activate() {
                Some(t) => Some(KeyOutcome::OpenForm(t)),
                None => Some(KeyOutcome::Consumed),
            },
            Key::Char('r') => match self.run_focused() {
                Some(t) => Some(KeyOutcome::OpenForm(t)),
                None => {
                    self.ensure_focused_loading();
                    Some(KeyOutcome::Consumed)
                },
            },
            Key::Char('/') => {
                self.start_filter();
                Some(KeyOutcome::Consumed)
            },
            _ => None,
        }
    }

    /// An idle tick: advance the spinner, fold in finished loads, and start
    /// the focused load and the background peeks.
    pub fn on_idle(&mut self)
        requires
            old(self).wf(),
        ensures
            final(self).wf(),
            final(self).answers_at_once() == old(self).answers_at_once(),
            final(self).path_view() == old(self).path_view(),
            final(self).spinner_view() == (if old(self).spinner_view() == usize::MAX { 0 } else { old(self).spinner_view() + 1 }),
    {
        self.spinner = self.spinner.wrapping_add(1);
        self.integrate_results();
        self.ensure_focused_loading();
        self.peek_visible();
    }
}

} // verus!

verus! {

/// A tool's root node: nothing is known of it until its help is read, so its
/// expandability is unknown and its children unloaded.
pub open spec fn fresh_root(n: NodeV) -> bool {
    n.kind == NodeKind::Unknown && !n.runnable && n.children is Unloaded && n.description.len() == 0
        && n.id == n.tool_id && n.command_path.len() == 0
}

/// An id and a name that a source's `tool_id` and `tool_name` can give.
pub open spec fn offers<S: Source>(s: S, tool: (Seq<char>, Seq<char>)) -> bool {
    &&& exists|id: String| #[trigger] call_ensures(S::tool_id, (&s,), id) && id@ == tool.0
    &&& exists|name: String| #[trigger] call_ensures(S::tool_name, (&s,), name) && name@ == tool.1
}

/// The tool id and name of each node of a column.
pub open spec fn top_tools(roots: Seq<NodeV>) -> Seq<(Seq<char>, Seq<char>)> {
    roots.map_values(|n: NodeV| (n.tool_id, n.name))
}

/// A map of pending loads has one entry per load.
proof fn lemma_pmap_len(p: Seq<(String, Priority)>)
    requires
        unique_ids(pending_ids(p)),
    ensures
        pmap(p).dom().finite(),
        pmap(p).dom().len() == p.len(),
    decreases p.len(),
{
    if p.len() > 0 {
        let q = p.drop_last();
        assert(unique_ids(pending_ids(q))) by {
            assert forall|i: int, j: int| 0 <= i < j < pending_ids(q).len() implies pending_ids(q)[i] != pending_ids(q)[j] by {
                assert(pending_ids(q)[i] == pending_ids(p)[i]);
                assert(pending_ids(q)[j] == pending_ids(p)[j]);
            }
        }
        lemma_pmap_len(q);
        lemma_pmap_has(q);
        if pmap(q).contains_key(p.last().0@) {
            let k = choose|k: int| 0 <= k < q.len() && q[k].0@ == p.last().0@;
            assert(pending_ids(p)[k] == pending_ids(p)[p.len() - 1]);
        }
        assert(pmap(p).dom() == pmap(q).dom().insert(p.last().0@));
    }
}

impl<L: Loader, M: FormMemory, E: EnvSource> MillerView<L, M, E> {
    /// A view of the tools `sources` offers, loading through the loader
    /// `make_loader` builds from them, remembering form fills in `memory`
    /// and pre-filling from `env`. The tools column holds one fresh root per
    /// source, carrying the id and name the source gives, in column order
    /// (tools that sort alike keep the order of `sources`);
    /// the focused tool (the first) starts loading at once, and is loaded
    /// already where the loader answers at once.
    pub fn with_loader_and_memory<S: Source, F: FnOnce(Vec<S>) -> L>(sources: Vec<S>, make_loader: F, memory: M, env: E) -> (r: Self)
        requires
            forall|v: Vec<S>| make_loader.requires((v,)),
        ensures
            r.wf(),
            r.roots_view().len() == sources@.len(),
            sorted_roots(r.roots_view()),
            r.path_view() == (if sources@.len() == 0 { Seq::<usize>::empty() } else { seq![0usize] }),
            r.filter_view() is None,
            exists|l: L| #[trigger] call_ensures(make_loader, (sources,), l) && l.answers_at_once() == r.answers_at_once(),
            exists|tools: Seq<(Seq<char>, Seq<char>)>|
                #![trigger tools.to_multiset()]
                tools.len() == sources@.len() && (forall|k: int| 0 <= k < tools.len() ==> offers(sources@[k], #[trigger] tools[k]))
                    && top_tools(r.roots_view()).to_multiset() == tools.to_multiset()
                    && top_tools(r.roots_view()) == sorted_tools(tools),
            forall|k: int| 0 < k < r.roots_view().len() ==> fresh_root(#[trigger] r.roots_view()[k]),
            sources@.len() == 0 ==> r.pending_view().len() == 0,
            sources@.len() > 0 ==> {
                let n = r.roots_view()[0];
                &&& n.id == n.tool_id && n.command_path.len() == 0
                &&& ((r.pending_view() == seq![n.id] && n.children is Loading)
                    || (r.pending_view().len() == 0 && n.children is Loaded))
            },
    {
        let mut roots: Vec<Node> = Vec::new();
        let mut tool_meta: Vec<(String, ToolMeta)> = Vec::new();
        let ghost mut tools: Seq<(Seq<char>, Seq<char>)> = seq![];
        let mut i: usize = 0;
        while i < sources.len()
            invariant
                i <= sources@.len(),
                roots@.len() == i,
                tools == tool_pairs(roots@),
                forall|k: int| 0 <= k < i ==> fresh_root(node_view(#[trigger] roots@[k])),
                forall|k: int| 0 <= k < i ==> offers(sources@[k], #[trigger] tools[k]),
            decreases sources@.len() - i,
        {
            let source = &sources[i];
            let id = source.tool_id();
            let name = source.tool_name();
            proof {
                assert(call_ensures(S::tool_id, (source,), id));
                assert(call_ensures(S::tool_name, (source,), name));
                assert(offers(sources@[i as int], (id@, name@)));
            }
            tool_meta.push((id.clone(), ToolMeta { bin: source.tool_bin(), separator: source.tool_path_separator() }));
            let n = Node {
                id: id.clone(),
                name,
                description: String::new(),
                kind: NodeKind::Unknown,
                runnable: false,
                flags: Vec::new(),
                args: Vec::new(),
                tool_id: id,
                command_path: Vec::new(),
                children: Children::Unloaded,
            };
            assert(node_view(n).command_path =~= Seq::<Seq<char>>::empty());
            let ghost before = roots@;
            roots.push(n);
            proof {
                tools = tools.push((n.tool_id@, n.name@));
                assert(tools =~= tool_pairs(roots@));
                assert forall|k: int| 0 <= k < i + 1 implies fresh_root(node_view(#[trigger] roots@[k])) by {
                    if k < i {
                        assert(roots@[k] == before[k]);
                    }
                }
            }
            i += 1;
        }
        let roots = sort_roots(roots);
        let ghost made_from = sources;
        let loader = make_loader(sources);
        let ghost made = loader;
        let path: Vec<usize> = if roots.len() == 0 { Vec::new() } else { vec![0] };
        let ghost start = nodes_view(roots@);
        proof {
            lemma_nodes_view(roots@);
            assert(unique_ids(pending_ids(Seq::<(String, Priority)>::empty())));
            assert(top_tools(start) =~= tool_pairs(roots@));
            assert forall|k: int| 0 <= k < start.len() implies fresh_root(#[trigger] start[k]) by {
                assert(start[k] == node_view(roots@[k]));
            }
        }
        let mut view = MillerView {
            roots,
            path,
            tool_meta,
            loader,
            pending: Vec::new(),
            spinner: 0,
            error: None,
            filter: None,
            memory,
            env,
        };
        proof {
            assert(view.roots_view() == start);
            assert(view.pending_map() == Map::<Seq<char>, Priority>::empty());
            if start.len() > 0 {
                assert(view.focus() == Some(start[0]));
            }
        }
        view.ensure_focused_loading();
        proof {
            let fin = view.roots_view();
            if start.len() > 0 {
                let id0 = start[0].id;
                assert(!request_skipped(Map::<Seq<char>, Priority>::empty(), id0, Priority::High));
                lemma_pmap_len(view.pending@);
                lemma_pmap_has(view.pending@);
                assert forall|u: UpdateV| #[trigger] updated_or_same(start, id0, u) == seq![applied(start[0], u)] + start.skip(1) by {
                    assert(tree_update(start, id0, u) == Some(seq![applied(start[0], u)] + start.skip(1)));
                }
                assert(top_tools(fin) =~= top_tools(start));
                assert forall|k: int| 0 < k < fin.len() implies fresh_root(#[trigger] fin[k]) by {
                    assert(fin[k] == start[k]);
                }
                if view.pending@.len() == 1 {
                    assert(view.pending_map().contains_key(id0));
                    assert(pending_ids(view.pending@) =~= seq![id0]);
                }
            } else {
                lemma_pmap_len(view.pending@);
                assert(fin == start);
            }
            assert(call_ensures(make_loader, (made_from,), made));
        }
        view
    }
}

} // verus!

verus! {

impl<L: Loader> MillerView<L, NullFormMemory, NullEnv> {
    /// A view with a given loader, no form memory and an empty environment.
    pub fn with_loader<S: Source, F: FnOnce(Vec<S>) -> L>(sources: Vec<S>, make_loader: F) -> (r: Self)
        requires
            forall|v: Vec<S>| make_loader.requires((v,)),
        ensures
            r.wf(),
            r.roots_view().len() == sources@.len(),
            sorted_roots(r.roots_view()),
            r.path_view() == (if sources@.len() == 0 { Seq::<usize>::empty() } else { seq![0usize] }),
            r.filter_view() is None,
            exists|l: L| #[trigger] call_ensures(make_loader, (sources,), l) && l.answers_at_once() == r.answers_at_once(),
            exists|tools: Seq<(Seq<char>, Seq<char>)>|
                #![trigger tools.to_multiset()]
                tools.len() == sources@.len() && (forall|k: int| 0 <= k < tools.len() ==> offers(sources@[k], #[trigger] tools[k]))
                    && top_tools(r.roots_view()).to_multiset() == tools.to_multiset()
                    && top_tools(r.roots_view()) == sorted_tools(tools),
            forall|k: int| 0 < k < r.roots_view().len() ==> fresh_root(#[trigger] r.roots_view()[k]),
            sources@.len() == 0 ==> r.pending_view().len() == 0,
            sources@.len() > 0 ==> {
                let n = r.roots_view()[0];
                &&& n.id == n.tool_id && n.command_path.len() == 0
                &&& ((r.pending_view() == seq![n.id] && n.children is Loading)
                    || (r.pending_view().len() == 0 && n.children is Loaded))
            },
    {
        Self::with_loader_and_memory(sources, make_loader, NullFormMemory, NullEnv)
    }
}

} // verus!
