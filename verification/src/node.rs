//! The navigation model. A [`Node`] is one entry in the Miller-columns tree:
//! a tool, a command group, or a runnable command. Children load lazily, so a
//! CLI the size of `az` costs nothing until a subtree is opened.

use vstd::prelude::*;

verus! {

#[derive(Clone, Copy, PartialEq, Eq, Structural, Debug)]
pub enum NodeKind {
    /// Has children to descend into (loaded on demand).
    Branch,
    /// A terminal command with no children.
    Leaf,
    /// Expandability not yet known; resolved by loading the node's children.
    Unknown,
}

pub enum Children {
    /// Not fetched yet.
    Unloaded,
    /// Fetch in progress.
    Loading,
    Loaded(Vec<Node>),
}

pub struct Node {
    /// Unique identifier across the whole tree (the full path).
    pub id: String,
    /// Display name (the last path segment).
    pub name: String,
    pub description: String,
    pub kind: NodeKind,
    /// Whether selecting this node can open a run form.
    pub runnable: bool,
    pub flags: Vec<Flag>,
    pub args: Vec<Arg>,
    /// Which tool this node belongs to (routes lazy loads to its source).
    pub tool_id: String,
    /// Command segments under the tool binary, e.g. `["account", "list"]`.
    pub command_path: Vec<String>,
    pub children: Children,
}

pub enum FlagKind {
    Boolean,
    Value { arg_name: String, default: String, choices: Vec<String> },
}

pub struct Flag {
    pub name: String,
    pub short: Option<char>,
    pub long: Option<String>,
    pub description: String,
    pub required: bool,
    pub kind: FlagKind,
}

pub struct Arg {
    pub name: String,
    pub description: String,
    pub required: bool,
    pub default: String,
    pub choices: Vec<String>,
}

// ---------------------------------------------------------------------------
// The tree as a mathematical value
// ---------------------------------------------------------------------------

pub enum ChildrenV {
    Unloaded,
    Loading,
    Loaded(Seq<NodeV>),
}

pub struct NodeV {
    pub id: Seq<char>,
    pub name: Seq<char>,
    pub description: Seq<char>,
    pub kind: NodeKind,
    pub runnable: bool,
    pub flags: Seq<FlagNV>,
    pub args: Seq<ArgNV>,
    pub tool_id: Seq<char>,
    pub command_path: Seq<Seq<char>>,
    pub children: ChildrenV,
}

pub open spec fn node_view(n: Node) -> NodeV
    decreases n,
{
    NodeV {
        id: n.id@,
        name: n.name@,
        description: n.description@,
        kind: n.kind,
        runnable: n.runnable,
        flags: flag_views(n.flags@),
        args: arg_views(n.args@),
        tool_id: n.tool_id@,
        command_path: n.command_path@.map_values(|s: String| s@),
        children: match n.children {
            Children::Unloaded => ChildrenV::Unloaded,
            Children::Loading => ChildrenV::Loading,
            Children::Loaded(c) => ChildrenV::Loaded(nodes_view(c@)),
        },
    }
}

pub open spec fn nodes_view(s: Seq<Node>) -> Seq<NodeV>
    decreases s,
{
    if s.len() == 0 {
        seq![]
    } else {
        nodes_view(s.drop_last()).push(node_view(s.last()))
    }
}

impl View for Node {
    type V = NodeV;

    open spec fn view(&self) -> NodeV {
        node_view(*self)
    }
}

pub proof fn lemma_nodes_view(s: Seq<Node>)
    ensures
        nodes_view(s).len() == s.len(),
        forall|i: int| 0 <= i < s.len() ==> #[trigger] nodes_view(s)[i] == node_view(s[i]),
    decreases s.len(),
{
    if s.len() > 0 {
        lemma_nodes_view(s.drop_last());
    }
}

/// Whether a node can be descended into: anything not known to be a leaf.
pub open spec fn expandable(kind: NodeKind) -> bool {
    kind != NodeKind::Leaf
}

impl Node {
    pub fn is_expandable(&self) -> (r: bool)
        ensures
            r == expandable(self.kind),
    {
        match self.kind {
            NodeKind::Leaf => false,
            _ => true,
        }
    }
}

} // verus!

verus! {

pub enum FlagKindV {
    Boolean,
    Value { arg_name: Seq<char>, default: Seq<char>, choices: Seq<Seq<char>> },
}

pub struct FlagNV {
    pub name: Seq<char>,
    pub short: Option<char>,
    pub long: Option<Seq<char>>,
    pub description: Seq<char>,
    pub required: bool,
    pub kind: FlagKindV,
}

pub struct ArgNV {
    pub name: Seq<char>,
    pub description: Seq<char>,
    pub required: bool,
    pub default: Seq<char>,
    pub choices: Seq<Seq<char>>,
}

pub open spec fn strs(v: Seq<String>) -> Seq<Seq<char>> {
    v.map_values(|s: String| s@)
}

impl View for Flag {
    type V = FlagNV;

    open spec fn view(&self) -> FlagNV {
        FlagNV {
            name: self.name@,
            short: self.short,
            long: match self.long {
                Some(l) => Some(l@),
                None => None,
            },
            description: self.description@,
            required: self.required,
            kind: match self.kind {
                FlagKind::Boolean => FlagKindV::Boolean,
                FlagKind::Value { arg_name, default, choices } => FlagKindV::Value {
                    arg_name: arg_name@,
                    default: default@,
                    choices: strs(choices@),
                },
            },
        }
    }
}

impl View for Arg {
    type V = ArgNV;

    open spec fn view(&self) -> ArgNV {
        ArgNV {
            name: self.name@,
            description: self.description@,
            required: self.required,
            default: self.default@,
            choices: strs(self.choices@),
        }
    }
}

pub open spec fn flag_views(v: Seq<Flag>) -> Seq<FlagNV> {
    v.map_values(|f: Flag| f@)
}

pub open spec fn arg_views(v: Seq<Arg>) -> Seq<ArgNV> {
    v.map_values(|a: Arg| a@)
}

} // verus!

verus! {

/// A copy of a list of strings.
pub fn copy_strings(v: &Vec<String>) -> (r: Vec<String>)
    ensures
        strs(r@) == strs(v@),
{
    let mut out: Vec<String> = Vec::new();
    let mut i: usize = 0;
    while i < v.len()
        invariant
            i <= v@.len(),
            strs(out@) == strs(v@.subrange(0, i as int)),
        decreases v@.len() - i,
    {
        let ghost before = out@;
        out.push(v[i].clone());
        assert(strs(out@) =~= strs(before).push(v@[i as int]@));
        assert(strs(v@.subrange(0, i + 1)) =~= strs(v@.subrange(0, i as int)).push(v@[i as int]@));
        i += 1;
    }
    assert(v@.subrange(0, v@.len() as int) =~= v@);
    out
}

} // verus!
