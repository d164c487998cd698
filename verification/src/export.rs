//! Export of whole command trees as usage specs. Every tool is walked to
//! its leaves through a bag of load tasks: what a load reveals (a node's
//! children) goes back into the bag, nothing waits for its own children,
//! and the walk is done when every task put in has come out.

use vstd::prelude::*;
use crate::loader::{LoadOutcome, LoadRequest, Priority};
use crate::node::{
    Arg, ArgNV, Children, ChildrenV, Flag, FlagKind, FlagKindV, FlagNV, Node, NodeV,
    copy_strings, lemma_nodes_view, node_view, nodes_view, strs,
};
use crate::spec::{
    ArgV, CmdV, FlagV, Spec, SpecV, SpecArg, SpecChoices, SpecCommand, SpecFlag, arg_named,
    cmd_named, flag_named, with_subcommand,
};
use crate::text::{chars_of, decimal, decimal_of, lemma_decimal_injective, front_set, join, join_strings, to_string};
use crate::keymap::{Key, KeyMap};
use crate::source::Loaded;

verus! {

/// How deep below a tool's top level the walk goes.
pub const MAX_DEPTH: usize = 10;

// ---------------------------------------------------------------------------
// From navigation nodes back to spec commands
// ---------------------------------------------------------------------------

/// A flag as a spec flag: named by its long name, else its short one, else
/// its display name without leading dashes.
pub open spec fn spec_flag_of(f: FlagNV) -> FlagV {
    let name = match f.long {
        Some(l) => l,
        None => match f.short {
            Some(c) => seq![c],
            None => f.name.skip(front_set(f.name, seq!['-'], 0)),
        },
    };
    let base = FlagV {
        short: match f.short { Some(c) => seq![c], None => seq![] },
        long: match f.long { Some(l) => seq![l], None => seq![] },
        required: f.required,
        help: if f.description.len() > 0 { Some(f.description) } else { None },
        ..flag_named(name)
    };
    match f.kind {
        FlagKindV::Boolean => base,
        FlagKindV::Value { arg_name, default, choices } => FlagV {
            arg: Some(ArgV { choices: if choices.len() > 0 { Some(choices) } else { None }, ..arg_named(arg_name) }),
            default: if default.len() > 0 { seq![default] } else { base.default },
            ..base
        },
    }
}

pub open spec fn spec_arg_of(a: ArgNV) -> ArgV {
    ArgV {
        required: a.required,
        help: if a.description.len() > 0 { Some(a.description) } else { None },
        default: if a.default.len() > 0 { seq![a.default] } else { seq![] },
        choices: if a.choices.len() > 0 { Some(a.choices) } else { None },
        ..arg_named(a.name)
    }
}

/// A node as a spec command, its loaded subtree included.
pub open spec fn command_of(n: NodeV) -> CmdV
    decreases n, 1nat,
{
    CmdV {
        help: if n.description.len() > 0 { Some(n.description) } else { None },
        flags: n.flags.map_values(|f: FlagNV| spec_flag_of(f)),
        args: n.args.map_values(|a: ArgNV| spec_arg_of(a)),
        subcommand_required: !n.runnable,
        subcommands: match n.children {
            ChildrenV::Loaded(c) => commands_of(c),
            _ => seq![],
        },
        ..cmd_named(n.name)
    }
}

/// The commands of `nodes`, each added by name in turn.
pub open spec fn commands_of(nodes: Seq<NodeV>) -> Seq<CmdV>
    decreases nodes, 0nat,
{
    if nodes.len() == 0 {
        seq![]
    } else {
        with_subcommand(commands_of(nodes.drop_last()), command_of(nodes.last()))
    }
}

/// A node whose own help is still to come: its name and description only.
pub open spec fn stub_of(n: NodeV) -> CmdV {
    CmdV { help: if n.description.len() > 0 { Some(n.description) } else { None }, ..cmd_named(n.name) }
}

fn copy_choices(v: &Vec<String>) -> (r: Vec<String>)
    ensures
        crate::spec::texts(r@) == strs(v@),
{
    let r = copy_strings(v);
    assert(crate::spec::texts(r@) =~= strs(r@));
    r
}

pub fn spec_flag(flag: &Flag) -> (r: SpecFlag)
    ensures
        r@ == spec_flag_of(flag@),
{
    let name: String = match &flag.long {
        Some(l) => l.clone(),
        None => match flag.short {
            Some(c) => to_string(&[c]),
            None => {
                let nc = chars_of(flag.name.as_str());
                let t = trim_leading(nc.as_slice(), '-');
                to_string(t)
            },
        },
    };
    proof {
        if flag.long is None && flag.short is Some {
            assert([flag.short->0]@ =~= seq![flag.short->0]);
        }
    }
    let mut spec = SpecFlag::named(name);
    spec.short = match flag.short {
        Some(c) => vec![c],
        None => Vec::new(),
    };
    spec.long = match &flag.long {
        Some(l) => vec![l.clone()],
        None => Vec::new(),
    };
    spec.required = flag.required;
    if !flag.description.as_str().is_empty() {
        spec.help = Some(flag.description.clone());
    }
    match &flag.kind {
        FlagKind::Value { arg_name, default, choices } => {
            let mut arg = SpecArg::named(arg_name.clone());
            if choices.len() > 0 {
                arg.choices = Some(SpecChoices { choices: copy_choices(choices) });
            }
            spec.arg = Some(arg);
            if !default.as_str().is_empty() {
                spec.default = vec![default.clone()];
            }
        },
        FlagKind::Boolean => {},
    }
    proof {
        assert(crate::spec::texts(spec.long@) =~= spec_flag_of(flag@).long);
        assert(spec.short@ =~= spec_flag_of(flag@).short);
        assert(crate::spec::texts(spec.default@) =~= spec_flag_of(flag@).default);
    }
    spec
}

/// `s` without its leading `c`s.
fn trim_leading(s: &[char], c: char) -> (r: &[char])
    ensures
        r@ == s@.skip(front_set(s@, seq![c], 0)),
{
    let mut i: usize = 0;
    assert(seq![c].contains(c)) by {
        assert(seq![c][0] == c);
    }
    while i < s.len() && s[i] == c
        invariant
            i <= s@.len(),
            front_set(s@, seq![c], 0) == front_set(s@, seq![c], i as int),
        decreases s@.len() - i,
    {
        assert(seq![c].contains(s@[i as int])) by {
            assert(seq![c][0] == s@[i as int]);
        }
        i += 1;
    }
    proof {
        if i < s@.len() {
            assert(!seq![c].contains(s@[i as int])) by {
                if seq![c].contains(s@[i as int]) {
                    let w = choose|x: int| 0 <= x < 1 && seq![c][x] == s@[i as int];
                    assert(seq![c][w] == c);
                }
            }
        }
    }
    vstd::slice::slice_subrange(s, i, s.len())
}

pub fn spec_arg(arg: &Arg) -> (r: SpecArg)
    ensures
        r@ == spec_arg_of(arg@),
{
    let mut spec = SpecArg::named(arg.name.clone());
    spec.required = arg.required;
    if !arg.description.as_str().is_empty() {
        spec.help = Some(arg.description.clone());
    }
    if !arg.default.as_str().is_empty() {
        spec.default = vec![arg.default.clone()];
    }
    if arg.choices.len() > 0 {
        spec.choices = Some(SpecChoices { choices: copy_choices(&arg.choices) });
    }
    assert(crate::spec::texts(spec.default@) =~= spec_arg_of(arg@).default);
    spec
}

fn spec_flags(flags: &Vec<Flag>) -> (r: Vec<SpecFlag>)
    ensures
        crate::spec::flags_view(r@) == crate::node::flag_views(flags@).map_values(|f: FlagNV| spec_flag_of(f)),
{
    let mut out: Vec<SpecFlag> = Vec::new();
    let mut i: usize = 0;
    while i < flags.len()
        invariant
            i <= flags@.len(),
            crate::spec::flags_view(out@) == crate::node::flag_views(flags@.take(i as int)).map_values(|f: FlagNV| spec_flag_of(f)),
        decreases flags@.len() - i,
    {
        let ghost b = crate::spec::flags_view(out@);
        out.push(spec_flag(&flags[i]));
        assert(crate::spec::flags_view(out@) =~= b.push(spec_flag_of(flags@[i as int]@)));
        assert(flags@.take(i + 1) =~= flags@.take(i as int).push(flags@[i as int]));
        assert(crate::node::flag_views(flags@.take(i + 1)).map_values(|f: FlagNV| spec_flag_of(f)) =~= crate::node::flag_views(flags@.take(i as int)).map_values(|f: FlagNV| spec_flag_of(f)).push(spec_flag_of(flags@[i as int]@)));
        i += 1;
    }
    assert(flags@.take(flags@.len() as int) =~= flags@);
    out
}

fn spec_args(args: &Vec<Arg>) -> (r: Vec<SpecArg>)
    ensures
        crate::spec::args_view(r@) == crate::node::arg_views(args@).map_values(|a: ArgNV| spec_arg_of(a)),
{
    let mut out: Vec<SpecArg> = Vec::new();
    let mut i: usize = 0;
    while i < args.len()
        invariant
            i <= args@.len(),
            crate::spec::args_view(out@) == crate::node::arg_views(args@.take(i as int)).map_values(|a: ArgNV| spec_arg_of(a)),
        decreases args@.len() - i,
    {
        let ghost b = crate::spec::args_view(out@);
        out.push(spec_arg(&args[i]));
        assert(crate::spec::args_view(out@) =~= b.push(spec_arg_of(args@[i as int]@)));
        assert(args@.take(i + 1) =~= args@.take(i as int).push(args@[i as int]));
        assert(crate::node::arg_views(args@.take(i + 1)).map_values(|a: ArgNV| spec_arg_of(a)) =~= crate::node::arg_views(args@.take(i as int)).map_values(|a: ArgNV| spec_arg_of(a)).push(spec_arg_of(args@[i as int]@)));
        i += 1;
    }
    assert(args@.take(args@.len() as int) =~= args@);
    out
}

/// A node as a spec command, its loaded subtree included.
pub fn command_from_node(node: &Node) -> (r: SpecCommand)
    ensures
        r@ == command_of(node_view(*node)),
    decreases node_view(*node),
{
    let mut cmd = SpecCommand::named(node.name.clone());
    if !node.description.as_str().is_empty() {
        cmd.help = Some(node.description.clone());
    }
    cmd.flags = spec_flags(&node.flags);
    cmd.args = spec_args(&node.args);
    cmd.subcommand_required = !node.runnable;
    match &node.children {
        Children::Loaded(children) => {
            proof {
                lemma_nodes_view(children@);
            }
            let ghost cv = nodes_view(children@);
            let mut i: usize = 0;
            while i < children.len()
                invariant
                    i <= children@.len(),
                    cv == nodes_view(children@),
                    cv.len() == children@.len(),
                    forall|k: int| 0 <= k < children@.len() ==> #[trigger] cv[k] == node_view(children@[k]),
                    node_view(*node).children == ChildrenV::Loaded(cv),
                    cmd@.subcommands == commands_of(cv.take(i as int)),
                    cmd@.name == node.name@,
                    cmd@.help == (if node.description@.len() > 0 { Some(node.description@) } else { None::<Seq<char>> }),
                    cmd@.flags == node_view(*node).flags.map_values(|f: FlagNV| spec_flag_of(f)),
                    cmd@.args == node_view(*node).args.map_values(|a: ArgNV| spec_arg_of(a)),
                    cmd@.subcommand_required == !node.runnable,
                    cmd@.aliases == Seq::<Seq<char>>::empty(),
                    cmd@.help_long is None,
                decreases children@.len() - i,
            {
                proof {
                    assert(decreases_to!(node_view(*node) => node_view(*node).children));
                    assert(decreases_to!(node_view(*node).children => node_view(*node).children->Loaded_0));
                    assert(decreases_to!(node_view(*node).children->Loaded_0 => cv[i as int]));
                }
                let sub = command_from_node(&children[i]);
                cmd.insert_subcommand(sub);
                proof {
                    assert(cv.take(i + 1).drop_last() =~= cv.take(i as int));
                    assert(cv.take(i + 1).last() == cv[i as int]);
                }
                i += 1;
            }
            assert(cv.take(children@.len() as int) =~= cv);
        },
        _ => {},
    }
    cmd
}

/// A node whose own help is still to come.
pub fn stub(node: &Node) -> (r: SpecCommand)
    ensures
        r@ == stub_of(node_view(*node)),
{
    let mut cmd = SpecCommand::named(node.name.clone());
    if !node.description.as_str().is_empty() {
        cmd.help = Some(node.description.clone());
    }
    cmd
}

// ---------------------------------------------------------------------------
// The walk
// ---------------------------------------------------------------------------

pub type Path = Seq<Seq<char>>;

/// What a spec needs about its tool, kept aside before the sources go to the
/// loader.
pub struct Tool {
    pub id: String,
    pub name: String,
    pub bin: String,
}

impl Tool {
    /// A tool whose binary is the words of `bin`, joined by spaces.
    pub fn from_parts(id: String, name: String, bin: &Vec<String>) -> (r: Tool)
        ensures
            r.id@ == id@,
            r.name@ == name@,
            r.bin@ == join(strs(bin@), seq![' ']),
    {
        let sep = [' '];
        let b = join_strings(bin, &sep);
        assert(sep@ =~= seq![' ']);
        Tool { id, name, bin: b }
    }
}

/// A child as its parent listed it: the name to nest it under, and its path.
pub struct Child {
    pub name: String,
    pub path: Vec<String>,
}

pub struct ChildV {
    pub name: Seq<char>,
    pub path: Path,
}

impl View for Child {
    type V = ChildV;

    open spec fn view(&self) -> ChildV {
        ChildV { name: self.name@, path: strs(self.path@) }
    }
}

pub open spec fn child_v(c: Child) -> ChildV {
    c@
}

pub open spec fn children_v(v: Seq<Child>) -> Seq<ChildV> {
    v.map_values(|c: Child| child_v(c))
}

/// A node handed to the loader, and what the walk needs to place its result.
pub struct Pending {
    pub tool: usize,
    pub path: Vec<String>,
    pub name: String,
    pub depth: usize,
}

pub struct PendingV {
    pub tool: int,
    pub path: Path,
    pub name: Seq<char>,
    pub depth: int,
}

impl View for Pending {
    type V = PendingV;

    open spec fn view(&self) -> PendingV {
        PendingV { tool: self.tool as int, path: strs(self.path@), name: self.name@, depth: self.depth as int }
    }
}

pub open spec fn pending_v(p: Pending) -> PendingV {
    p@
}

pub struct RequestV {
    pub node_id: Seq<char>,
    pub tool_id: Seq<char>,
    pub path: Path,
    pub priority: Priority,
}

pub open spec fn request_v(r: LoadRequest) -> RequestV {
    RequestV { node_id: r.node_id@, tool_id: r.tool_id@, path: strs(r.command_path@), priority: r.priority }
}

pub open spec fn requests_v(v: Seq<LoadRequest>) -> Seq<RequestV> {
    v.map_values(|r: LoadRequest| request_v(r))
}

/// What one fetch brought back for a node.
pub struct LoadedV {
    pub description: Seq<char>,
    pub runnable: bool,
    pub flags: Seq<FlagNV>,
    pub args: Seq<ArgNV>,
    pub children: Seq<NodeV>,
}

pub open spec fn loaded_v(l: Loaded) -> LoadedV {
    LoadedV {
        description: l.description@,
        runnable: l.runnable,
        flags: crate::node::flag_views(l.flags@),
        args: crate::node::arg_views(l.args@),
        children: nodes_view(l.children@),
    }
}

pub open spec fn outcome_v(r: Result<Loaded, String>) -> Option<LoadedV> {
    match r {
        Ok(l) => Some(loaded_v(l)),
        Err(_) => None,
    }
}

/// One tool's share of the walk.
pub struct ToolV {
    /// Paths already taken, so none is fetched or emitted twice.
    pub visited: Set<Path>,
    /// Commands whose own help was read, by path.
    pub commands: Map<Path, CmdV>,
    /// A parent's children, in the order its help listed them.
    pub order: Map<Path, Seq<ChildV>>,
    /// What a parent said of each child, should its own help be unreadable.
    pub stubs: Map<Path, CmdV>,
}

pub struct WalkV {
    /// Loads asked for and not yet answered.
    pub outstanding: int,
    pub next_id: int,
    /// Nodes handed to the loader, by the key of their node id.
    pub pending: Map<Path, PendingV>,
    pub tools: Seq<ToolV>,
}

pub open spec fn cmd_v(c: SpecCommand) -> CmdV {
    c@
}

pub open spec fn id_key(id: Seq<char>) -> Path {
    seq![id]
}

/// The command a loaded node's own help describes, named as its parent named it.
pub open spec fn loaded_cmd(name: Seq<char>, l: LoadedV) -> CmdV {
    CmdV {
        help: if l.description.len() > 0 { Some(l.description) } else { None },
        flags: l.flags.map_values(|f: FlagNV| spec_flag_of(f)),
        args: l.args.map_values(|a: ArgNV| spec_arg_of(a)),
        subcommand_required: !l.runnable,
        ..cmd_named(name)
    }
}

pub open spec fn add_child_of(m: Map<Path, Seq<ChildV>>, parent: Path, c: ChildV) -> Map<Path, Seq<ChildV>> {
    m.insert(parent, (if m.contains_key(parent) { m[parent] } else { Seq::<ChildV>::empty() }).push(c))
}

/// Put one node in the bag, unless its path was already taken.
pub open spec fn submit_of(w: WalkV, tool: int, tool_id: Seq<char>, path: Path, name: Seq<char>, depth: int) -> (WalkV, Seq<RequestV>) {
    let t = w.tools[tool];
    if t.visited.contains(path) {
        (w, seq![])
    } else {
        let id = decimal_of(w.next_id as nat);
        (WalkV {
            outstanding: w.outstanding + 1,
            next_id: w.next_id + 1,
            pending: w.pending.insert(id_key(id), PendingV { tool, path, name, depth }),
            tools: w.tools.update(tool, ToolV { visited: t.visited.insert(path), ..t }),
        }, seq![RequestV { node_id: id, tool_id, path, priority: Priority::High }])
    }
}

/// A child of a loaded node taken into the walk. One whose subtree came with
/// it is taken as given; any other goes into the bag.
pub open spec fn take_child_of(w: WalkV, tool: int, tool_id: Seq<char>, parent: Path, depth: int, c: NodeV) -> (WalkV, Seq<RequestV>) {
    let t = w.tools[tool];
    let cp = c.command_path;
    let entry = ChildV { name: c.name, path: cp };
    if c.children is Loaded {
        if t.visited.contains(cp) {
            (w, seq![])
        } else {
            (WalkV {
                tools: w.tools.update(tool, ToolV {
                    visited: t.visited.insert(cp),
                    order: add_child_of(t.order, parent, entry),
                    commands: t.commands.insert(cp, command_of(c)),
                    ..t
                }),
                ..w
            }, seq![])
        }
    } else {
        let (w1, reqs) = submit_of(w, tool, tool_id, cp, c.name, depth + 1);
        if reqs.len() == 0 {
            (w1, reqs)
        } else {
            let t1 = w1.tools[tool];
            (WalkV {
                tools: w1.tools.update(tool, ToolV {
                    order: add_child_of(t1.order, parent, entry),
                    stubs: t1.stubs.insert(cp, stub_of(c)),
                    ..t1
                }),
                ..w1
            }, reqs)
        }
    }
}

/// The children `cs` taken in turn.
pub open spec fn take_children_of(w: WalkV, tool: int, tool_id: Seq<char>, parent: Path, depth: int, cs: Seq<NodeV>) -> (WalkV, Seq<RequestV>)
    decreases cs.len(),
{
    if cs.len() == 0 {
        (w, seq![])
    } else {
        let (w1, r1) = take_children_of(w, tool, tool_id, parent, depth, cs.drop_last());
        let (w2, r2) = take_child_of(w1, tool, tool_id, parent, depth, cs.last());
        (w2, r1 + r2)
    }
}

/// The walk after the answer for node `id`, and the loads it asks for next.
/// An answer retires its node; its children join the bag in the same step,
/// so zero outstanding means the trees are exhausted.
pub open spec fn integrate_of(w: WalkV, tool_ids: Seq<Seq<char>>, id: Seq<char>, loaded: Option<LoadedV>) -> (WalkV, Seq<RequestV>) {
    let k = id_key(id);
    if !w.pending.contains_key(k) {
        (WalkV { outstanding: w.outstanding - 1, ..w }, seq![])
    } else {
        let p = w.pending[k];
        let w0 = WalkV { pending: w.pending.remove(k), ..w };
        match loaded {
            None => (WalkV { outstanding: w0.outstanding - 1, ..w0 }, seq![]),
            Some(l) => {
                let (w1, reqs) = if p.depth < MAX_DEPTH {
                    take_children_of(w0, p.tool, tool_ids[p.tool], p.path, p.depth, l.children)
                } else {
                    (w0, seq![])
                };
                let t1 = w1.tools[p.tool];
                (WalkV {
                    outstanding: w1.outstanding - 1,
                    tools: w1.tools.update(p.tool, ToolV { commands: t1.commands.insert(p.path, loaded_cmd(p.name, l)), ..t1 }),
                    ..w1
                }, reqs)
            },
        }
    }
}

/// The command a child is nested as: its own help if read, else what its
/// parent said of it, else just its name.
pub open spec fn child_cmd_of(st: ToolV, c: ChildV) -> (CmdV, ToolV) {
    if st.commands.contains_key(c.path) {
        (st.commands[c.path], ToolV { commands: st.commands.remove(c.path), ..st })
    } else if st.stubs.contains_key(c.path) {
        (st.stubs[c.path], ToolV { stubs: st.stubs.remove(c.path), ..st })
    } else {
        (cmd_named(c.name), st)
    }
}

/// `cmd` with the subtree recorded under `path` nested into it.
pub open spec fn assembled(st: ToolV, path: Path, cmd: CmdV, fuel: nat) -> (CmdV, ToolV)
    decreases fuel, 0nat,
{
    if fuel == 0 || !st.order.contains_key(path) {
        (cmd, st)
    } else {
        let cs = st.order[path];
        assembled_children(ToolV { order: st.order.remove(path), ..st }, cs, cmd, (fuel - 1) as nat, cs.len())
    }
}

/// `cmd` with the first `n` children of `cs` nested into it, in order.
pub open spec fn assembled_children(st: ToolV, cs: Seq<ChildV>, cmd: CmdV, fuel: nat, n: nat) -> (CmdV, ToolV)
    decreases fuel, n + 1,
{
    if n == 0 || n > cs.len() {
        (cmd, st)
    } else {
        let (c1, st1) = assembled_children(st, cs, cmd, fuel, (n - 1) as nat);
        let (cc, st2) = child_cmd_of(st1, cs[n - 1]);
        let (sub, st3) = assembled(st2, cs[n - 1].path, cc, fuel);
        (CmdV { subcommands: with_subcommand(c1.subcommands, sub), ..c1 }, st3)
    }
}

/// A tool's spec: its top level, with every recorded subtree nested in.
pub open spec fn spec_for_of(w: WalkV, index: int, name: Seq<char>, bin: Seq<char>) -> (WalkV, Option<SpecV>) {
    let t = w.tools[index];
    let root: Path = seq![];
    if !t.commands.contains_key(root) {
        (w, None)
    } else {
        let st = ToolV { commands: t.commands.remove(root), ..t };
        let (cmd, st2) = assembled(st, root, t.commands[root], st.order.dom().len());
        (WalkV { tools: w.tools.update(index, st2), ..w }, Some(SpecV { name, bin, about: None, cmd }))
    }
}

pub open spec fn empty_tool() -> ToolV {
    ToolV { visited: Set::empty(), commands: Map::empty(), order: Map::empty(), stubs: Map::empty() }
}

struct ToolState {
    visited: KeyMap<Vec<String>, bool>,
    commands: KeyMap<Vec<String>, SpecCommand>,
    order: KeyMap<Vec<String>, Vec<Child>>,
    stubs: KeyMap<Vec<String>, SpecCommand>,
}

pub open spec fn childs_v(v: Vec<Child>) -> Seq<ChildV> {
    children_v(v@)
}

impl ToolState {
    closed spec fn wf(&self) -> bool {
        self.visited.wf() && self.commands.wf() && self.order.wf() && self.stubs.wf()
    }

    closed spec fn tv(&self) -> ToolV {
        ToolV {
            visited: self.visited.map().dom(),
            commands: self.commands.map().map_values(|c: SpecCommand| cmd_v(c)),
            order: self.order.map().map_values(|v: Vec<Child>| childs_v(v)),
            stubs: self.stubs.map().map_values(|c: SpecCommand| cmd_v(c)),
        }
    }

    fn new() -> (r: ToolState)
        ensures
            r.wf(),
            r.tv() == empty_tool(),
    {
        let r = ToolState { visited: KeyMap::new(), commands: KeyMap::new(), order: KeyMap::new(), stubs: KeyMap::new() };
        assert(r.tv().visited =~= Set::<Path>::empty());
        assert(r.tv().commands =~= Map::<Path, CmdV>::empty());
        assert(r.tv().order =~= Map::<Path, Seq<ChildV>>::empty());
        assert(r.tv().stubs =~= Map::<Path, CmdV>::empty());
        r
    }
}

impl ToolState {
    /// Note `path` as taken; `false` if it already was.
    fn visit(&mut self, path: &Vec<String>) -> (r: bool)
        requires
            old(self).wf(),
        ensures
            final(self).wf(),
            r == !old(self).tv().visited.contains(path.key()),
            final(self).tv() == (ToolV { visited: old(self).tv().visited.insert(path.key()), ..old(self).tv() }),
    {
        let ghost t0 = self.tv();
        if self.visited.contains(path) {
            assert(self.tv().visited =~= t0.visited.insert(path.key()));
            return false;
        }
        self.visited.insert(copy_strings(path), true);
        assert(self.tv().visited =~= t0.visited.insert(path.key()));
        assert(self.tv().commands =~= t0.commands);
        assert(self.tv().order =~= t0.order);
        assert(self.tv().stubs =~= t0.stubs);
        true
    }

    /// Append a child to those listed under `parent`.
    fn add_child(&mut self, parent: &Vec<String>, name: String, path: Vec<String>)
        requires
            old(self).wf(),
        ensures
            final(self).wf(),
            final(self).tv() == (ToolV {
                order: add_child_of(old(self).tv().order, parent.key(), ChildV { name: name@, path: strs(path@) }),
                ..old(self).tv()
            }),
    {
        let ghost t0 = self.tv();
        let ghost pk = parent.key();
        let mut list = match self.order.remove(parent) {
            Some(v) => v,
            None => Vec::new(),
        };
        let ghost before = children_v(list@);
        assert(before =~= (if t0.order.contains_key(pk) { t0.order[pk] } else { Seq::<ChildV>::empty() }));
        list.push(Child { name, path });
        assert(children_v(list@) =~= before.push(ChildV { name: name@, path: strs(path@) }));
        self.order.insert(copy_strings(parent), list);
        assert(self.tv().order =~= add_child_of(t0.order, pk, ChildV { name: name@, path: strs(path@) }));
        assert(self.tv().visited =~= t0.visited);
        assert(self.tv().commands =~= t0.commands);
        assert(self.tv().stubs =~= t0.stubs);
    }

    fn put_command(&mut self, path: Vec<String>, c: SpecCommand)
        requires
            old(self).wf(),
        ensures
            final(self).wf(),
            final(self).tv() == (ToolV { commands: old(self).tv().commands.insert(path.key(), c@), ..old(self).tv() }),
    {
        let ghost t0 = self.tv();
        let ghost k = path.key();
        let ghost cv = c@;
        self.commands.insert(path, c);
        assert(self.tv().commands =~= t0.commands.insert(k, cv));
        assert(self.tv().visited =~= t0.visited);
        assert(self.tv().order =~= t0.order);
        assert(self.tv().stubs =~= t0.stubs);
    }

    fn put_stub(&mut self, path: Vec<String>, c: SpecCommand)
        requires
            old(self).wf(),
        ensures
            final(self).wf(),
            final(self).tv() == (ToolV { stubs: old(self).tv().stubs.insert(path.key(), c@), ..old(self).tv() }),
    {
        let ghost t0 = self.tv();
        let ghost k = path.key();
        let ghost cv = c@;
        self.stubs.insert(path, c);
        assert(self.tv().stubs =~= t0.stubs.insert(k, cv));
        assert(self.tv().visited =~= t0.visited);
        assert(self.tv().order =~= t0.order);
        assert(self.tv().commands =~= t0.commands);
    }

    /// The command a child is nested as, taken out of the tool's records.
    fn child_cmd(&mut self, c: &Child) -> (r: SpecCommand)
        requires
            old(self).wf(),
        ensures
            final(self).wf(),
            (r@, final(self).tv()) == child_cmd_of(old(self).tv(), c@),
            final(self).order.size() == old(self).order.size(),
    {
        let ghost t0 = self.tv();
        let ghost k = strs(c.path@);
        match self.commands.remove(&c.path) {
            Some(x) => {
                assert(self.tv().commands =~= t0.commands.remove(k));
                assert(self.tv().visited =~= t0.visited);
                assert(self.tv().order =~= t0.order);
                assert(self.tv().stubs =~= t0.stubs);
                x
            },
            None => {
                assert(self.tv().commands =~= t0.commands);
                match self.stubs.remove(&c.path) {
                    Some(x) => {
                        assert(self.tv().stubs =~= t0.stubs.remove(k));
                        assert(self.tv().visited =~= t0.visited);
                        assert(self.tv().order =~= t0.order);
                        x
                    },
                    None => {
                        assert(self.tv().stubs =~= t0.stubs);
                        assert(self.tv().visited =~= t0.visited);
                        assert(self.tv().order =~= t0.order);
                        SpecCommand::named(c.name.clone())
                    },
                }
            },
        }
    }
}

/// `cmd` with the subtree recorded under `path` nested into it; what is
/// nested is taken out of the records.
fn assemble(t: &mut ToolState, path: &Vec<String>, cmd: SpecCommand, Ghost(fuel): Ghost<nat>) -> (r: SpecCommand)
    requires
        old(t).wf(),
        old(t).order.size() <= fuel,
    ensures
        final(t).wf(),
        (r@, final(t).tv()) == assembled(old(t).tv(), path.key(), cmd@, fuel),
        final(t).order.size() <= old(t).order.size(),
    decreases fuel,
{
    let ghost t0 = t.tv();
    let ghost pk = path.key();
    let ghost s0 = t.order.size();
    match t.order.remove(path) {
        None => {
            assert(t.tv().order =~= t0.order);
            assert(t.tv() == t0);
            cmd
        },
        Some(children) => {
            let ghost cs = children_v(children@);
            let ghost st = ToolV { order: t0.order.remove(pk), ..t0 };
            assert(s0 >= 1);
            let ghost f1: nat = (fuel - 1) as nat;
            assert(t.tv().order =~= t0.order.remove(pk));
            assert(t.tv() == st);
            assert(cs =~= t0.order[pk]);
            let ghost cmd0 = cmd@;
            let mut cmd = cmd;
            let mut i: usize = 0;
            while i < children.len()
                invariant
                    t.wf(),
                    i <= children@.len(),
                    cs == children_v(children@),
                    t.order.size() <= f1,
                    t.order.size() + 1 <= s0,
                    f1 + 1 == fuel,
                    (cmd@, t.tv()) == assembled_children(st, cs, cmd0, f1, i as nat),
                decreases children@.len() - i,
            {
                let ghost before = (cmd@, t.tv());
                let cc = t.child_cmd(&children[i]);
                let sub = assemble(t, &children[i].path, cc, Ghost(f1));
                cmd.insert_subcommand(sub);
                proof {
                    assert(cs[i as int] == children@[i as int]@);
                    assert(((i + 1) as nat - 1) as nat == i as nat);
                }
                i += 1;
            }
            cmd
        },
    }
}

pub open spec fn opt_reqs(r: Option<LoadRequest>) -> Seq<RequestV> {
    match r {
        Some(q) => seq![request_v(q)],
        None => seq![],
    }
}

pub open spec fn opt_spec(r: Option<Spec>) -> Option<SpecV> {
    match r {
        Some(x) => Some(x@),
        None => None,
    }
}

pub open spec fn tool_ids(tools: Seq<Tool>) -> Seq<Seq<char>> {
    tools.map_values(|t: Tool| t.id@)
}

/// Every tool's top level put in the bag, in order.
pub open spec fn start_of(w: WalkV, tools: Seq<Tool>, n: nat) -> (WalkV, Seq<RequestV>)
    decreases n,
{
    if n == 0 {
        (w, seq![])
    } else {
        let (w1, r1) = start_of(w, tools, (n - 1) as nat);
        let t = tools[n - 1];
        let (w2, r2) = submit_of(w1, n - 1, t.id@, seq![], t.name@, 0);
        (w2, r1 + r2)
    }
}

/// The specs of the first `n` tools, each that has a top level.
pub open spec fn finish_of(w: WalkV, tools: Seq<Tool>, n: nat) -> (WalkV, Seq<SpecV>)
    decreases n,
{
    if n == 0 {
        (w, seq![])
    } else {
        let (w1, s1) = finish_of(w, tools, (n - 1) as nat);
        let (w2, o) = spec_for_of(w1, n - 1, tools[n - 1].name@, tools[n - 1].bin@);
        (w2, match o {
            Some(x) => s1.push(x),
            None => s1,
        })
    }
}

pub open spec fn specs_v(v: Seq<Spec>) -> Seq<SpecV> {
    v.map_values(|x: Spec| x@)
}

/// The walk over every tool's tree: a bag of load tasks and what has come
/// back so far.
pub struct Walk {
    outstanding: usize,
    next_id: usize,
    pending: KeyMap<String, Pending>,
    tools: Vec<ToolState>,
}

impl View for Walk {
    type V = WalkV;

    closed spec fn view(&self) -> WalkV {
        WalkV {
            outstanding: self.outstanding as int,
            next_id: self.next_id as int,
            pending: self.pending.map().map_values(|p: Pending| pending_v(p)),
            tools: self.tools@.map_values(|t: ToolState| t.tv()),
        }
    }
}

impl Walk {
    /// Every pending node belongs to a tool of the walk, sits no deeper than
    /// the walk goes, and was named by an id already handed out.
    pub closed spec fn wf(&self) -> bool {
        &&& self.pending.wf()
        &&& forall|i: int| 0 <= i < self.tools@.len() ==> #[trigger] self.tools@[i].wf()
        &&& self.outstanding <= self.next_id
        &&& forall|k: Path| #[trigger] self.pending.map().contains_key(k) ==> {
            &&& self.pending.map()[k].tool < self.tools@.len()
            &&& self.pending.map()[k].depth <= MAX_DEPTH
            &&& exists|n: nat| n < self.next_id && k == id_key(decimal_of(n))
        }
    }

    proof fn lemma_pending_tool(&self, k: Path)
        requires
            self.wf(),
            self@.pending.contains_key(k),
        ensures
            0 <= self@.pending[k].tool < self@.tools.len(),
    {
        assert(self.pending.map().contains_key(k));
    }

    pub fn new(tools: usize) -> (r: Walk)
        ensures
            r.wf(),
            r@ == (WalkV {
                outstanding: 0,
                next_id: 0,
                pending: Map::empty(),
                tools: Seq::new(tools as nat, |i: int| empty_tool()),
            }),
    {
        let mut v: Vec<ToolState> = Vec::new();
        let mut i: usize = 0;
        while i < tools
            invariant
                i <= tools,
                v@.len() == i,
                forall|j: int| 0 <= j < i ==> (#[trigger] v@[j]).wf() && v@[j].tv() == empty_tool(),
            decreases tools - i,
        {
            v.push(ToolState::new());
            i += 1;
        }
        let r = Walk { outstanding: 0, next_id: 0, pending: KeyMap::new(), tools: v };
        assert(r@.pending =~= Map::<Path, PendingV>::empty());
        assert forall|j: int| 0 <= j < tools implies #[trigger] r@.tools[j] == empty_tool() by {
            assert(v@[j].wf() && v@[j].tv() == empty_tool());
        }
        assert(r@.tools =~= Seq::new(tools as nat, |i: int| empty_tool()));
        r
    }

    /// Loads asked for and not yet answered.
    pub fn outstanding(&self) -> (r: usize)
        ensures
            r == self@.outstanding,
    {
        self.outstanding
    }

    /// Whether `n` more loads can be numbered.
    pub fn has_room(&self, n: usize) -> (r: bool)
        ensures
            r == (self@.next_id + n < usize::MAX),
    {
        n < usize::MAX - self.next_id
    }

    proof fn lemma_put_back(&self, old_tools: Seq<ToolState>, i: int, t: ToolState)
        requires
            0 <= i < old_tools.len(),
            self.tools@ == old_tools.remove(i).insert(i, t),
        ensures
            self.tools@ == old_tools.update(i, t),
            self.tools@.map_values(|x: ToolState| x.tv()) == old_tools.map_values(|x: ToolState| x.tv()).update(i, t.tv()),
    {
        assert(self.tools@ =~= old_tools.update(i, t));
        assert(self.tools@.map_values(|x: ToolState| x.tv()) =~= old_tools.map_values(|x: ToolState| x.tv()).update(i, t.tv()));
    }

    /// Put one node in the bag, unless its path was already taken.
    fn submit(&mut self, tool: usize, tool_id: &String, path: Vec<String>, name: String, depth: usize) -> (r: Option<LoadRequest>)
        requires
            old(self).wf(),
            tool < old(self)@.tools.len(),
            depth <= MAX_DEPTH,
            old(self)@.next_id + 1 < usize::MAX,
        ensures
            final(self).wf(),
            final(self)@.tools.len() == old(self)@.tools.len(),
            final(self)@.next_id <= old(self)@.next_id + 1,
            final(self)@.outstanding >= old(self)@.outstanding,
            (final(self)@, opt_reqs(r)) == submit_of(old(self)@, tool as int, tool_id@, strs(path@), name@, depth as int),
    {
        let ghost w0 = self@;
        let ghost tools0 = self.tools@;
        let mut t = self.tools.remove(tool);
        let ghost tv0 = t.tv();
        assert(tools0[tool as int] == t);
        let fresh = t.visit(&path);
        self.tools.insert(tool, t);
        proof {
            self.lemma_put_back(tools0, tool as int, t);
            assert forall|i: int| 0 <= i < self.tools@.len() implies #[trigger] self.tools@[i].wf() by {
                if i != tool {
                    assert(self.tools@[i] == tools0[i]);
                }
            }
        }
        if !fresh {
            proof {
                assert(t.tv().visited =~= tv0.visited);
                assert(t.tv() == tv0);
                assert(self@.tools =~= w0.tools);
                assert(self@ == w0);
            }
            return None;
        }
        let id = decimal(self.next_id);
        let ghost k = id.key();
        let ghost m0 = self.pending.map();
        let pv = Pending { tool, path: copy_strings(&path), name: name.clone(), depth };
        self.pending.insert(id.clone(), pv);
        proof {
            assert(k == id_key(decimal_of(self.next_id as nat)));
            assert forall|q: Path| #[trigger] self.pending.map().contains_key(q) implies {
                &&& self.pending.map()[q].tool < self.tools@.len()
                &&& self.pending.map()[q].depth <= MAX_DEPTH
                &&& exists|n: nat| n < self.next_id + 1 && q == id_key(decimal_of(n))
            } by {
                if q != k {
                    assert(m0.contains_key(q));
                    let n = choose|n: nat| n < self.next_id && q == id_key(decimal_of(n));
                    assert(n < self.next_id + 1);
                } else {
                    assert(self.next_id < self.next_id + 1);
                }
            }
        }
        self.next_id += 1;
        self.outstanding += 1;
        let req = LoadRequest { node_id: id, tool_id: tool_id.clone(), command_path: path, priority: Priority::High };
        proof {
            assert(self@.pending =~= w0.pending.insert(k, PendingV { tool: tool as int, path: strs(path@), name: name@, depth: depth as int }));
        }
        Some(req)
    }

    /// A child of a loaded node taken into the walk.
    fn take_child(&mut self, tool: usize, tool_id: &String, parent: &Vec<String>, depth: usize, child: &Node) -> (r: Option<LoadRequest>)
        requires
            old(self).wf(),
            tool < old(self)@.tools.len(),
            depth < MAX_DEPTH,
            old(self)@.next_id + 1 < usize::MAX,
        ensures
            final(self).wf(),
            final(self)@.tools.len() == old(self)@.tools.len(),
            final(self)@.next_id <= old(self)@.next_id + 1,
            final(self)@.outstanding >= old(self)@.outstanding,
            (final(self)@, opt_reqs(r)) == take_child_of(old(self)@, tool as int, tool_id@, parent.key(), depth as int, node_view(*child)),
    {
        let ghost w0 = self@;
        let ghost c = node_view(*child);
        let ghost entry = ChildV { name: c.name, path: c.command_path };
        match &child.children {
            Children::Loaded(_) => {
                let ghost tools0 = self.tools@;
                let mut t = self.tools.remove(tool);
                let ghost tv0 = t.tv();
                assert(tools0[tool as int] == t);
                if t.visit(&child.command_path) {
                    t.add_child(parent, child.name.clone(), copy_strings(&child.command_path));
                    t.put_command(copy_strings(&child.command_path), command_from_node(child));
                } else {
                    assert(t.tv().visited =~= tv0.visited);
                }
                self.tools.insert(tool, t);
                proof {
                    self.lemma_put_back(tools0, tool as int, t);
                    assert forall|i: int| 0 <= i < self.tools@.len() implies #[trigger] self.tools@[i].wf() by {
                        if i != tool {
                            assert(self.tools@[i] == tools0[i]);
                        }
                    }
                    if w0.tools[tool as int].visited.contains(c.command_path) {
                        assert(self@.tools =~= w0.tools);
                    }
                }
                None
            },
            _ => {
                let r = self.submit(tool, tool_id, copy_strings(&child.command_path), child.name.clone(), depth + 1);
                if r.is_some() {
                    let ghost tools0 = self.tools@;
                    let mut t = self.tools.remove(tool);
                    assert(tools0[tool as int] == t);
                    t.add_child(parent, child.name.clone(), copy_strings(&child.command_path));
                    t.put_stub(copy_strings(&child.command_path), stub(child));
                    self.tools.insert(tool, t);
                    proof {
                        self.lemma_put_back(tools0, tool as int, t);
                        assert forall|i: int| 0 <= i < self.tools@.len() implies #[trigger] self.tools@[i].wf() by {
                            if i != tool {
                                assert(self.tools@[i] == tools0[i]);
                            }
                        }
                    }
                }
                r
            },
        }
    }
}

/// The command a loaded node's own help describes.
fn loaded_command(name: String, l: &Loaded) -> (r: SpecCommand)
    ensures
        r@ == loaded_cmd(name@, loaded_v(*l)),
{
    let mut cmd = SpecCommand::named(name);
    if !l.description.as_str().is_empty() {
        cmd.help = Some(l.description.clone());
    }
    cmd.flags = spec_flags(&l.flags);
    cmd.args = spec_args(&l.args);
    cmd.subcommand_required = !l.runnable;
    cmd
}

impl Walk {
    /// Take in the answer for one node: retire it, record its command, and
    /// put its children in the bag. Gives the loads to ask for next.
    pub fn integrate(&mut self, tools: &Vec<Tool>, outcome: LoadOutcome) -> (reqs: Vec<LoadRequest>)
        requires
            old(self).wf(),
            old(self)@.outstanding > 0,
            tools@.len() == old(self)@.tools.len(),
            match outcome.loaded {
                Ok(l) => old(self)@.next_id + l.children@.len() + 1 < usize::MAX,
                Err(_) => true,
            },
        ensures
            final(self).wf(),
            final(self)@.tools.len() == old(self)@.tools.len(),
            (final(self)@, requests_v(reqs@)) == integrate_of(old(self)@, tool_ids(tools@), outcome.node_id@, outcome_v(outcome.loaded)),
    {
        let ghost w0 = self@;
        let ghost k = outcome.node_id.key();
        let ghost m0 = self.pending.map();
        let p = match self.pending.remove(&outcome.node_id) {
            None => {
                assert(self@.pending =~= w0.pending);
                self.outstanding -= 1;
                return Vec::new();
            },
            Some(p) => p,
        };
        let ghost pv = p@;
        let ghost wa = WalkV { pending: w0.pending.remove(k), ..w0 };
        proof {
            assert(self@.pending =~= w0.pending.remove(k));
            assert(self@ == wa);
            assert(pv == w0.pending[k]);
            assert(m0.contains_key(k));
        }
        let mut reqs: Vec<LoadRequest> = Vec::new();
        match outcome.loaded {
            Ok(loaded) => {
                let cmd = loaded_command(p.name.clone(), &loaded);
                let ghost lv = loaded_v(loaded);
                if p.depth < MAX_DEPTH {
                    proof {
                        lemma_nodes_view(loaded.children@);
                    }
                    let ghost cs = nodes_view(loaded.children@);
                    let tool_id = &tools[p.tool].id;
                    assert(tool_ids(tools@)[p.tool as int] == tool_id@);
                    let mut i: usize = 0;
                    while i < loaded.children.len()
                        invariant
                            self.wf(),
                            i <= loaded.children@.len(),
                            cs == nodes_view(loaded.children@),
                            cs.len() == loaded.children@.len(),
                            forall|j: int| 0 <= j < cs.len() ==> #[trigger] cs[j] == node_view(loaded.children@[j]),
                            p.tool < self@.tools.len(),
                            self@.tools.len() == w0.tools.len(),
                            p.depth < MAX_DEPTH,
                            self@.next_id <= w0.next_id + i,
                            self@.outstanding >= w0.outstanding,
                            w0.outstanding > 0,
                            w0.next_id + loaded.children@.len() + 1 < usize::MAX,
                            (self@, requests_v(reqs@)) == take_children_of(wa, p.tool as int, tool_id@, strs(p.path@), p.depth as int, cs.take(i as int)),
                        decreases loaded.children@.len() - i,
                    {
                        let ghost before = requests_v(reqs@);
                        let r = self.take_child(p.tool, tool_id, &p.path, p.depth, &loaded.children[i]);
                        match r {
                            Some(q) => {
                                reqs.push(q);
                                assert(requests_v(reqs@) =~= before + seq![request_v(q)]);
                            },
                            None => {
                                assert(requests_v(reqs@) =~= before + Seq::<RequestV>::empty());
                            },
                        }
                        proof {
                            assert(cs.take(i + 1).drop_last() =~= cs.take(i as int));
                            assert(cs.take(i + 1).last() == cs[i as int]);
                        }
                        i += 1;
                    }
                    assert(cs.take(cs.len() as int) =~= cs);
                    assert(lv.children == cs);
                } else {
                    assert(requests_v(reqs@) =~= Seq::<RequestV>::empty());
                }
                let ghost w1 = self@;
                let ghost tools1 = self.tools@;
                let mut t = self.tools.remove(p.tool);
                assert(tools1[p.tool as int] == t);
                t.put_command(copy_strings(&p.path), cmd);
                self.tools.insert(p.tool, t);
                proof {
                    self.lemma_put_back(tools1, p.tool as int, t);
                    assert forall|i: int| 0 <= i < self.tools@.len() implies #[trigger] self.tools@[i].wf() by {
                        if i != p.tool {
                            assert(self.tools@[i] == tools1[i]);
                        }
                    }
                }
            },
            Err(_) => {
                assert(requests_v(reqs@) =~= Seq::<RequestV>::empty());
            },
        }
        self.outstanding -= 1;
        reqs
    }

    /// Put every tool's top level in the bag.
    pub fn start(&mut self, tools: &Vec<Tool>) -> (reqs: Vec<LoadRequest>)
        requires
            old(self).wf(),
            tools@.len() == old(self)@.tools.len(),
            old(self)@.next_id + tools@.len() + 1 < usize::MAX,
        ensures
            final(self).wf(),
            final(self)@.tools.len() == old(self)@.tools.len(),
            (final(self)@, requests_v(reqs@)) == start_of(old(self)@, tools@, tools@.len()),
    {
        let ghost w0 = self@;
        let mut reqs: Vec<LoadRequest> = Vec::new();
        let mut i: usize = 0;
        while i < tools.len()
            invariant
                self.wf(),
                i <= tools@.len(),
                self@.tools.len() == w0.tools.len(),
                tools@.len() == w0.tools.len(),
                self@.next_id <= w0.next_id + i,
                w0.next_id + tools@.len() + 1 < usize::MAX,
                (self@, requests_v(reqs@)) == start_of(w0, tools@, i as nat),
            decreases tools@.len() - i,
        {
            let ghost before = requests_v(reqs@);
            let r = self.submit(i, &tools[i].id, Vec::new(), tools[i].name.clone(), 0);
            proof {
                assert(strs(Seq::<String>::empty()) =~= Seq::<Seq<char>>::empty());
            }
            match r {
                Some(q) => {
                    reqs.push(q);
                    assert(requests_v(reqs@) =~= before + seq![request_v(q)]);
                },
                None => {
                    assert(requests_v(reqs@) =~= before + Seq::<RequestV>::empty());
                },
            }
            i += 1;
        }
        reqs
    }

    /// The spec of tool `index`, if its own top level was read; what it takes
    /// is taken out of the walk's records.
    pub fn spec_for(&mut self, index: usize, tool: &Tool) -> (r: Option<Spec>)
        requires
            old(self).wf(),
            index < old(self)@.tools.len(),
        ensures
            final(self).wf(),
            final(self)@.tools.len() == old(self)@.tools.len(),
            (final(self)@, opt_spec(r)) == spec_for_of(old(self)@, index as int, tool.name@, tool.bin@),
    {
        let ghost w0 = self@;
        let ghost tools0 = self.tools@;
        assert(self.tools@[index as int].wf());
        let mut t = self.tools.remove(index);
        let ghost tv0 = t.tv();
        assert(tools0[index as int] == t);
        let root_path: Vec<String> = Vec::new();
        assert(root_path.key() =~= Seq::<Seq<char>>::empty());
        let r = match t.commands.remove(&root_path) {
            None => {
                assert(t.tv().commands =~= tv0.commands);
                assert(t.tv() == tv0);
                None
            },
            Some(root) => {
                let ghost st = ToolV { commands: tv0.commands.remove(root_path.key()), ..tv0 };
                assert(t.tv().commands =~= tv0.commands.remove(root_path.key()));
                assert(t.tv() == st);
                proof {
                    t.order.lemma_size();
                    assert(st.order.dom() =~= t.order.map().dom());
                }
                let ghost fuel = t.order.size();
                let cmd = assemble(&mut t, &root_path, root, Ghost(fuel));
                Some(Spec { name: tool.name.clone(), bin: tool.bin.clone(), about: None, cmd })
            },
        };
        self.tools.insert(index, t);
        proof {
            self.lemma_put_back(tools0, index as int, t);
            assert forall|i: int| 0 <= i < self.tools@.len() implies #[trigger] self.tools@[i].wf() by {
                if i != index {
                    assert(self.tools@[i] == tools0[i]);
                }
            }
            if r is None {
                assert(self@.tools =~= w0.tools);
            }
        }
        r
    }

    /// Every tool's spec, in the order of `tools`; a tool whose top level
    /// could not be read has none.
    pub fn finish(&mut self, tools: &Vec<Tool>) -> (r: Vec<Spec>)
        requires
            old(self).wf(),
            tools@.len() == old(self)@.tools.len(),
        ensures
            final(self).wf(),
            specs_v(r@) == finish_of(old(self)@, tools@, tools@.len()).1,
            final(self)@ == finish_of(old(self)@, tools@, tools@.len()).0,
    {
        let ghost w0 = self@;
        let mut out: Vec<Spec> = Vec::new();
        let mut i: usize = 0;
        while i < tools.len()
            invariant
                self.wf(),
                i <= tools@.len(),
                self@.tools.len() == w0.tools.len(),
                tools@.len() == w0.tools.len(),
                (self@, specs_v(out@)) == finish_of(w0, tools@, i as nat),
            decreases tools@.len() - i,
        {
            let ghost before = specs_v(out@);
            let o = self.spec_for(i, &tools[i]);
            match o {
                Some(x) => {
                    let ghost xv = x@;
                    out.push(x);
                    assert(specs_v(out@) =~= before.push(xv));
                },
                None => {},
            }
            i += 1;
        }
        out
    }
}

// ---------------------------------------------------------------------------
// The count of outstanding loads
// ---------------------------------------------------------------------------

/// The count of outstanding loads is the number of nodes in the bag, and
/// every node in the bag was named by an id already handed out.
pub open spec fn counted(w: WalkV) -> bool {
    &&& w.pending.dom().finite()
    &&& w.pending.dom().len() == w.outstanding
    &&& forall|k: Path| #[trigger] w.pending.contains_key(k) ==> exists|n: nat| n < w.next_id && k == id_key(decimal_of(n))
}

proof fn lemma_fresh_id(w: WalkV)
    requires
        counted(w),
        w.next_id >= 0,
    ensures
        !w.pending.contains_key(id_key(decimal_of(w.next_id as nat))),
{
    let k = id_key(decimal_of(w.next_id as nat));
    if w.pending.contains_key(k) {
        let n = choose|n: nat| n < w.next_id && k == id_key(decimal_of(n));
        assert(id_key(decimal_of(n))[0] == decimal_of(n));
        lemma_decimal_injective(n, w.next_id as nat);
    }
}

proof fn lemma_submit_counted(w: WalkV, tool: int, tool_id: Seq<char>, path: Path, name: Seq<char>, depth: int)
    requires
        counted(w),
        w.next_id >= 0,
        0 <= tool < w.tools.len(),
    ensures
        counted(submit_of(w, tool, tool_id, path, name, depth).0),
        submit_of(w, tool, tool_id, path, name, depth).0.next_id >= w.next_id,
        submit_of(w, tool, tool_id, path, name, depth).0.tools.len() == w.tools.len(),
{
    if !w.tools[tool].visited.contains(path) {
        lemma_fresh_id(w);
        let w2 = submit_of(w, tool, tool_id, path, name, depth).0;
        let k = id_key(decimal_of(w.next_id as nat));
        assert(w2.pending.dom() =~= w.pending.dom().insert(k));
        assert forall|q: Path| #[trigger] w2.pending.contains_key(q) implies exists|n: nat| n < w2.next_id && q == id_key(decimal_of(n)) by {
            if q == k {
                assert((w.next_id as nat) < w2.next_id);
            } else {
                let n = choose|n: nat| n < w.next_id && q == id_key(decimal_of(n));
                assert(n < w2.next_id);
            }
        }
    }
}

proof fn lemma_take_children_counted(w: WalkV, tool: int, tool_id: Seq<char>, parent: Path, depth: int, cs: Seq<NodeV>)
    requires
        counted(w),
        w.next_id >= 0,
        0 <= tool < w.tools.len(),
    ensures
        counted(take_children_of(w, tool, tool_id, parent, depth, cs).0),
        take_children_of(w, tool, tool_id, parent, depth, cs).0.next_id >= w.next_id,
        take_children_of(w, tool, tool_id, parent, depth, cs).0.tools.len() == w.tools.len(),
    decreases cs.len(),
{
    if cs.len() > 0 {
        lemma_take_children_counted(w, tool, tool_id, parent, depth, cs.drop_last());
        let w1 = take_children_of(w, tool, tool_id, parent, depth, cs.drop_last()).0;
        let c = cs.last();
        if !(c.children is Loaded) {
            lemma_submit_counted(w1, tool, tool_id, c.command_path, c.name, depth + 1);
        }
    }
}

/// Each answer for a node in the bag keeps the count of outstanding loads
/// equal to the number of nodes in the bag: the node leaves the bag in the
/// same step that its children join it, so zero outstanding means that
/// every tree is exhausted.
pub proof fn lemma_integrate_keeps_count(w: WalkV, tool_ids: Seq<Seq<char>>, id: Seq<char>, loaded: Option<LoadedV>)
    requires
        counted(w),
        w.next_id >= 0,
        w.pending.contains_key(id_key(id)),
        0 <= w.pending[id_key(id)].tool < w.tools.len(),
    ensures
        counted(integrate_of(w, tool_ids, id, loaded).0),
{
    let k = id_key(id);
    let p = w.pending[k];
    let w0 = WalkV { pending: w.pending.remove(k), ..w };
    assert(w0.pending.dom() =~= w.pending.dom().remove(k));
    assert(counted(WalkV { outstanding: w0.outstanding - 1, ..w0 }));
    match loaded {
        None => {},
        Some(l) => {
            let w0c = WalkV { outstanding: w0.outstanding - 1, ..w0 };
            if p.depth < MAX_DEPTH {
                lemma_take_children_counted(w0c, p.tool, tool_ids[p.tool], p.path, p.depth, l.children);
                lemma_take_children_shift(w0, p.tool, tool_ids[p.tool], p.path, p.depth, l.children);
            }
        },
    }
}

/// Taking children touches the count only by what it adds to the bag.
proof fn lemma_take_children_shift(w: WalkV, tool: int, tool_id: Seq<char>, parent: Path, depth: int, cs: Seq<NodeV>)
    ensures
        take_children_of(WalkV { outstanding: w.outstanding - 1, ..w }, tool, tool_id, parent, depth, cs).0
            == (WalkV {
                outstanding: take_children_of(w, tool, tool_id, parent, depth, cs).0.outstanding - 1,
                ..take_children_of(w, tool, tool_id, parent, depth, cs).0
            }),
    decreases cs.len(),
{
    if cs.len() > 0 {
        lemma_take_children_shift(w, tool, tool_id, parent, depth, cs.drop_last());
    }
}

/// Putting every tool's top level in the bag keeps the count exact.
pub proof fn lemma_start_keeps_count(w: WalkV, tools: Seq<Tool>, n: nat)
    requires
        counted(w),
        w.next_id >= 0,
        n <= tools.len(),
        tools.len() == w.tools.len(),
    ensures
        counted(start_of(w, tools, n).0),
        start_of(w, tools, n).0.next_id >= w.next_id,
        start_of(w, tools, n).0.tools.len() == w.tools.len(),
    decreases n,
{
    if n > 0 {
        lemma_start_keeps_count(w, tools, (n - 1) as nat);
        let w1 = start_of(w, tools, (n - 1) as nat).0;
        lemma_submit_counted(w1, n - 1, tools[n - 1].id@, seq![], tools[n - 1].name@, 0);
    }
}

/// `reqs` ask for paths that were not taken before and are taken after,
/// each path once; nothing taken is let go.
pub open spec fn fresh_requests(before: Set<Path>, after: Set<Path>, reqs: Seq<RequestV>) -> bool {
    &&& before.subset_of(after)
    &&& forall|i: int| 0 <= i < reqs.len() ==> !before.contains(#[trigger] reqs[i].path) && after.contains(reqs[i].path)
    &&& forall|i: int, j: int| 0 <= i < j < reqs.len() ==> #[trigger] reqs[i].path != #[trigger] reqs[j].path
}

proof fn lemma_take_child_fresh(w: WalkV, tool: int, tool_id: Seq<char>, parent: Path, depth: int, c: NodeV)
    requires
        0 <= tool < w.tools.len(),
    ensures
        fresh_requests(w.tools[tool].visited, take_child_of(w, tool, tool_id, parent, depth, c).0.tools[tool].visited,
            take_child_of(w, tool, tool_id, parent, depth, c).1),
        take_child_of(w, tool, tool_id, parent, depth, c).0.tools.len() == w.tools.len(),
{
}

proof fn lemma_take_children_fresh(w: WalkV, tool: int, tool_id: Seq<char>, parent: Path, depth: int, cs: Seq<NodeV>)
    requires
        0 <= tool < w.tools.len(),
    ensures
        fresh_requests(w.tools[tool].visited, take_children_of(w, tool, tool_id, parent, depth, cs).0.tools[tool].visited,
            take_children_of(w, tool, tool_id, parent, depth, cs).1),
        take_children_of(w, tool, tool_id, parent, depth, cs).0.tools.len() == w.tools.len(),
    decreases cs.len(),
{
    if cs.len() > 0 {
        lemma_take_children_fresh(w, tool, tool_id, parent, depth, cs.drop_last());
        let (w1, r1) = take_children_of(w, tool, tool_id, parent, depth, cs.drop_last());
        lemma_take_child_fresh(w1, tool, tool_id, parent, depth, cs.last());
        let (w2, r2) = take_child_of(w1, tool, tool_id, parent, depth, cs.last());
        let v0 = w.tools[tool].visited;
        let v1 = w1.tools[tool].visited;
        let v2 = w2.tools[tool].visited;
        let r = r1 + r2;
        assert forall|i: int| 0 <= i < r.len() implies !v0.contains(#[trigger] r[i].path) && v2.contains(r[i].path) by {
            if i >= r1.len() {
                assert(r[i] == r2[i - r1.len()]);
            } else {
                assert(r[i] == r1[i]);
            }
        }
        assert forall|i: int, j: int| 0 <= i < j < r.len() implies #[trigger] r[i].path != #[trigger] r[j].path by {
            if j >= r1.len() {
                assert(r[j] == r2[j - r1.len()]);
                if i < r1.len() {
                    assert(r[i] == r1[i]);
                    assert(v1.contains(r1[i].path));
                } else {
                    assert(r[i] == r2[i - r1.len()]);
                }
            } else {
                assert(r[i] == r1[i]);
                assert(r[j] == r1[j]);
            }
        }
    }
}

/// No command is fetched twice: the loads an answer asks for are for paths
/// of its tool that were never asked for before (and are now taken), each
/// path at most once, so a tool that lists the same command twice is
/// fetched and emitted once.
pub proof fn lemma_no_path_fetched_twice(walk: &Walk, tool_ids: Seq<Seq<char>>, id: Seq<char>, loaded: Option<LoadedV>)
    requires
        walk.wf(),
    ensures
        integrate_of(walk@, tool_ids, id, loaded).1.len() > 0 ==> {
            let p = walk@.pending[id_key(id)];
            &&& walk@.pending.contains_key(id_key(id))
            &&& fresh_requests(walk@.tools[p.tool].visited, integrate_of(walk@, tool_ids, id, loaded).0.tools[p.tool].visited,
                integrate_of(walk@, tool_ids, id, loaded).1)
        },
{
    let w = walk@;
    let k = id_key(id);
    if w.pending.contains_key(k) {
        walk.lemma_pending_tool(k);
        let p = w.pending[k];
        let w0 = WalkV { pending: w.pending.remove(k), ..w };
        match loaded {
            None => {},
            Some(l) => {
                if p.depth < MAX_DEPTH {
                    lemma_take_children_fresh(w0, p.tool, tool_ids[p.tool], p.path, p.depth, l.children);
                }
            },
        }
    }
}

} // verus!

verus! {

/// The walk after the answers `answers`, taken in order.
pub open spec fn run_of(w: WalkV, tool_ids: Seq<Seq<char>>, answers: Seq<(Seq<char>, Option<LoadedV>)>) -> WalkV
    decreases answers.len(),
{
    if answers.len() == 0 {
        w
    } else {
        integrate_of(run_of(w, tool_ids, answers.drop_last()), tool_ids, answers.last().0, answers.last().1).0
    }
}

/// Each answer is for a node in the bag when it comes.
pub open spec fn answers_in_bag(w: WalkV, tool_ids: Seq<Seq<char>>, answers: Seq<(Seq<char>, Option<LoadedV>)>) -> bool {
    forall|i: int| 0 <= i < answers.len() ==> #[trigger] run_of(w, tool_ids, answers.take(i)).pending.contains_key(id_key(answers[i].0))
}

/// Every node in the bag belongs to a tool of the walk.
pub open spec fn tools_in_range(w: WalkV) -> bool {
    forall|k: Path| #[trigger] w.pending.contains_key(k) ==> 0 <= w.pending[k].tool < w.tools.len()
}

proof fn lemma_take_children_in_range(w: WalkV, tool: int, tool_id: Seq<char>, parent: Path, depth: int, cs: Seq<NodeV>)
    requires
        tools_in_range(w),
        0 <= tool < w.tools.len(),
    ensures
        tools_in_range(take_children_of(w, tool, tool_id, parent, depth, cs).0),
        take_children_of(w, tool, tool_id, parent, depth, cs).0.tools.len() == w.tools.len(),
        take_children_of(w, tool, tool_id, parent, depth, cs).0.next_id >= w.next_id,
    decreases cs.len(),
{
    if cs.len() > 0 {
        lemma_take_children_in_range(w, tool, tool_id, parent, depth, cs.drop_last());
    }
}

proof fn lemma_integrate_in_range(w: WalkV, tool_ids: Seq<Seq<char>>, id: Seq<char>, loaded: Option<LoadedV>)
    requires
        tools_in_range(w),
    ensures
        tools_in_range(integrate_of(w, tool_ids, id, loaded).0),
        integrate_of(w, tool_ids, id, loaded).0.tools.len() == w.tools.len(),
        integrate_of(w, tool_ids, id, loaded).0.next_id >= w.next_id,
{
    let k = id_key(id);
    if w.pending.contains_key(k) {
        let p = w.pending[k];
        let w0 = WalkV { pending: w.pending.remove(k), ..w };
        assert(tools_in_range(w0));
        match loaded {
            None => {},
            Some(l) => {
                if p.depth < MAX_DEPTH {
                    lemma_take_children_in_range(w0, p.tool, tool_ids[p.tool], p.path, p.depth, l.children);
                }
            },
        }
    }
}

/// Over a whole run of answers, each for a node in the bag, the count of
/// outstanding loads stays the number of nodes in the bag: the walk is done
/// exactly when nothing is outstanding.
pub proof fn lemma_run_keeps_count(w: WalkV, tool_ids: Seq<Seq<char>>, answers: Seq<(Seq<char>, Option<LoadedV>)>)
    requires
        counted(w),
        w.next_id >= 0,
        tools_in_range(w),
        answers_in_bag(w, tool_ids, answers),
    ensures
        counted(run_of(w, tool_ids, answers)),
        tools_in_range(run_of(w, tool_ids, answers)),
        run_of(w, tool_ids, answers).next_id >= w.next_id,
    decreases answers.len(),
{
    if answers.len() > 0 {
        let init = answers.drop_last();
        assert(answers_in_bag(w, tool_ids, init)) by {
            assert forall|i: int| 0 <= i < init.len() implies #[trigger] run_of(w, tool_ids, init.take(i)).pending.contains_key(
                id_key(init[i].0)) by {
                assert(init.take(i) =~= answers.take(i));
                assert(run_of(w, tool_ids, answers.take(i)).pending.contains_key(id_key(answers[i].0)));
            }
        }
        lemma_run_keeps_count(w, tool_ids, init);
        let w1 = run_of(w, tool_ids, init);
        let n = answers.len() - 1;
        assert(answers.take(n) =~= init);
        assert(run_of(w, tool_ids, answers.take(n)).pending.contains_key(id_key(answers[n].0)));
        assert(answers[n] == answers.last());
        lemma_integrate_keeps_count(w1, tool_ids, answers.last().0, answers.last().1);
        lemma_integrate_in_range(w1, tool_ids, answers.last().0, answers.last().1);
    }
}

} // verus!

verus! {

/// Each tool's taken paths grow, never shrink.
pub open spec fn visited_grows(a: WalkV, b: WalkV) -> bool {
    &&& b.tools.len() == a.tools.len()
    &&& forall|u: int| 0 <= u < a.tools.len() ==> #[trigger] a.tools[u].visited.subset_of(b.tools[u].visited)
}

proof fn lemma_take_children_grows(w: WalkV, tool: int, tool_id: Seq<char>, parent: Path, depth: int, cs: Seq<NodeV>)
    requires
        0 <= tool < w.tools.len(),
    ensures
        visited_grows(w, take_children_of(w, tool, tool_id, parent, depth, cs).0),
    decreases cs.len(),
{
    if cs.len() > 0 {
        lemma_take_children_grows(w, tool, tool_id, parent, depth, cs.drop_last());
        let w1 = take_children_of(w, tool, tool_id, parent, depth, cs.drop_last()).0;
        let w2 = take_child_of(w1, tool, tool_id, parent, depth, cs.last()).0;
        assert forall|u: int| 0 <= u < w.tools.len() implies #[trigger] w.tools[u].visited.subset_of(w2.tools[u].visited) by {
            assert(w.tools[u].visited.subset_of(w1.tools[u].visited));
            assert(w1.tools[u].visited.subset_of(w2.tools[u].visited));
        }
    }
}

proof fn lemma_integrate_grows(w: WalkV, tool_ids: Seq<Seq<char>>, id: Seq<char>, loaded: Option<LoadedV>)
    requires
        tools_in_range(w),
    ensures
        visited_grows(w, integrate_of(w, tool_ids, id, loaded).0),
{
    let k = id_key(id);
    if w.pending.contains_key(k) {
        let p = w.pending[k];
        let w0 = WalkV { pending: w.pending.remove(k), ..w };
        match loaded {
            None => {},
            Some(l) => {
                if p.depth < MAX_DEPTH {
                    lemma_take_children_grows(w0, p.tool, tool_ids[p.tool], p.path, p.depth, l.children);
                }
                let w1 = if p.depth < MAX_DEPTH {
                    take_children_of(w0, p.tool, tool_ids[p.tool], p.path, p.depth, l.children).0
                } else {
                    w0
                };
                let w2 = integrate_of(w, tool_ids, id, loaded).0;
                assert forall|u: int| 0 <= u < w.tools.len() implies #[trigger] w.tools[u].visited.subset_of(w2.tools[u].visited) by {
                    assert(w.tools[u].visited.subset_of(w1.tools[u].visited));
                }
            },
        }
    }
}

/// The loads a run of answers asks for, each with the tool it is for.
pub open spec fn run_requests(w: WalkV, tool_ids: Seq<Seq<char>>, answers: Seq<(Seq<char>, Option<LoadedV>)>) -> Seq<(int, RequestV)>
    decreases answers.len(),
{
    if answers.len() == 0 {
        seq![]
    } else {
        let init = answers.drop_last();
        let w1 = run_of(w, tool_ids, init);
        let k = id_key(answers.last().0);
        let t = if w1.pending.contains_key(k) { w1.pending[k].tool } else { 0 };
        run_requests(w, tool_ids, init) + integrate_of(w1, tool_ids, answers.last().0, answers.last().1).1.map_values(
            |r: RequestV| (t, r))
    }
}

/// Over a whole run of answers, no command of a tool is asked for twice:
/// each load the run asks for is for a path of its tool that was not taken
/// when the run began, and two loads for one tool are for different paths.
pub proof fn lemma_run_fetches_each_path_once(w: WalkV, tool_ids: Seq<Seq<char>>, answers: Seq<(Seq<char>, Option<LoadedV>)>)
    requires
        tools_in_range(w),
    ensures
        visited_grows(w, run_of(w, tool_ids, answers)),
        tools_in_range(run_of(w, tool_ids, answers)),
        forall|i: int| 0 <= i < run_requests(w, tool_ids, answers).len() ==> {
            let (t, r) = #[trigger] run_requests(w, tool_ids, answers)[i];
            &&& 0 <= t < w.tools.len()
            &&& !w.tools[t].visited.contains(r.path)
            &&& run_of(w, tool_ids, answers).tools[t].visited.contains(r.path)
        },
        forall|i: int, j: int| 0 <= i < j < run_requests(w, tool_ids, answers).len()
            && (#[trigger] run_requests(w, tool_ids, answers)[i]).0 == (#[trigger] run_requests(w, tool_ids, answers)[j]).0
            ==> run_requests(w, tool_ids, answers)[i].1.path != run_requests(w, tool_ids, answers)[j].1.path,
    decreases answers.len(),
{
    if answers.len() == 0 {
        assert forall|u: int| 0 <= u < w.tools.len() implies #[trigger] w.tools[u].visited.subset_of(w.tools[u].visited) by {}
    } else {
        let init = answers.drop_last();
        lemma_run_fetches_each_path_once(w, tool_ids, init);
        let w1 = run_of(w, tool_ids, init);
        let id = answers.last().0;
        let loaded = answers.last().1;
        let k = id_key(id);
        let (w2, new) = integrate_of(w1, tool_ids, id, loaded);
        let t = if w1.pending.contains_key(k) { w1.pending[k].tool } else { 0 };
        let tagged = new.map_values(|r: RequestV| (t, r));
        let r0 = run_requests(w, tool_ids, init);
        let all = run_requests(w, tool_ids, answers);
        assert(all == r0 + tagged);
        assert(w2 == run_of(w, tool_ids, answers));
        lemma_integrate_grows(w1, tool_ids, id, loaded);
        lemma_integrate_in_range(w1, tool_ids, id, loaded);
        assert forall|u: int| 0 <= u < w.tools.len() implies #[trigger] w.tools[u].visited.subset_of(w2.tools[u].visited) by {
            assert(w.tools[u].visited.subset_of(w1.tools[u].visited));
            assert(w1.tools[u].visited.subset_of(w2.tools[u].visited));
        }
        if new.len() > 0 {
            assert(w1.pending.contains_key(k));
            let p = w1.pending[k];
            let w0 = WalkV { pending: w1.pending.remove(k), ..w1 };
            let l = loaded->0;
            assert(p.depth < MAX_DEPTH);
            lemma_take_children_fresh(w0, p.tool, tool_ids[p.tool], p.path, p.depth, l.children);
            assert(fresh_requests(w1.tools[t].visited, w2.tools[t].visited, new));
        }
        assert forall|i: int| 0 <= i < all.len() implies {
            let (tt, r) = #[trigger] all[i];
            &&& 0 <= tt < w.tools.len()
            &&& !w.tools[tt].visited.contains(r.path)
            &&& w2.tools[tt].visited.contains(r.path)
        } by {
            if i < r0.len() {
                assert(all[i] == r0[i]);
                let (tt, r) = r0[i];
                assert(w1.tools[tt].visited.subset_of(w2.tools[tt].visited));
            } else {
                assert(all[i] == tagged[i - r0.len()]);
                assert(new[i - r0.len()] == all[i].1);
                assert(w.tools[t].visited.subset_of(w1.tools[t].visited));
            }
        }
        assert forall|i: int, j: int| 0 <= i < j < all.len() && (#[trigger] all[i]).0 == (#[trigger] all[j]).0
            implies all[i].1.path != all[j].1.path by {
            if j < r0.len() {
                assert(all[i] == r0[i] && all[j] == r0[j]);
            } else if i < r0.len() {
                assert(all[i] == r0[i]);
                assert(all[j] == tagged[j - r0.len()]);
                assert(new[j - r0.len()] == all[j].1);
            } else {
                assert(all[i] == tagged[i - r0.len()]);
                assert(all[j] == tagged[j - r0.len()]);
                assert(new[i - r0.len()] == all[i].1);
                assert(new[j - r0.len()] == all[j].1);
            }
        }
    }
}

} // verus!

verus! {

/// The walk is done exactly when its bag is empty: with the count exact,
/// no load is outstanding just when no node awaits an answer.
pub proof fn lemma_done_when_bag_empty(w: WalkV)
    requires
        counted(w),
    ensures
        w.outstanding == 0 <==> w.pending =~= Map::<Path, PendingV>::empty(),
{
    if w.outstanding == 0 {
        assert forall|k: Path| !w.pending.contains_key(k) by {
            if w.pending.contains_key(k) {
                assert(w.pending.dom().contains(k));
                vstd::set_lib::lemma_set_empty_equivalency_len(w.pending.dom());
            }
        }
    } else if w.pending =~= Map::<Path, PendingV>::empty() {
        assert(w.pending.dom() =~= Set::<Path>::empty());
    }
}

proof fn lemma_take_children_takes_all(w: WalkV, tool: int, tool_id: Seq<char>, parent: Path, depth: int, cs: Seq<NodeV>)
    requires
        0 <= tool < w.tools.len(),
    ensures
        forall|i: int| 0 <= i < cs.len() ==> take_children_of(w, tool, tool_id, parent, depth, cs).0.tools[tool].visited.contains(
            #[trigger] cs[i].command_path),
    decreases cs.len(),
{
    if cs.len() > 0 {
        let init = cs.drop_last();
        lemma_take_children_takes_all(w, tool, tool_id, parent, depth, init);
        lemma_take_children_fresh(w, tool, tool_id, parent, depth, init);
        let w1 = take_children_of(w, tool, tool_id, parent, depth, init).0;
        lemma_take_child_fresh(w1, tool, tool_id, parent, depth, cs.last());
        let w2 = take_children_of(w, tool, tool_id, parent, depth, cs).0;
        assert forall|i: int| 0 <= i < cs.len() implies w2.tools[tool].visited.contains(#[trigger] cs[i].command_path) by {
            if i < init.len() {
                assert(init[i] == cs[i]);
                assert(w1.tools[tool].visited.contains(init[i].command_path));
            }
        }
    }
}

/// An answer takes every child it lists, above the depth limit: each
/// child's path is taken for its tool once the answer is folded in, so a
/// run that answers every load it asks for reaches every command the tools
/// list (a child already taken is not taken again).
pub proof fn lemma_answer_takes_every_child(w: WalkV, tool_ids: Seq<Seq<char>>, id: Seq<char>, l: LoadedV, i: int)
    requires
        tools_in_range(w),
        w.pending.contains_key(id_key(id)),
        w.pending[id_key(id)].depth < MAX_DEPTH,
        0 <= i < l.children.len(),
    ensures
        integrate_of(w, tool_ids, id, Some(l)).0.tools[w.pending[id_key(id)].tool].visited.contains(l.children[i].command_path),
{
    let k = id_key(id);
    let p = w.pending[k];
    let w0 = WalkV { pending: w.pending.remove(k), ..w };
    lemma_take_children_takes_all(w0, p.tool, tool_ids[p.tool], p.path, p.depth, l.children);
    lemma_take_children_fresh(w0, p.tool, tool_ids[p.tool], p.path, p.depth, l.children);
    let w1 = take_children_of(w0, p.tool, tool_ids[p.tool], p.path, p.depth, l.children).0;
    let w2 = integrate_of(w, tool_ids, id, Some(l)).0;
    assert(w2.tools[p.tool].visited == w1.tools[p.tool].visited);
}

} // verus!

verus! {

/// The (name, binary) of each of the first `n` tools whose top level was
/// read, in tool order.
pub open spec fn read_tools(w: WalkV, tools: Seq<Tool>, n: nat) -> Seq<(Seq<char>, Seq<char>)>
    decreases n,
{
    if n == 0 {
        seq![]
    } else {
        let rest = read_tools(w, tools, (n - 1) as nat);
        if w.tools[n - 1].commands.contains_key(seq![]) {
            rest.push((tools[n - 1].name@, tools[n - 1].bin@))
        } else {
            rest
        }
    }
}

proof fn lemma_finish_keeps_later(w: WalkV, tools: Seq<Tool>, n: nat)
    requires
        n <= w.tools.len(),
    ensures
        finish_of(w, tools, n).0.tools.len() == w.tools.len(),
        forall|u: int| n <= u < w.tools.len() ==> #[trigger] finish_of(w, tools, n).0.tools[u] == w.tools[u],
    decreases n,
{
    if n > 0 {
        lemma_finish_keeps_later(w, tools, (n - 1) as nat);
    }
}

/// The specs a finished walk gives are, in tool order, one per tool whose
/// top level was read, each named by its tool and run by its tool's binary;
/// a tool whose top level could not be read gives none.
pub proof fn lemma_finish_one_spec_per_read_tool(w: WalkV, tools: Seq<Tool>, n: nat)
    requires
        n <= w.tools.len(),
    ensures
        finish_of(w, tools, n).1.map_values(|x: SpecV| (x.name, x.bin)) == read_tools(w, tools, n),
        forall|i: int| 0 <= i < finish_of(w, tools, n).1.len() ==> (#[trigger] finish_of(w, tools, n).1[i]).about is None,
    decreases n,
{
    if n > 0 {
        let m = (n - 1) as nat;
        lemma_finish_one_spec_per_read_tool(w, tools, m);
        lemma_finish_keeps_later(w, tools, m);
        let (w1, s1) = finish_of(w, tools, m);
        assert(w1.tools[n - 1] == w.tools[n - 1]);
        let s = finish_of(w, tools, n).1;
        let f = |x: SpecV| (x.name, x.bin);
        if w.tools[n - 1].commands.contains_key(seq![]) {
            let x = spec_for_of(w1, n - 1, tools[n - 1].name@, tools[n - 1].bin@).1->0;
            assert(s == s1.push(x));
            assert(s.map_values(f) =~= s1.map_values(f).push(f(x)));
            assert forall|i: int| 0 <= i < s.len() implies (#[trigger] s[i]).about is None by {
                if i < s1.len() {
                    assert(s[i] == s1[i]);
                }
            }
        } else {
            assert(s == s1);
        }
    }
}

} // verus!

verus! {

/// A read answer records its command: once the answer for a node in the
/// bag is folded in, its tool holds a command at the node's path (for a
/// tool's top level, the path `[]` that `finish` gives a spec for).
pub proof fn lemma_answer_records_command(w: WalkV, tool_ids: Seq<Seq<char>>, id: Seq<char>, l: LoadedV)
    requires
        tools_in_range(w),
        w.pending.contains_key(id_key(id)),
    ensures
        integrate_of(w, tool_ids, id, Some(l)).0.tools[w.pending[id_key(id)].tool].commands.contains_key(w.pending[id_key(id)].path),
{
    let k = id_key(id);
    let p = w.pending[k];
    let w0 = WalkV { pending: w.pending.remove(k), ..w };
    if p.depth < MAX_DEPTH {
        lemma_take_children_fresh(w0, p.tool, tool_ids[p.tool], p.path, p.depth, l.children);
    }
}

} // verus!
