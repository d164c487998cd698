//! Tools that describe themselves with a [usage](https://usage.jdx.dev)
//! spec: the whole command tree arrives in one spec, so the tree is built
//! at once rather than level by level.

use vstd::prelude::*;
use crate::node::{Children, ChildrenV, Node, NodeKind, NodeV, copy_strings, node_view, nodes_view, strs};
use crate::source::{Loaded, convert_args, convert_flags, converted_args, converted_flags, text_or_empty};
use crate::spec::{CmdV, Spec, SpecCommand, lemma_cmds_view, cmd_view};
use crate::text::{join, join_strings, push_char, push_str, chars_of};

verus! {

/// Fetches a usage spec's text.
pub trait SpecProvider {
    fn fetch_spec(&self) -> Result<String, String>;
}

/// A spec fetched by running a command.
pub struct CommandSpecProvider {
    pub command: Vec<String>,
}

/// A tool known by its usage spec.
pub struct UsageSpecSource {
    pub tool_id: String,
    pub tool_name: String,
    pub bin: Vec<String>,
    pub separator: String,
    /// The command that prints the spec.
    pub command: Vec<String>,
}

impl UsageSpecSource {
    fn from_command(tool_id: &str, tool_name: &str, bin: Vec<String>, command: Vec<String>) -> (r: Self)
        ensures
            r.tool_id@ == tool_id@,
            r.tool_name@ == tool_name@,
            r.bin@ == bin@,
            r.command@ == command@,
            r.separator@ == " "@,
    {
        UsageSpecSource {
            tool_id: crate::text::to_string(chars_of(tool_id).as_slice()),
            tool_name: crate::text::to_string(chars_of(tool_name).as_slice()),
            bin,
            separator: crate::text::to_string(chars_of(" ").as_slice()),
            command,
        }
    }

    /// mise's own command line, from `mise usage`.
    pub fn mise_self() -> (r: Self)
        ensures
            r.tool_id@ == "mise"@,
            r.tool_name@ == "Mise"@,
            strs(r.bin@) == seq!["mise"@],
            strs(r.command@) == seq!["mise"@, "usage"@],
    {
        let bin = vec![crate::text::to_string(chars_of("mise").as_slice())];
        let command = vec![crate::text::to_string(chars_of("mise").as_slice()), crate::text::to_string(chars_of("usage").as_slice())];
        let r = Self::from_command("mise", "Mise", bin, command);
        assert(strs(r.bin@) =~= seq!["mise"@]);
        assert(strs(r.command@) =~= seq!["mise"@, "usage"@]);
        r
    }

    /// A tool that prints its own spec (`mise exec -- <bin> --usage-spec`).
    pub fn for_tool(binary: &str) -> (r: Self)
        ensures
            r.tool_id@ == binary@,
            r.tool_name@ == binary@,
            strs(r.bin@) == seq![binary@],
            strs(r.command@) == seq!["mise"@, "exec"@, "--"@, binary@, "--usage-spec"@],
    {
        let b = crate::text::to_string(chars_of(binary).as_slice());
        let bin = vec![b];
        let command = vec![
            crate::text::to_string(chars_of("mise").as_slice()),
            crate::text::to_string(chars_of("exec").as_slice()),
            crate::text::to_string(chars_of("--").as_slice()),
            crate::text::to_string(chars_of(binary).as_slice()),
            crate::text::to_string(chars_of("--usage-spec").as_slice()),
        ];
        let r = Self::from_command(binary, binary, bin, command);
        assert(strs(r.bin@) =~= seq![binary@]);
        assert(strs(r.command@) =~= seq!["mise"@, "exec"@, "--"@, binary@, "--usage-spec"@]);
        r
    }
}

// ---------------------------------------------------------------------------
// The tree a spec describes
// ---------------------------------------------------------------------------

/// A node's id: the tool, then its command path, `/`-separated.
pub open spec fn path_id(tool_id: Seq<char>, segments: Seq<Seq<char>>) -> Seq<char> {
    tool_id + seq!['/'] + join(segments, seq!['/'])
}

/// The nodes for `subs` under the command path `prefix`.
pub open spec fn nested(tool_id: Seq<char>, prefix: Seq<Seq<char>>, subs: Seq<CmdV>) -> Seq<NodeV>
    decreases subs, 0nat,
{
    if subs.len() == 0 {
        seq![]
    } else {
        nested(tool_id, prefix, subs.drop_last()).push(nested_node(tool_id, prefix, subs.last()))
    }
}

/// One command as a node, its whole subtree loaded: a branch when it has
/// subcommands, runnable unless it requires one.
pub open spec fn nested_node(tool_id: Seq<char>, prefix: Seq<Seq<char>>, c: CmdV) -> NodeV
    decreases c, 1nat,
{
    let segs = prefix.push(c.name);
    let kids = nested(tool_id, segs, c.subcommands);
    NodeV {
        id: path_id(tool_id, segs),
        name: c.name,
        description: text_or_empty(c.help),
        kind: if c.subcommands.len() == 0 { NodeKind::Leaf } else { NodeKind::Branch },
        runnable: !c.subcommand_required,
        flags: converted_flags(c.flags),
        args: converted_args(c.args),
        tool_id,
        command_path: segs,
        children: ChildrenV::Loaded(kids),
    }
}

/// `tool/seg1/seg2`.
fn node_id(tool_id: &str, segments: &Vec<String>) -> (r: String)
    ensures
        r@ == path_id(tool_id@, strs(segments@)),
{
    let mut id = String::new();
    push_str(&mut id, tool_id);
    push_char(&mut id, '/');
    let joined = join_strings(segments, &['/']);
    assert(['/']@ =~= seq!['/']);
    assert(strs(segments@) == segments@.map_values(|x: String| x@));
    push_str(&mut id, joined.as_str());
    id
}

fn build_nested(tool_id: &str, prefix: &Vec<String>, cmd: &SpecCommand) -> (r: Vec<Node>)
    ensures
        nodes_view(r@) == nested(tool_id@, strs(prefix@), cmd@.subcommands),
    decreases cmd@,
{
    proof {
        lemma_cmds_view(cmd.subcommands@);
    }
    let ghost subs = cmd@.subcommands;
    let mut nodes: Vec<Node> = Vec::new();
    let mut i: usize = 0;
    while i < cmd.subcommands.len()
        invariant
            i <= cmd.subcommands@.len(),
            subs == cmd@.subcommands,
            subs.len() == cmd.subcommands@.len(),
            forall|k: int| 0 <= k < subs.len() ==> #[trigger] subs[k] == cmd_view(cmd.subcommands@[k]),
            nodes_view(nodes@) == nested(tool_id@, strs(prefix@), subs.take(i as int)),
        decreases cmd.subcommands@.len() - i,
    {
        let sub = &cmd.subcommands[i];
        let mut segments = copy_strings(prefix);
        segments.push(sub.name.clone());
        assert(strs(segments@) =~= strs(prefix@).push(sub.name@));
        proof {
            assert(decreases_to!(cmd@ => cmd@.subcommands));
            assert(decreases_to!(cmd@.subcommands => cmd@.subcommands[i as int]));
            assert(cmd@.subcommands[i as int] == sub@);
        }
        let children = build_nested(tool_id, &segments, sub);
        let kind = if sub.subcommands.len() == 0 { NodeKind::Leaf } else { NodeKind::Branch };
        let description = match &sub.help {
            Some(h) => h.clone(),
            None => String::new(),
        };
        let node = Node {
            id: node_id(tool_id, &segments),
            name: sub.name.clone(),
            description,
            kind,
            runnable: !sub.subcommand_required,
            flags: convert_flags(sub.flags.as_slice()),
            args: convert_args(sub.args.as_slice()),
            tool_id: crate::text::to_string(chars_of(tool_id).as_slice()),
            command_path: segments,
            children: Children::Loaded(children),
        };
        let ghost before = nodes_view(nodes@);
        let ghost old_nodes = nodes@;
        nodes.push(node);
        proof {
            assert(nodes@.drop_last() =~= old_nodes);
            assert(nodes@.last() == node);
            assert(subs.take(i + 1).drop_last() =~= subs.take(i as int));
            assert(subs.take(i + 1).last() == sub@);
            assert(sub@.subcommands.len() == sub.subcommands@.len()) by {
                lemma_cmds_view(sub.subcommands@);
            }
            assert(node_view(node) == nested_node(tool_id@, strs(prefix@), sub@));
            assert(nodes_view(nodes@) =~= before.push(node_view(node)));
        }
        i += 1;
    }
    assert(subs.take(cmd.subcommands@.len() as int) =~= subs);
    nodes
}

/// The tree a usage spec describes, every level loaded.
pub fn nodes_from_nested_spec(spec: &Spec, tool_id: &str) -> (r: Vec<Node>)
    ensures
        nodes_view(r@) == nested(tool_id@, seq![], spec@.cmd.subcommands),
{
    let prefix: Vec<String> = Vec::new();
    assert(strs(prefix@) =~= Seq::<Seq<char>>::empty());
    build_nested(tool_id, &prefix, &spec.cmd)
}

/// What loading the tool's top level gives, from its spec: the root's
/// description, flags and arguments, and the whole tree below it.
pub fn loaded_from_spec(spec: &Spec, tool_id: &str) -> (r: Loaded)
    ensures
        r.description@ == text_or_empty(spec@.cmd.help),
        !r.runnable,
        nodes_view(r.children@) == nested(tool_id@, seq![], spec@.cmd.subcommands),
        crate::node::flag_views(r.flags@) == converted_flags(spec@.cmd.flags),
        crate::node::arg_views(r.args@) == converted_args(spec@.cmd.args),
{
    Loaded {
        description: match &spec.cmd.help {
            Some(h) => h.clone(),
            None => String::new(),
        },
        runnable: false,
        flags: convert_flags(spec.cmd.flags.as_slice()),
        args: convert_args(spec.cmd.args.as_slice()),
        children: nodes_from_nested_spec(spec, tool_id),
    }
}

} // verus!
