//! Tools read through their `--help`: one level of the command tree per
//! help page, and a disk cache of the pages keyed by tool version.

use vstd::prelude::*;
use crate::node::{Children, ChildrenV, Node, NodeKind, NodeV, node_view, nodes_view, strs};
use crate::source::{Loaded, convert_args, convert_flags, converted_args, converted_flags, text_or_empty};
use crate::spec::{CmdV, InputFormat, Spec, SpecCommand, cmd_view, lemma_cmds_view};
use crate::text::{chars_of, is_ascii_alnum, is_ascii_alphanumeric, join, join_strings, push_char, push_str, to_string};
use crate::usage_source::path_id;

verus! {

/// Help fetched by running `mise exec -- <tool> <path> --help`.
pub struct MiseHelpProvider;

/// A tool whose command tree is read from its help, one level at a time.
pub struct HelpToolSource<H> {
    pub binary: String,
    pub format: InputFormat,
    pub help_provider: H,
}

/// A child row of a help page as a node. Knack marks groups and commands
/// apart, so a Knack child's expandability is known at once; other formats
/// leave it unknown until the child's own help is read.
pub open spec fn help_child(binary: Seq<char>, format: InputFormat, command_path: Seq<Seq<char>>, name: Seq<char>, c: CmdV) -> NodeV {
    let path = command_path.push(name);
    let (kind, runnable) = if format == InputFormat::KnackHelptext {
        if c.subcommand_required { (NodeKind::Branch, false) } else { (NodeKind::Leaf, true) }
    } else {
        (NodeKind::Unknown, true)
    };
    NodeV {
        id: path_id(binary, path),
        name,
        description: text_or_empty(c.help),
        kind,
        runnable,
        flags: seq![],
        args: seq![],
        tool_id: binary,
        command_path: path,
        children: ChildrenV::Unloaded,
    }
}

pub open spec fn help_children(binary: Seq<char>, format: InputFormat, command_path: Seq<Seq<char>>, subs: Seq<CmdV>) -> Seq<NodeV> {
    subs.map_values(|c: CmdV| help_child(binary, format, command_path, c.name, c))
}

impl<H> HelpToolSource<H> {
    pub fn new(binary: String, format: InputFormat, help_provider: H) -> (r: Self)
        ensures
            r.binary == binary,
            r.format == format,
            r.help_provider == help_provider,
    {
        HelpToolSource { binary, format, help_provider }
    }

    /// The unloaded node for the subcommand `name` listed under `command_path`.
    pub fn child_node(&self, command_path: &[String], name: &String, cmd: &SpecCommand) -> (r: Node)
        ensures
            node_view(r) == help_child(self.binary@, self.format, strs(command_path@), name@, cmd@),
    {
        let mut child_path: Vec<String> = Vec::new();
        let mut i: usize = 0;
        while i < command_path.len()
            invariant
                i <= command_path@.len(),
                strs(child_path@) == strs(command_path@.subrange(0, i as int)),
            decreases command_path@.len() - i,
        {
            let ghost b = strs(child_path@);
            child_path.push(command_path[i].clone());
            assert(strs(child_path@) =~= b.push(command_path@[i as int]@));
            assert(strs(command_path@.subrange(0, i + 1)) =~= strs(command_path@.subrange(0, i as int)).push(command_path@[i as int]@));
            i += 1;
        }
        assert(command_path@.subrange(0, command_path@.len() as int) =~= command_path@);
        let ghost b = strs(child_path@);
        child_path.push(name.clone());
        assert(strs(child_path@) =~= b.push(name@));
        let (kind, runnable) = match self.format {
            InputFormat::KnackHelptext => if cmd.subcommand_required {
                (NodeKind::Branch, false)
            } else {
                (NodeKind::Leaf, true)
            },
            _ => (NodeKind::Unknown, true),
        };
        let mut id = String::new();
        push_str(&mut id, self.binary.as_str());
        push_char(&mut id, '/');
        let joined = join_strings(&child_path, &['/']);
        assert(['/']@ =~= seq!['/']);
        assert(strs(child_path@) == child_path@.map_values(|x: String| x@));
        push_str(&mut id, joined.as_str());
        let r = Node {
            id,
            name: name.clone(),
            description: match &cmd.help {
                Some(h) => h.clone(),
                None => String::new(),
            },
            kind,
            runnable,
            flags: Vec::new(),
            args: Vec::new(),
            tool_id: self.binary.clone(),
            command_path: child_path,
            children: Children::Unloaded,
        };
        assert(crate::node::flag_views(r.flags@) =~= Seq::<crate::node::FlagNV>::empty());
        assert(crate::node::arg_views(r.args@) =~= Seq::<crate::node::ArgNV>::empty());
        proof {
            let h = help_child(self.binary@, self.format, strs(command_path@), name@, cmd@);
            let v = node_view(r);
            assert(v.id == h.id);
            assert(v.name == h.name);
            assert(v.description == h.description);
            assert(v.kind == h.kind);
            assert(v.runnable == h.runnable);
            assert(v.command_path == h.command_path);
            assert(v.tool_id == h.tool_id);
            assert(v.children == h.children);
        }
        r
    }

    /// What a help page at `command_path` gives, once parsed: the command's
    /// description, whether it runs by itself, its flags and arguments, and
    /// its subcommands as unloaded children.
    pub fn loaded_from_spec(&self, command_path: &[String], spec: &Spec) -> (r: Loaded)
        ensures
            r.description@ == text_or_empty(spec@.cmd.help),
            r.runnable == !spec@.cmd.subcommand_required,
            crate::node::flag_views(r.flags@) == converted_flags(spec@.cmd.flags),
            crate::node::arg_views(r.args@) == converted_args(spec@.cmd.args),
            nodes_view(r.children@) == help_children(self.binary@, self.format, strs(command_path@), spec@.cmd.subcommands),
    {
        proof {
            lemma_cmds_view(spec.cmd.subcommands@);
        }
        let subs = &spec.cmd.subcommands;
        let ghost sv = spec@.cmd.subcommands;
        let mut children: Vec<Node> = Vec::new();
        let mut i: usize = 0;
        while i < subs.len()
            invariant
                i <= subs@.len(),
                sv == spec@.cmd.subcommands,
                sv.len() == subs@.len(),
                *subs == spec.cmd.subcommands,
                forall|k: int| 0 <= k < sv.len() ==> #[trigger] sv[k] == cmd_view(subs@[k]),
                nodes_view(children@) == help_children(self.binary@, self.format, strs(command_path@), sv.take(i as int)),
            decreases subs@.len() - i,
        {
            let c = &subs[i];
            let n = self.child_node(command_path, &c.name, c);
            let ghost old_children = children@;
            children.push(n);
            proof {
                assert(children@.drop_last() =~= old_children);
                assert(sv.take(i + 1) =~= sv.take(i as int).push(sv[i as int]));
                assert(help_children(self.binary@, self.format, strs(command_path@), sv.take(i + 1)) =~= help_children(
                    self.binary@,
                    self.format,
                    strs(command_path@),
                    sv.take(i as int),
                ).push(node_view(n)));
            }
            i += 1;
        }
        assert(sv.take(subs@.len() as int) =~= sv);
        Loaded {
            description: match &spec.cmd.help {
                Some(h) => h.clone(),
                None => String::new(),
            },
            runnable: !spec.cmd.subcommand_required,
            flags: convert_flags(spec.cmd.flags.as_slice()),
            args: convert_args(spec.cmd.args.as_slice()),
            children,
        }
    }
}

// ---------------------------------------------------------------------------
// The help cache
// ---------------------------------------------------------------------------

/// A help provider that keeps each page on disk, under the tool's version,
/// and only asks `inner` for pages it does not have.
pub struct CachingHelpProvider<H> {
    pub inner: H,
    pub dir: String,
    pub version: String,
}

/// A name made safe for a path component: ASCII letters, digits, `.`, `-`
/// and `_` kept, anything else `_`.
pub open spec fn sanitized(s: Seq<char>) -> Seq<char> {
    s.map_values(|c: char| if is_ascii_alnum(c) || c == '.' || c == '-' || c == '_' { c } else { '_' })
}

pub fn sanitize(s: &str) -> (r: String)
    ensures
        r@ == sanitized(s@),
{
    let cs = chars_of(s);
    let mut out = String::new();
    let mut i: usize = 0;
    while i < cs.len()
        invariant
            i <= cs@.len(),
            cs@ == s@,
            out@ == sanitized(cs@.subrange(0, i as int)),
        decreases cs@.len() - i,
    {
        let c = cs[i];
        let d = if is_ascii_alphanumeric(c) || c == '.' || c == '-' || c == '_' { c } else { '_' };
        push_char(&mut out, d);
        assert(sanitized(cs@.subrange(0, i + 1)) =~= sanitized(cs@.subrange(0, i as int)).push(d));
        i += 1;
    }
    assert(cs@.subrange(0, cs@.len() as int) =~= cs@);
    out
}

/// The cache file of a page, below the cache directory: the tool, its
/// version, and the command path joined by `__` (`__root` for the top).
pub open spec fn cache_parts(binary: Seq<char>, version: Seq<char>, path: Seq<Seq<char>>) -> Seq<Seq<char>> {
    let leaf = if path.len() == 0 { "__root"@ } else { join(path, "__"@) };
    seq![sanitized(binary), sanitized(version), sanitized(leaf) + ".txt"@]
}

impl<H> CachingHelpProvider<H> {
    pub fn new(inner: H, dir: String, version: String) -> (r: Self)
        ensures
            r.inner == inner,
            r.dir == dir,
            r.version == version,
    {
        CachingHelpProvider { inner, dir, version }
    }

    /// The components of the cache file's path below `dir`.
    pub fn cache_path(&self, binary: &str, subcommand_path: &[&str]) -> (r: Vec<String>)
        ensures
            strs(r@) == cache_parts(binary@, self.version@, subcommand_path@.map_values(|s: &str| s@)),
    {
        let mut parts: Vec<String> = Vec::new();
        let mut i: usize = 0;
        while i < subcommand_path.len()
            invariant
                i <= subcommand_path@.len(),
                strs(parts@) == subcommand_path@.subrange(0, i as int).map_values(|s: &str| s@),
            decreases subcommand_path@.len() - i,
        {
            let ghost b = strs(parts@);
            parts.push(to_string(chars_of(subcommand_path[i]).as_slice()));
            assert(strs(parts@) =~= b.push(subcommand_path@[i as int]@));
            assert(subcommand_path@.subrange(0, i + 1).map_values(|s: &str| s@) =~= subcommand_path@.subrange(0, i as int).map_values(|s: &str| s@).push(subcommand_path@[i as int]@));
            i += 1;
        }
        assert(subcommand_path@.subrange(0, subcommand_path@.len() as int) =~= subcommand_path@);
        let leaf = if subcommand_path.len() == 0 {
            to_string(chars_of("__root").as_slice())
        } else {
            let sep = chars_of("__");
            assert(strs(parts@) == parts@.map_values(|x: String| x@));
            join_strings(&parts, sep.as_slice())
        };
        let mut file = sanitize(leaf.as_str());
        push_str(&mut file, ".txt");
        let r = vec![sanitize(binary), sanitize(self.version.as_str()), file];
        assert(strs(r@) =~= cache_parts(binary@, self.version@, subcommand_path@.map_values(|s: &str| s@)));
        r
    }
}

} // verus!
