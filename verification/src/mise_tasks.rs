//! mise's tasks as a tree. Task names are flat (`app:check`); the `:`
//! separators become levels, so `app:check` sits under an `app` group, and a
//! task named like a group (`app` itself) makes that group runnable.

use vstd::prelude::*;
use crate::node::{Children, ChildrenV, Node, NodeKind, NodeV, copy_strings, lemma_nodes_view, node_view, nodes_view, strs};
use crate::source::{Loaded, convert_args, convert_flags, converted_args, converted_flags, text_or_empty};
use crate::spec::{CmdV, Spec, SpecCommand, cmd_view, lemma_cmds_view};
use crate::text::{
    chars_of, eq_chars, find, find_from, join, join_strings, lemma_find_from_range, matches_at, push_char, push_str,
    split_once, split_once_on, text_le, text_le_exec, to_string,
};
use crate::usage_source::path_id;
use crate::text::{lemma_text_le_total, lemma_text_le_trans};

verus! {

/// mise's task list.
pub struct MiseTasksSource;

pub type Entry = (Seq<char>, CmdV);

/// The group an entry belongs to (its name up to the first `:`) and the
/// rest of its name, or `None` for a top-level task.
pub open spec fn group_split(name: Seq<char>) -> Option<(Seq<char>, Seq<char>)> {
    split_once(name, seq![':'])
}

/// The name an entry shows at this level.
pub open spec fn entry_key(name: Seq<char>) -> Seq<char> {
    match group_split(name) {
        Some((g, _)) => g,
        None => name,
    }
}

pub open spec fn text_lt(a: Seq<char>, b: Seq<char>) -> bool {
    text_le(a, b) && a != b
}

/// `k` added to the sorted names `ks` unless already there.
pub open spec fn insert_key(ks: Seq<Seq<char>>, k: Seq<char>) -> Seq<Seq<char>>
    decreases ks.len(),
{
    if ks.len() == 0 {
        seq![k]
    } else if ks.last() == k {
        ks
    } else if text_lt(ks.last(), k) {
        ks.push(k)
    } else {
        insert_key(ks.drop_last(), k).push(ks.last())
    }
}

/// The names shown at this level, sorted, each once.
pub open spec fn keys_of(entries: Seq<Entry>) -> Seq<Seq<char>>
    decreases entries.len(),
{
    if entries.len() == 0 {
        seq![]
    } else {
        insert_key(keys_of(entries.drop_last()), entry_key(entries.last().0))
    }
}

/// The entries of group `g`, in order, named by the rest of their names.
pub open spec fn group_entries(entries: Seq<Entry>, g: Seq<char>) -> Seq<Entry>
    decreases entries.len(),
{
    if entries.len() == 0 {
        seq![]
    } else {
        let rest = group_entries(entries.drop_last(), g);
        match group_split(entries.last().0) {
            Some((h, r)) => if h == g { rest.push((r, entries.last().1)) } else { rest },
            None => rest,
        }
    }
}

/// The last top-level task named `k`.
pub open spec fn leaf_of(entries: Seq<Entry>, k: Seq<char>) -> Option<CmdV>
    decreases entries.len(),
{
    if entries.len() == 0 {
        None
    } else if group_split(entries.last().0) is None && entries.last().0 == k {
        Some(entries.last().1)
    } else {
        leaf_of(entries.drop_last(), k)
    }
}

pub open spec fn names_size(entries: Seq<Entry>) -> nat
    decreases entries.len(),
{
    if entries.len() == 0 {
        0
    } else {
        names_size(entries.drop_last()) + entries.last().0.len()
    }
}

pub proof fn lemma_split_shorter(name: Seq<char>)
    ensures
        group_split(name) matches Some((g, r)) ==> r.len() < name.len(),
{
    lemma_find_from_range(name, seq![':'], 0);
}

pub proof fn lemma_group_smaller(entries: Seq<Entry>, g: Seq<char>)
    ensures
        names_size(group_entries(entries, g)) <= names_size(entries),
        group_entries(entries, g).len() > 0 ==> names_size(group_entries(entries, g)) < names_size(entries),
    decreases entries.len(),
{
    if entries.len() > 0 {
        lemma_group_smaller(entries.drop_last(), g);
        lemma_split_shorter(entries.last().0);
        let rest = group_entries(entries.drop_last(), g);
        match group_split(entries.last().0) {
            Some((h, r)) => {
                if h == g {
                    assert(rest.push((r, entries.last().1)).drop_last() =~= rest);
                }
            },
            None => {},
        }
    }
}

/// The node for name `k`: a branch over its group's tasks (runnable, and
/// carrying that task's details, when a task has the group's own name), or
/// a leaf for a top-level task.
pub open spec fn task_node(tool_id: Seq<char>, prefix: Seq<Seq<char>>, entries: Seq<Entry>, k: Seq<char>) -> NodeV
    decreases names_size(entries), 0nat,
{
    let segs = prefix.push(k);
    let grp = group_entries(entries, k);
    let leaf = leaf_of(entries, k);
    let (description, flags, args) = match leaf {
        Some(c) => (text_or_empty(c.help), converted_flags(c.flags), converted_args(c.args)),
        None => (seq![], seq![], seq![]),
    };
    if grp.len() > 0 {
        proof {
            lemma_group_smaller(entries, k);
        }
        NodeV {
            id: path_id(tool_id, segs),
            name: k,
            description,
            kind: NodeKind::Branch,
            runnable: leaf is Some,
            flags,
            args,
            tool_id,
            command_path: segs,
            children: ChildrenV::Loaded(hierarchy(tool_id, segs, grp)),
        }
    } else {
        NodeV {
            id: path_id(tool_id, segs),
            name: k,
            description,
            kind: NodeKind::Leaf,
            runnable: true,
            flags,
            args,
            tool_id,
            command_path: segs,
            children: ChildrenV::Loaded(seq![]),
        }
    }
}

/// The nodes for the names `keys`, in that order.
pub open spec fn task_nodes(tool_id: Seq<char>, prefix: Seq<Seq<char>>, entries: Seq<Entry>, keys: Seq<Seq<char>>) -> Seq<NodeV>
    decreases names_size(entries), keys.len() + 1,
{
    if keys.len() == 0 {
        seq![]
    } else {
        task_nodes(tool_id, prefix, entries, keys.drop_last()).push(task_node(tool_id, prefix, entries, keys.last()))
    }
}

/// Whether a node is a group of tasks.
pub open spec fn is_group(n: NodeV) -> bool {
    n.kind == NodeKind::Branch
}

/// The tree of a level's tasks: one node per name; the groups first, sorted
/// by name, then the plain tasks, sorted by name.
pub open spec fn hierarchy(tool_id: Seq<char>, prefix: Seq<Seq<char>>, entries: Seq<Entry>) -> Seq<NodeV>
    decreases names_size(entries), keys_of(entries).len() + 2,
{
    let all = task_nodes(tool_id, prefix, entries, keys_of(entries));
    group_nodes(all) + plain_nodes(all)
}

/// The groups among `s`, in order.
pub open spec fn group_nodes(s: Seq<NodeV>) -> Seq<NodeV> {
    s.filter(|n: NodeV| is_group(n))
}

/// The plain tasks among `s`, in order.
pub open spec fn plain_nodes(s: Seq<NodeV>) -> Seq<NodeV> {
    s.filter(|n: NodeV| !is_group(n))
}

} // verus!

verus! {

pub open spec fn entries_view<'a>(v: Seq<(String, &'a SpecCommand)>) -> Seq<Entry> {
    v.map_values(|e: (String, &'a SpecCommand)| (e.0@, e.1@))
}

fn text_lt_exec(a: &[char], b: &[char]) -> (r: bool)
    ensures
        r == text_lt(a@, b@),
{
    text_le_exec(a, b) && !eq_chars(a, b)
}

fn add_key(keys: &mut Vec<String>, k: &String)
    ensures
        strs(final(keys)@) == insert_key(strs(old(keys)@), k@),
{
    let ghost ks = strs(keys@);
    let kc = chars_of(k.as_str());
    let mut p: usize = keys.len();
    assert(ks.take(p as int) =~= ks);
    assert(insert_key(ks, k@) + ks.skip(p as int) =~= insert_key(ks, k@));
    loop
        invariant
            p <= keys@.len(),
            ks == strs(keys@),
            *keys == *old(keys),
            kc@ == k@,
            insert_key(ks, k@) == insert_key(ks.take(p as int), k@) + ks.skip(p as int),
        decreases p,
    {
        if p == 0 {
            keys.insert(0, k.clone());
            proof {
                assert(insert_key(ks.take(0), k@) == seq![k@]);
                assert(strs(keys@) =~= seq![k@] + ks.skip(0));
            }
            return;
        }
        let last = chars_of(keys[p - 1].as_str());
        let ghost pre = ks.take(p as int);
        assert(pre.last() == ks[p - 1]);
        if eq_chars(last.as_slice(), kc.as_slice()) {
            proof {
                assert(insert_key(pre, k@) == pre);
                assert(pre + ks.skip(p as int) =~= ks);
            }
            return;
        }
        if text_lt_exec(last.as_slice(), kc.as_slice()) {
            keys.insert(p, k.clone());
            proof {
                assert(insert_key(pre, k@) == pre.push(k@));
                assert(strs(keys@) =~= pre.push(k@) + ks.skip(p as int));
            }
            return;
        }
        proof {
            assert(pre.drop_last() =~= ks.take(p - 1));
            assert(insert_key(pre, k@) == insert_key(ks.take(p - 1), k@).push(pre.last()));
            assert(insert_key(ks.take(p - 1), k@).push(pre.last()) + ks.skip(p as int) =~= insert_key(ks.take(p - 1), k@) + ks.skip(p - 1));
        }
        p -= 1;
    }
}

fn build_hierarchy<'a>(tool_id: &str, prefix: &Vec<String>, entries: &Vec<(String, &'a SpecCommand)>) -> (r: Vec<Node>)
    ensures
        nodes_view(r@) == hierarchy(tool_id@, strs(prefix@), entries_view(entries@)),
    decreases names_size(entries_view(entries@)),
{
    let ghost ev = entries_view(entries@);
    let mut keys: Vec<String> = Vec::new();
    let mut i: usize = 0;
    while i < entries.len()
        invariant
            i <= entries@.len(),
            ev == entries_view(entries@),
            strs(keys@) == keys_of(ev.take(i as int)),
        decreases entries@.len() - i,
    {
        let nc = chars_of(entries[i].0.as_str());
        let key: String = match split_once_on(nc.as_slice(), &[':']) {
            Some((g, _)) => to_string(g),
            None => entries[i].0.clone(),
        };
        proof {
            assert([':']@ =~= seq![':']);
            assert(ev.take(i + 1).drop_last() =~= ev.take(i as int));
            assert(ev.take(i + 1).last() == ev[i as int]);
            assert(key@ == entry_key(ev[i as int].0));
        }
        add_key(&mut keys, &key);
        i += 1;
    }
    assert(ev.take(entries@.len() as int) =~= ev);
    let ghost ks = strs(keys@);
    let mut nodes: Vec<Node> = Vec::new();
    let mut j: usize = 0;
    while j < keys.len()
        invariant
            j <= keys@.len(),
            ks == strs(keys@),
            ks == keys_of(ev),
            ev == entries_view(entries@),
            nodes_view(nodes@) == task_nodes(tool_id@, strs(prefix@), ev, ks.take(j as int)),
        decreases keys@.len() - j,
    {
        let k = &keys[j];
        let kc = chars_of(k.as_str());
        // The group's entries and the top-level task of the same name.
        let mut grp: Vec<(String, &'a SpecCommand)> = Vec::new();
        let mut leaf: Option<&'a SpecCommand> = None;
        let mut q: usize = 0;
        while q < entries.len()
            invariant
                q <= entries@.len(),
                ev == entries_view(entries@),
                kc@ == k@,
                entries_view(grp@) == group_entries(ev.take(q as int), k@),
                match leaf {
                    Some(c) => leaf_of(ev.take(q as int), k@) == Some(c@),
                    None => leaf_of(ev.take(q as int), k@) is None,
                },
            decreases entries@.len() - q,
        {
            let nc = chars_of(entries[q].0.as_str());
            proof {
                assert([':']@ =~= seq![':']);
                assert(ev.take(q + 1).drop_last() =~= ev.take(q as int));
                assert(ev.take(q + 1).last() == ev[q as int]);
            }
            match split_once_on(nc.as_slice(), &[':']) {
                Some((h, rest)) => {
                    if eq_chars(h, kc.as_slice()) {
                        let ghost b = entries_view(grp@);
                        grp.push((to_string(rest), entries[q].1));
                        assert(entries_view(grp@) =~= b.push((rest@, entries@[q as int].1@)));
                    }
                },
                None => {
                    if eq_chars(nc.as_slice(), kc.as_slice()) {
                        leaf = Some(entries[q].1);
                    }
                },
            }
            q += 1;
        }
        assert(ev.take(entries@.len() as int) =~= ev);
        let mut segments = copy_strings(prefix);
        segments.push(k.clone());
        assert(strs(segments@) =~= strs(prefix@).push(k@));
        let mut id = String::new();
        push_str(&mut id, tool_id);
        push_char(&mut id, '/');
        assert(['/']@ =~= seq!['/']);
        assert(strs(segments@) == segments@.map_values(|x: String| x@));
        let joined = join_strings(&segments, &['/']);
        push_str(&mut id, joined.as_str());
        let (description, flags, args) = match leaf {
            Some(c) => (
                match &c.help {
                    Some(h) => h.clone(),
                    None => String::new(),
                },
                convert_flags(c.flags.as_slice()),
                convert_args(c.args.as_slice()),
            ),
            None => (String::new(), Vec::new(), Vec::new()),
        };
        proof {
            if leaf is None {
                assert(crate::node::flag_views(flags@) =~= Seq::<crate::node::FlagNV>::empty());
                assert(crate::node::arg_views(args@) =~= Seq::<crate::node::ArgNV>::empty());
            }
        }
        let node = if grp.len() > 0 {
            proof {
                lemma_group_smaller(ev, k@);
            }
            let kids = build_hierarchy(tool_id, &segments, &grp);
            Node {
                id,
                name: k.clone(),
                description,
                kind: NodeKind::Branch,
                runnable: leaf.is_some(),
                flags,
                args,
                tool_id: to_string(chars_of(tool_id).as_slice()),
                command_path: segments,
                children: Children::Loaded(kids),
            }
        } else {
            let kids: Vec<Node> = Vec::new();
            assert(nodes_view(kids@) =~= Seq::<NodeV>::empty());
            Node {
                id,
                name: k.clone(),
                description,
                kind: NodeKind::Leaf,
                runnable: true,
                flags,
                args,
                tool_id: to_string(chars_of(tool_id).as_slice()),
                command_path: segments,
                children: Children::Loaded(kids),
            }
        };
        let ghost old_nodes = nodes@;
        nodes.push(node);
        proof {
            assert(nodes@.drop_last() =~= old_nodes);
            assert(ks.take(j + 1).drop_last() =~= ks.take(j as int));
            assert(ks.take(j + 1).last() == k@);
            let tn = task_node(tool_id@, strs(prefix@), ev, k@);
            let v = node_view(node);
            assert(v.id == tn.id);
            assert(v.kind == tn.kind);
            assert(v.children == tn.children);
            assert(v == tn);
        }
        j += 1;
    }
    assert(ks.take(keys@.len() as int) =~= ks);
    let ghost all = nodes_view(nodes@);
    let mut groups: Vec<Node> = Vec::new();
    let mut plain: Vec<Node> = Vec::new();
    let mut rest = nodes;
    let ghost mut q: int = 0;
    proof {
        reveal(Seq::filter);
        lemma_nodes_view(rest@);
        assert(group_nodes(all.take(0)) =~= Seq::<NodeV>::empty());
        assert(plain_nodes(all.take(0)) =~= Seq::<NodeV>::empty());
        assert(nodes_view(groups@) =~= Seq::<NodeV>::empty());
        assert(nodes_view(plain@) =~= Seq::<NodeV>::empty());
    }
    while rest.len() > 0
        invariant
            0 <= q <= all.len(),
            rest@.len() == all.len() - q,
            forall|k: int| 0 <= k < rest@.len() ==> node_view(#[trigger] rest@[k]) == all[q + k],
            nodes_view(groups@) == group_nodes(all.take(q)),
            nodes_view(plain@) == plain_nodes(all.take(q)),
        decreases rest@.len(),
    {
        let ghost before = rest@;
        let n = rest.remove(0);
        proof {
            reveal(Seq::filter);
            assert(node_view(n) == all[q]);
            assert(all.take(q + 1).drop_last() =~= all.take(q));
            assert(all.take(q + 1).last() == all[q]);
            assert forall|k: int| 0 <= k < rest@.len() implies node_view(#[trigger] rest@[k]) == all[q + 1 + k] by {
                assert(rest@[k] == before[k + 1]);
            }
        }
        let grouped = match n.kind {
            NodeKind::Branch => true,
            _ => false,
        };
        if grouped {
            let ghost g0 = groups@;
            groups.push(n);
            assert(groups@.drop_last() =~= g0);
        } else {
            let ghost p0 = plain@;
            plain.push(n);
            assert(plain@.drop_last() =~= p0);
        }
        proof {
            q = q + 1;
        }
    }
    proof {
        assert(all.take(q) =~= all);
        lemma_nodes_view(groups@);
        lemma_nodes_view(plain@);
    }
    let ghost gv = nodes_view(groups@);
    let ghost pv = nodes_view(plain@);
    let mut out = groups;
    let ghost mut m: int = 0;
    proof {
        assert(gv + pv.take(0) =~= gv);
    }
    while plain.len() > 0
        invariant
            0 <= m <= pv.len(),
            plain@.len() == pv.len() - m,
            forall|i: int| 0 <= i < plain@.len() ==> node_view(#[trigger] plain@[i]) == pv[m + i],
            nodes_view(out@) == gv + pv.take(m),
        decreases plain@.len(),
    {
        let ghost before = plain@;
        let ghost o0 = out@;
        let n = plain.remove(0);
        proof {
            assert(node_view(n) == pv[m]);
            assert forall|i: int| 0 <= i < plain@.len() implies node_view(#[trigger] plain@[i]) == pv[m + 1 + i] by {
                assert(plain@[i] == before[i + 1]);
            }
        }
        out.push(n);
        proof {
            assert(out@.drop_last() =~= o0);
            assert(gv + pv.take(m + 1) =~= (gv + pv.take(m)).push(pv[m]));
            m = m + 1;
        }
    }
    proof {
        assert(pv.take(m) =~= pv);
    }
    out
}

/// The tree of mise's tasks, from the spec `mise tasks --usage` prints.
pub fn nodes_from_spec(spec: &Spec, tool_id: &str) -> (r: Vec<Node>)
    ensures
        nodes_view(r@) == hierarchy(tool_id@, seq![], spec@.cmd.subcommands.map_values(|c: CmdV| (c.name, c))),
{
    proof {
        lemma_cmds_view(spec.cmd.subcommands@);
    }
    let mut entries: Vec<(String, &SpecCommand)> = Vec::new();
    let subs = &spec.cmd.subcommands;
    let ghost sv = spec@.cmd.subcommands;
    let mut i: usize = 0;
    while i < subs.len()
        invariant
            i <= subs@.len(),
            *subs == spec.cmd.subcommands,
            sv == spec@.cmd.subcommands,
            sv.len() == subs@.len(),
            forall|k: int| 0 <= k < sv.len() ==> #[trigger] sv[k] == cmd_view(subs@[k]),
            entries_view(entries@) == sv.take(i as int).map_values(|c: CmdV| (c.name, c)),
        decreases subs@.len() - i,
    {
        let c = &subs[i];
        let ghost b = entries_view(entries@);
        entries.push((c.name.clone(), c));
        assert(entries_view(entries@) =~= b.push((c.name@, c@)));
        assert(sv[i as int] == c@);
        assert(c@.name == c.name@);
        assert(sv.take(i + 1) =~= sv.take(i as int).push(sv[i as int]));
        assert(entries_view(entries@) =~= sv.take(i + 1).map_values(|c: CmdV| (c.name, c)));
        i += 1;
    }
    assert(sv.take(subs@.len() as int) =~= sv);
    let prefix: Vec<String> = Vec::new();
    assert(strs(prefix@) =~= Seq::<Seq<char>>::empty());
    build_hierarchy(tool_id, &prefix, &entries)
}

impl MiseTasksSource {
    pub fn tool_id(&self) -> (r: String)
        ensures
            r@ == "mise_tasks"@,
    {
        to_string(chars_of("mise_tasks").as_slice())
    }

    pub fn tool_name(&self) -> (r: String)
        ensures
            r@ == "Mise Tasks"@,
    {
        to_string(chars_of("Mise Tasks").as_slice())
    }

    /// Tasks run as `mise run <task>`.
    pub fn tool_bin(&self) -> (r: Vec<String>)
        ensures
            strs(r@) == seq!["mise"@, "run"@],
    {
        let r = vec![to_string(chars_of("mise").as_slice()), to_string(chars_of("run").as_slice())];
        assert(strs(r@) =~= seq!["mise"@, "run"@]);
        r
    }

    /// A task's segments join back with `:`.
    pub fn tool_path_separator(&self) -> (r: String)
        ensures
            r@ == ":"@,
    {
        to_string(chars_of(":").as_slice())
    }

    /// What loading the task list gives: the whole task tree, fully loaded.
    pub fn loaded_from_spec(&self, spec: &Spec) -> (r: Loaded)
        ensures
            r.description@.len() == 0,
            !r.runnable,
            r.flags@.len() == 0,
            r.args@.len() == 0,
            nodes_view(r.children@) == hierarchy("mise_tasks"@, seq![], spec@.cmd.subcommands.map_values(|c: CmdV| (c.name, c))),
    {
        let id = self.tool_id();
        Loaded { description: String::new(), runnable: false, flags: Vec::new(), args: Vec::new(), children: nodes_from_spec(spec, id.as_str()) }
    }
}

} // verus!

verus! {

proof fn lemma_text_le_antisym(a: Seq<char>, b: Seq<char>)
    requires
        text_le(a, b),
        text_le(b, a),
    ensures
        a == b,
    decreases a.len(),
{
    if a.len() > 0 && b.len() > 0 {
        lemma_text_le_antisym(a.skip(1), b.skip(1));
        assert(a =~= seq![a[0]] + a.skip(1));
        assert(b =~= seq![b[0]] + b.skip(1));
    }
}

proof fn lemma_text_lt_trans(a: Seq<char>, b: Seq<char>, c: Seq<char>)
    requires
        text_lt(a, b),
        text_lt(b, c),
    ensures
        text_lt(a, c),
{
    lemma_text_le_trans(a, b, c);
    if a == c {
        lemma_text_le_antisym(a, b);
    }
}

/// Each name before the next.
pub open spec fn strictly_sorted(ks: Seq<Seq<char>>) -> bool {
    forall|i: int, j: int| 0 <= i < j < ks.len() ==> text_lt(ks[i], ks[j])
}

proof fn lemma_insert_key(ks: Seq<Seq<char>>, k: Seq<char>)
    requires
        strictly_sorted(ks),
    ensures
        strictly_sorted(insert_key(ks, k)),
        forall|x: Seq<char>| #[trigger] insert_key(ks, k).contains(x) <==> (ks.contains(x) || x == k),
    decreases ks.len(),
{
    if ks.len() == 0 {
        assert(insert_key(ks, k) == seq![k]);
        assert forall|x: Seq<char>| #[trigger] insert_key(ks, k).contains(x) <==> (ks.contains(x) || x == k) by {
            if x == k {
                assert(seq![k][0] == x);
            }
        }
    } else if ks.last() == k {
        assert forall|x: Seq<char>| #[trigger] insert_key(ks, k).contains(x) <==> (ks.contains(x) || x == k) by {
            if x == k {
                assert(ks[ks.len() - 1] == x);
            }
        }
    } else if text_lt(ks.last(), k) {
        let r = ks.push(k);
        assert forall|i: int, j: int| 0 <= i < j < r.len() implies text_lt(r[i], r[j]) by {
            if j == ks.len() && i < ks.len() - 1 {
                lemma_text_lt_trans(ks[i], ks.last(), k);
            }
        }
        assert forall|x: Seq<char>| #[trigger] r.contains(x) <==> (ks.contains(x) || x == k) by {
            if r.contains(x) {
                let i = choose|i: int| 0 <= i < r.len() && r[i] == x;
                if i < ks.len() {
                    assert(ks[i] == x);
                }
            }
            if ks.contains(x) {
                let i = choose|i: int| 0 <= i < ks.len() && ks[i] == x;
                assert(r[i] == x);
            }
            if x == k {
                assert(r[ks.len() as int] == x);
            }
        }
    } else {
        lemma_text_le_total(ks.last(), k);
        let init = ks.drop_last();
        assert(strictly_sorted(init)) by {
            assert forall|i: int, j: int| 0 <= i < j < init.len() implies text_lt(init[i], init[j]) by {
                assert(init[i] == ks[i] && init[j] == ks[j]);
            }
        }
        lemma_insert_key(init, k);
        let m = insert_key(init, k);
        let r = m.push(ks.last());
        assert forall|i: int| 0 <= i < m.len() implies text_lt(#[trigger] m[i], ks.last()) by {
            assert(m.contains(m[i]));
            if m[i] != k {
                let q = choose|q: int| 0 <= q < init.len() && init[q] == m[i];
                assert(ks[q] == init[q]);
            }
        }
        assert forall|i: int, j: int| 0 <= i < j < r.len() implies text_lt(r[i], r[j]) by {
            if j == m.len() {
                assert(r[i] == m[i]);
            } else {
                assert(r[i] == m[i] && r[j] == m[j]);
            }
        }
        assert forall|x: Seq<char>| #[trigger] r.contains(x) <==> (ks.contains(x) || x == k) by {
            if r.contains(x) {
                let i = choose|i: int| 0 <= i < r.len() && r[i] == x;
                if i < m.len() {
                    assert(m[i] == x);
                    assert(m.contains(x));
                    if x != k {
                        let q = choose|q: int| 0 <= q < init.len() && init[q] == x;
                        assert(ks[q] == x);
                    }
                } else {
                    assert(ks[ks.len() - 1] == x);
                }
            }
            if ks.contains(x) {
                let i = choose|i: int| 0 <= i < ks.len() && ks[i] == x;
                if i < ks.len() - 1 {
                    assert(init[i] == x);
                    assert(init.contains(x));
                    assert(m.contains(x));
                    let q = choose|q: int| 0 <= q < m.len() && m[q] == x;
                    assert(r[q] == x);
                } else {
                    assert(r[m.len() as int] == x);
                }
            }
            if x == k {
                assert(m.contains(k));
                let q = choose|q: int| 0 <= q < m.len() && m[q] == k;
                assert(r[q] == x);
            }
        }
    }
}

proof fn lemma_keys_sorted(entries: Seq<Entry>)
    ensures
        strictly_sorted(keys_of(entries)),
    decreases entries.len(),
{
    if entries.len() > 0 {
        lemma_keys_sorted(entries.drop_last());
        lemma_insert_key(keys_of(entries.drop_last()), entry_key(entries.last().0));
    }
}

proof fn lemma_task_nodes_names(tool_id: Seq<char>, prefix: Seq<Seq<char>>, entries: Seq<Entry>, keys: Seq<Seq<char>>)
    ensures
        task_nodes(tool_id, prefix, entries, keys).len() == keys.len(),
        forall|i: int| 0 <= i < keys.len() ==> (#[trigger] task_nodes(tool_id, prefix, entries, keys)[i]).name == keys[i],
    decreases keys.len(),
{
    if keys.len() > 0 {
        lemma_task_nodes_names(tool_id, prefix, entries, keys.drop_last());
        let t = task_nodes(tool_id, prefix, entries, keys);
        assert(t == task_nodes(tool_id, prefix, entries, keys.drop_last()).push(task_node(tool_id, prefix, entries, keys.last())));
        assert(task_node(tool_id, prefix, entries, keys.last()).name == keys.last());
        assert forall|i: int| 0 <= i < keys.len() implies (#[trigger] t[i]).name == keys[i] by {
            if i < keys.len() - 1 {
                assert(t[i] == task_nodes(tool_id, prefix, entries, keys.drop_last())[i]);
            }
        }
    }
}

proof fn lemma_filter_sub(s: Seq<NodeV>, p: spec_fn(NodeV) -> bool)
    ensures
        forall|i: int| 0 <= i < s.filter(p).len() ==> s.contains(#[trigger] s.filter(p)[i]) && p(s.filter(p)[i]),
        s.no_duplicates() ==> s.filter(p).no_duplicates(),
    decreases s.len(),
{
    reveal(Seq::filter);
    if s.len() > 0 {
        let init = s.drop_last();
        lemma_filter_sub(init, p);
        let sub = init.filter(p);
        assert forall|i: int| 0 <= i < sub.len() implies s.contains(#[trigger] sub[i]) by {
            let q = choose|q: int| 0 <= q < init.len() && init[q] == sub[i];
            assert(s[q] == sub[i]);
        }
        if p(s.last()) {
            let f = sub.push(s.last());
            assert(s.filter(p) == f);
            assert forall|i: int| 0 <= i < f.len() implies s.contains(#[trigger] f[i]) && p(f[i]) by {
                if i < sub.len() {
                    assert(f[i] == sub[i]);
                } else {
                    assert(s[s.len() - 1] == f[i]);
                }
            }
            if s.no_duplicates() {
                assert(init.no_duplicates());
                assert forall|i: int, j: int| 0 <= i < f.len() && 0 <= j < f.len() && i != j implies f[i] != f[j] by {
                    if i < sub.len() && j < sub.len() {
                        assert(f[i] == sub[i] && f[j] == sub[j]);
                    } else if i < sub.len() {
                        assert(f[i] == sub[i]);
                        let q = choose|q: int| 0 <= q < init.len() && init[q] == sub[i];
                        assert(s[q] == init[q]);
                    } else if j < sub.len() {
                        assert(f[j] == sub[j]);
                        let q = choose|q: int| 0 <= q < init.len() && init[q] == sub[j];
                        assert(s[q] == init[q]);
                    }
                }
            }
        } else {
            assert(s.filter(p) == sub);
            if s.no_duplicates() {
                assert(init.no_duplicates());
            }
        }
    }
}

/// Each level of the task tree shows each name once, and so each id once:
/// a task that is also a group is one node, not two.
pub proof fn lemma_hierarchy_names_unique(tool_id: Seq<char>, prefix: Seq<Seq<char>>, entries: Seq<Entry>)
    ensures
        forall|i: int, j: int| 0 <= i < j < hierarchy(tool_id, prefix, entries).len()
            ==> #[trigger] hierarchy(tool_id, prefix, entries)[i].name != #[trigger] hierarchy(tool_id, prefix, entries)[j].name,
{
    let keys = keys_of(entries);
    let all = task_nodes(tool_id, prefix, entries, keys);
    lemma_keys_sorted(entries);
    lemma_task_nodes_names(tool_id, prefix, entries, keys);
    assert(all.no_duplicates()) by {
        assert forall|i: int, j: int| 0 <= i < all.len() && 0 <= j < all.len() && i != j implies all[i] != all[j] by {
            if i < j {
                assert(text_lt(keys[i], keys[j]));
            } else {
                assert(text_lt(keys[j], keys[i]));
            }
        }
    }
    let g = group_nodes(all);
    let pl = plain_nodes(all);
    lemma_filter_sub(all, |n: NodeV| is_group(n));
    lemma_filter_sub(all, |n: NodeV| !is_group(n));
    let h = g + pl;
    assert(h == hierarchy(tool_id, prefix, entries));
    assert forall|i: int, j: int| 0 <= i < j < h.len() implies #[trigger] h[i].name != #[trigger] h[j].name by {
        let a = h[i];
        let b = h[j];
        if i < g.len() {
            assert(a == g[i]);
        } else {
            assert(a == pl[i - g.len()]);
        }
        if j < g.len() {
            assert(b == g[j]);
        } else {
            assert(b == pl[j - g.len()]);
        }
        assert(all.contains(a) && all.contains(b));
        let ia = choose|q: int| 0 <= q < all.len() && all[q] == a;
        let ib = choose|q: int| 0 <= q < all.len() && all[q] == b;
        if a.name == b.name {
            if ia < ib {
                assert(text_lt(keys[ia], keys[ib]));
            } else if ib < ia {
                assert(text_lt(keys[ib], keys[ia]));
            }
            assert(a == b);
            if i < g.len() && j < g.len() {
                assert(g.no_duplicates());
            } else if i >= g.len() && j >= g.len() {
                assert(pl.no_duplicates());
            } else {
                assert(is_group(a) != is_group(b));
            }
        }
    }
}

} // verus!

verus! {

proof fn lemma_keys_cover(entries: Seq<Entry>)
    ensures
        forall|i: int| 0 <= i < entries.len() ==> keys_of(entries).contains(#[trigger] entry_key(entries[i].0)),
    decreases entries.len(),
{
    if entries.len() > 0 {
        let init = entries.drop_last();
        lemma_keys_cover(init);
        lemma_keys_sorted(init);
        lemma_insert_key(keys_of(init), entry_key(entries.last().0));
        assert forall|i: int| 0 <= i < entries.len() implies keys_of(entries).contains(#[trigger] entry_key(entries[i].0)) by {
            if i < init.len() {
                assert(init[i] == entries[i]);
                assert(keys_of(init).contains(entry_key(init[i].0)));
            }
        }
    }
}

/// Every task shows at its level: the tree has a node named by each
/// entry's name up to its first `:` (the task itself, or the group it
/// belongs to).
pub proof fn lemma_hierarchy_covers_entries(tool_id: Seq<char>, prefix: Seq<Seq<char>>, entries: Seq<Entry>, i: int)
    requires
        0 <= i < entries.len(),
    ensures
        exists|j: int| 0 <= j < hierarchy(tool_id, prefix, entries).len()
            && #[trigger] hierarchy(tool_id, prefix, entries)[j].name == entry_key(entries[i].0),
{
    let keys = keys_of(entries);
    let all = task_nodes(tool_id, prefix, entries, keys);
    lemma_keys_cover(entries);
    lemma_task_nodes_names(tool_id, prefix, entries, keys);
    let k = entry_key(entries[i].0);
    assert(keys.contains(k));
    let q = choose|q: int| 0 <= q < keys.len() && keys[q] == k;
    let n = all[q];
    assert(n.name == k);
    let g = group_nodes(all);
    let pl = plain_nodes(all);
    let h = g + pl;
    assert(h == hierarchy(tool_id, prefix, entries));
    broadcast use vstd::seq_lib::group_filter_ensures;
    if is_group(n) {
        assert(g.contains(n)) by {
            all.lemma_filter_contains(|m: NodeV| is_group(m), q);
        }
        let j = choose|j: int| 0 <= j < g.len() && g[j] == n;
        assert(h[j] == n);
    } else {
        assert(pl.contains(n)) by {
            all.lemma_filter_contains(|m: NodeV| !is_group(m), q);
        }
        let j = choose|j: int| 0 <= j < pl.len() && pl[j] == n;
        assert(h[g.len() + j] == n);
    }
}

} // verus!

verus! {

/// Names strictly in order.
pub open spec fn names_sorted(s: Seq<NodeV>) -> bool {
    forall|i: int, j: int| 0 <= i < j < s.len() ==> text_lt(#[trigger] s[i].name, #[trigger] s[j].name)
}

proof fn lemma_filter_sorted(s: Seq<NodeV>, p: spec_fn(NodeV) -> bool)
    requires
        names_sorted(s),
    ensures
        names_sorted(s.filter(p)),
    decreases s.len(),
{
    reveal(Seq::filter);
    if s.len() > 0 {
        let init = s.drop_last();
        assert(names_sorted(init)) by {
            assert forall|i: int, j: int| 0 <= i < j < init.len() implies text_lt(#[trigger] init[i].name, #[trigger] init[j].name) by {
                assert(init[i] == s[i] && init[j] == s[j]);
            }
        }
        lemma_filter_sorted(init, p);
        lemma_filter_sub(init, p);
        let sub = init.filter(p);
        if p(s.last()) {
            let f = sub.push(s.last());
            assert(s.filter(p) == f);
            assert forall|i: int, j: int| 0 <= i < j < f.len() implies text_lt(#[trigger] f[i].name, #[trigger] f[j].name) by {
                if j < sub.len() {
                    assert(f[i] == sub[i] && f[j] == sub[j]);
                } else {
                    assert(f[i] == sub[i]);
                    assert(init.contains(sub[i]));
                    let q = choose|q: int| 0 <= q < init.len() && init[q] == sub[i];
                    assert(s[q] == init[q]);
                    assert(f[j] == s[s.len() - 1]);
                }
            }
        } else {
            assert(s.filter(p) == sub);
        }
    }
}

/// Each level of the task tree lists its groups sorted by name, then its
/// plain tasks sorted by name.
pub proof fn lemma_hierarchy_sorted(tool_id: Seq<char>, prefix: Seq<Seq<char>>, entries: Seq<Entry>)
    ensures
        ({
            let all = task_nodes(tool_id, prefix, entries, keys_of(entries));
            &&& hierarchy(tool_id, prefix, entries) == group_nodes(all) + plain_nodes(all)
            &&& names_sorted(group_nodes(all))
            &&& names_sorted(plain_nodes(all))
            &&& forall|i: int| 0 <= i < group_nodes(all).len() ==> is_group(#[trigger] group_nodes(all)[i])
            &&& forall|i: int| 0 <= i < plain_nodes(all).len() ==> !is_group(#[trigger] plain_nodes(all)[i])
        }),
{
    let keys = keys_of(entries);
    let all = task_nodes(tool_id, prefix, entries, keys);
    lemma_keys_sorted(entries);
    lemma_task_nodes_names(tool_id, prefix, entries, keys);
    assert(names_sorted(all)) by {
        assert forall|i: int, j: int| 0 <= i < j < all.len() implies text_lt(#[trigger] all[i].name, #[trigger] all[j].name) by {
            assert(text_lt(keys[i], keys[j]));
        }
    }
    lemma_filter_sorted(all, |n: NodeV| is_group(n));
    lemma_filter_sorted(all, |n: NodeV| !is_group(n));
    lemma_filter_sub(all, |n: NodeV| is_group(n));
    lemma_filter_sub(all, |n: NodeV| !is_group(n));
}

} // verus!

verus! {

/// Whether some task of this level is called `k`.
pub open spec fn names_task(entries: Seq<Entry>, k: Seq<char>) -> bool {
    exists|i: int| 0 <= i < entries.len() && #[trigger] entries[i].0 == k
}

proof fn lemma_find_from_first(s: Seq<char>, p: Seq<char>, i: int, j: int)
    requires
        0 <= i <= j,
        find_from(s, p, i) == -1 || j < find_from(s, p, i),
    ensures
        !matches_at(s, p, j),
    decreases s.len() + 1 - i,
{
    if i + p.len() > s.len() {
    } else if matches_at(s, p, i) {
    } else if i < j {
        lemma_find_from_first(s, p, i + 1, j);
    }
}

/// The name a task shows at its level holds no `:`.
proof fn lemma_key_no_colon(name: Seq<char>)
    ensures
        !entry_key(name).contains(':'),
        !name.contains(':') ==> group_split(name) is None,
{
    let sep = seq![':'];
    let e = find(name, sep);
    lemma_find_from_range(name, sep, 0);
    let key = entry_key(name);
    if key.contains(':') {
        let j = choose|j: int| 0 <= j < key.len() && key[j] == ':';
        assert(name[j] == ':');
        assert(name.subrange(j, j + 1) =~= sep);
        lemma_find_from_first(name, sep, 0, j);
    }
    if e >= 0 {
        assert(name.subrange(e, e + 1)[0] == sep[0]);
        assert(name[e] == ':');
    }
}

proof fn lemma_keys_from(entries: Seq<Entry>)
    ensures
        forall|x: Seq<char>| #[trigger] keys_of(entries).contains(x)
            ==> exists|i: int| 0 <= i < entries.len() && #[trigger] entry_key(entries[i].0) == x,
    decreases entries.len(),
{
    if entries.len() > 0 {
        let init = entries.drop_last();
        lemma_keys_from(init);
        lemma_keys_sorted(init);
        lemma_insert_key(keys_of(init), entry_key(entries.last().0));
        assert forall|x: Seq<char>| #[trigger] keys_of(entries).contains(x)
            implies exists|i: int| 0 <= i < entries.len() && #[trigger] entry_key(entries[i].0) == x by {
            if x == entry_key(entries.last().0) {
                assert(entry_key(entries[entries.len() - 1].0) == x);
            } else {
                assert(keys_of(init).contains(x));
                let i = choose|i: int| 0 <= i < init.len() && #[trigger] entry_key(init[i].0) == x;
                assert(entries[i] == init[i]);
            }
        }
    }
}

proof fn lemma_leaf_of(entries: Seq<Entry>, k: Seq<char>)
    ensures
        leaf_of(entries, k) is Some <==> exists|i: int| 0 <= i < entries.len()
            && group_split(entries[i].0) is None && #[trigger] entries[i].0 == k,
    decreases entries.len(),
{
    if entries.len() > 0 {
        let init = entries.drop_last();
        lemma_leaf_of(init, k);
        if exists|i: int| 0 <= i < entries.len() && group_split(entries[i].0) is None && #[trigger] entries[i].0 == k {
            let i = choose|i: int| 0 <= i < entries.len() && group_split(entries[i].0) is None && #[trigger] entries[i].0 == k;
            if i < init.len() {
                assert(init[i] == entries[i]);
            }
        }
        if exists|i: int| 0 <= i < init.len() && group_split(init[i].0) is None && #[trigger] init[i].0 == k {
            let i = choose|i: int| 0 <= i < init.len() && group_split(init[i].0) is None && #[trigger] init[i].0 == k;
            assert(entries[i] == init[i]);
        }
    }
}

proof fn lemma_group_nonempty(entries: Seq<Entry>, j: int)
    requires
        0 <= j < entries.len(),
        group_split(entries[j].0) is Some,
    ensures
        group_entries(entries, entry_key(entries[j].0)).len() > 0,
    decreases entries.len(),
{
    let g = entry_key(entries[j].0);
    let init = entries.drop_last();
    if j < init.len() {
        assert(init[j] == entries[j]);
        lemma_group_nonempty(init, j);
        let rest = group_entries(init, g);
        match group_split(entries.last().0) {
            Some((h, r)) => {
                if h == g {
                    assert(rest.push((r, entries.last().1)).len() > 0);
                }
            },
            None => {},
        }
    }
}

proof fn lemma_task_nodes_at(tool_id: Seq<char>, prefix: Seq<Seq<char>>, entries: Seq<Entry>, keys: Seq<Seq<char>>)
    ensures
        task_nodes(tool_id, prefix, entries, keys).len() == keys.len(),
        forall|i: int| 0 <= i < keys.len() ==> #[trigger] task_nodes(tool_id, prefix, entries, keys)[i]
            == task_node(tool_id, prefix, entries, keys[i]),
    decreases keys.len(),
{
    if keys.len() > 0 {
        lemma_task_nodes_at(tool_id, prefix, entries, keys.drop_last());
        let t = task_nodes(tool_id, prefix, entries, keys);
        let t0 = task_nodes(tool_id, prefix, entries, keys.drop_last());
        assert(t == t0.push(task_node(tool_id, prefix, entries, keys.last())));
        assert forall|i: int| 0 <= i < keys.len() implies #[trigger] t[i] == task_node(tool_id, prefix, entries, keys[i]) by {
            if i < keys.len() - 1 {
                assert(t[i] == t0[i]);
                assert(keys.drop_last()[i] == keys[i]);
            }
        }
    }
}

proof fn lemma_task_node_runnable(tool_id: Seq<char>, prefix: Seq<Seq<char>>, entries: Seq<Entry>, k: Seq<char>)
    requires
        keys_of(entries).contains(k),
    ensures
        task_node(tool_id, prefix, entries, k).runnable <==> names_task(entries, k),
{
    lemma_keys_from(entries);
    let j = choose|j: int| 0 <= j < entries.len() && #[trigger] entry_key(entries[j].0) == k;
    lemma_key_no_colon(entries[j].0);
    lemma_key_no_colon(k);
    lemma_leaf_of(entries, k);
    let n = task_node(tool_id, prefix, entries, k);
    if names_task(entries, k) {
        let i = choose|i: int| 0 <= i < entries.len() && #[trigger] entries[i].0 == k;
        assert(group_split(entries[i].0) is None);
        assert(leaf_of(entries, k) is Some);
    }
    if n.runnable && group_entries(entries, k).len() == 0 {
        if group_split(entries[j].0) is Some {
            lemma_group_nonempty(entries, j);
        }
        assert(entries[j].0 == k);
    }
}

/// A node of the task tree can be run exactly when a task of its level
/// bears its name: a plain task always, a group only when a task is named
/// like the group itself.
pub proof fn lemma_hierarchy_runnable(tool_id: Seq<char>, prefix: Seq<Seq<char>>, entries: Seq<Entry>, j: int)
    requires
        0 <= j < hierarchy(tool_id, prefix, entries).len(),
    ensures
        hierarchy(tool_id, prefix, entries)[j].runnable <==> names_task(entries, hierarchy(tool_id, prefix, entries)[j].name),
{
    let keys = keys_of(entries);
    let all = task_nodes(tool_id, prefix, entries, keys);
    lemma_task_nodes_at(tool_id, prefix, entries, keys);
    lemma_filter_sub(all, |n: NodeV| is_group(n));
    lemma_filter_sub(all, |n: NodeV| !is_group(n));
    let g = group_nodes(all);
    let pl = plain_nodes(all);
    let h = g + pl;
    assert(h == hierarchy(tool_id, prefix, entries));
    let n = h[j];
    if j < g.len() {
        assert(n == g[j]);
        assert(all.contains(g[j]));
    } else {
        assert(n == pl[j - g.len()]);
        assert(all.contains(pl[j - g.len()]));
    }
    assert(all.contains(n));
    let q = choose|q: int| 0 <= q < all.len() && all[q] == n;
    assert(n == task_node(tool_id, prefix, entries, keys[q]));
    assert(keys.contains(keys[q]));
    lemma_task_node_runnable(tool_id, prefix, entries, keys[q]);
}

} // verus!

verus! {

proof fn lemma_path_id_last(tool_id: Seq<char>, prefix: Seq<Seq<char>>, a: Seq<char>, b: Seq<char>)
    requires
        path_id(tool_id, prefix.push(a)) == path_id(tool_id, prefix.push(b)),
    ensures
        a == b,
{
    let sep = seq!['/'];
    let x = if prefix.len() == 0 {
        tool_id + sep
    } else {
        assert(prefix.push(a).drop_last() =~= prefix);
        assert(prefix.push(b).drop_last() =~= prefix);
        tool_id + sep + (join(prefix, sep) + sep)
    };
    assert(path_id(tool_id, prefix.push(a)) =~= x + a);
    assert(path_id(tool_id, prefix.push(b)) =~= x + b);
    assert(a =~= (x + a).skip(x.len() as int));
    assert(b =~= (x + b).skip(x.len() as int));
}

proof fn lemma_task_node_place(tool_id: Seq<char>, prefix: Seq<Seq<char>>, entries: Seq<Entry>, k: Seq<char>)
    ensures
        task_node(tool_id, prefix, entries, k).command_path == prefix.push(k),
        task_node(tool_id, prefix, entries, k).id == path_id(tool_id, prefix.push(k)),
        task_node(tool_id, prefix, entries, k).name == k,
{
}

/// Each node of a level of the task tree sits at the level's path plus its
/// own name, and is identified by that path; so no two nodes of a level
/// share an id.
pub proof fn lemma_hierarchy_sibling_ids(tool_id: Seq<char>, prefix: Seq<Seq<char>>, entries: Seq<Entry>)
    ensures
        forall|i: int| 0 <= i < hierarchy(tool_id, prefix, entries).len() ==> {
            let n = #[trigger] hierarchy(tool_id, prefix, entries)[i];
            &&& n.command_path == prefix.push(n.name)
            &&& n.id == path_id(tool_id, n.command_path)
        },
        forall|i: int, j: int| 0 <= i < j < hierarchy(tool_id, prefix, entries).len()
            ==> #[trigger] hierarchy(tool_id, prefix, entries)[i].id != #[trigger] hierarchy(tool_id, prefix, entries)[j].id,
{
    let h = hierarchy(tool_id, prefix, entries);
    let keys = keys_of(entries);
    let all = task_nodes(tool_id, prefix, entries, keys);
    lemma_task_nodes_at(tool_id, prefix, entries, keys);
    lemma_filter_sub(all, |n: NodeV| is_group(n));
    lemma_filter_sub(all, |n: NodeV| !is_group(n));
    let g = group_nodes(all);
    let pl = plain_nodes(all);
    assert(h == g + pl);
    assert forall|i: int| 0 <= i < h.len() implies {
        let n = #[trigger] h[i];
        &&& n.command_path == prefix.push(n.name)
        &&& n.id == path_id(tool_id, n.command_path)
    } by {
        let n = h[i];
        if i < g.len() {
            assert(n == g[i]);
            assert(all.contains(g[i]));
        } else {
            assert(n == pl[i - g.len()]);
            assert(all.contains(pl[i - g.len()]));
        }
        let q = choose|q: int| 0 <= q < all.len() && all[q] == n;
        lemma_task_node_place(tool_id, prefix, entries, keys[q]);
    }
    lemma_hierarchy_names_unique(tool_id, prefix, entries);
    assert forall|i: int, j: int| 0 <= i < j < h.len() implies #[trigger] h[i].id != #[trigger] h[j].id by {
        if h[i].id == h[j].id {
            lemma_path_id_last(tool_id, prefix, h[i].name, h[j].name);
            assert(h[i].name != h[j].name);
        }
    }
}

} // verus!

verus! {

/// Whether no segment of `p` holds a `/`.
pub open spec fn slash_free_path(p: Seq<Seq<char>>) -> bool {
    forall|i: int| 0 <= i < p.len() ==> !(#[trigger] p[i]).contains('/')
}

proof fn lemma_join_shape(l: Seq<Seq<char>>)
    requires
        l.len() > 1,
    ensures
        join(l, seq!['/']) == join(l.drop_last(), seq!['/']) + seq!['/'] + l.last(),
{
}

proof fn lemma_join_slash_free(l: Seq<Seq<char>>)
    requires
        l.len() == 1,
        slash_free_path(l),
    ensures
        !join(l, seq!['/']).contains('/'),
{
    assert(join(l, seq!['/']) == l[0]);
}

proof fn lemma_join_injective(a: Seq<Seq<char>>, b: Seq<Seq<char>>)
    requires
        a.len() > 0,
        b.len() > 0,
        slash_free_path(a),
        slash_free_path(b),
        join(a, seq!['/']) == join(b, seq!['/']),
    ensures
        a == b,
    decreases a.len() + b.len(),
{
    let sep = seq!['/'];
    let s = join(a, sep);
    if a.len() == 1 && b.len() == 1 {
        assert(a =~= seq![a[0]]);
        assert(b =~= seq![b[0]]);
    } else if a.len() == 1 {
        lemma_join_slash_free(a);
        lemma_join_shape(b);
        let y = join(b.drop_last(), sep);
        assert(s[y.len() as int] == '/');
        assert(s.contains('/'));
    } else if b.len() == 1 {
        lemma_join_slash_free(b);
        lemma_join_shape(a);
        let x = join(a.drop_last(), sep);
        assert(s[x.len() as int] == '/');
        assert(s.contains('/'));
    } else {
        lemma_join_shape(a);
        lemma_join_shape(b);
        let x = join(a.drop_last(), sep);
        let y = join(b.drop_last(), sep);
        let la = a.last();
        let lb = b.last();
        assert(!la.contains('/'));
        assert(!lb.contains('/'));
        assert(s.len() == x.len() + 1 + la.len());
        assert(s.len() == y.len() + 1 + lb.len());
        if la.len() < lb.len() {
            assert(s[x.len() as int] == '/');
            assert(lb[x.len() - y.len() - 1] == s[x.len() as int]);
            assert(lb.contains('/'));
        } else if lb.len() < la.len() {
            assert(s[y.len() as int] == '/');
            assert(la[y.len() - x.len() - 1] == s[y.len() as int]);
            assert(la.contains('/'));
        } else {
            assert(la =~= s.skip((x.len() + 1) as int));
            assert(lb =~= s.skip((y.len() + 1) as int));
            assert(x =~= s.take(x.len() as int));
            assert(y =~= s.take(y.len() as int));
            assert(slash_free_path(a.drop_last())) by {
                assert forall|i: int| 0 <= i < a.drop_last().len() implies !(#[trigger] a.drop_last()[i]).contains('/') by {
                    assert(a.drop_last()[i] == a[i]);
                }
            }
            assert(slash_free_path(b.drop_last())) by {
                assert forall|i: int| 0 <= i < b.drop_last().len() implies !(#[trigger] b.drop_last()[i]).contains('/') by {
                    assert(b.drop_last()[i] == b[i]);
                }
            }
            lemma_join_injective(a.drop_last(), b.drop_last());
            assert(a =~= a.drop_last().push(la));
            assert(b =~= b.drop_last().push(lb));
        }
    }
}

/// Two command paths whose segments hold no `/` have the same id only when
/// they are the same path.
pub proof fn lemma_path_id_injective(tool_id: Seq<char>, a: Seq<Seq<char>>, b: Seq<Seq<char>>)
    requires
        a.len() > 0,
        b.len() > 0,
        slash_free_path(a),
        slash_free_path(b),
        path_id(tool_id, a) == path_id(tool_id, b),
    ensures
        a == b,
{
    let sep = seq!['/'];
    let x = tool_id + sep;
    assert(join(a, sep) =~= path_id(tool_id, a).skip(x.len() as int));
    assert(join(b, sep) =~= path_id(tool_id, b).skip(x.len() as int));
    lemma_join_injective(a, b);
}

} // verus!

verus! {

/// The node reached from `s` by following the positions `ip`, one per level.
pub open spec fn node_at(s: Seq<NodeV>, ip: Seq<int>) -> Option<NodeV>
    decreases ip.len(),
{
    if ip.len() == 0 || ip[0] < 0 || ip[0] >= s.len() {
        None
    } else if ip.len() == 1 {
        Some(s[ip[0]])
    } else {
        match s[ip[0]].children {
            ChildrenV::Loaded(c) => node_at(c, ip.drop_first()),
            _ => None,
        }
    }
}

/// Whether no task name holds a `/`.
pub open spec fn names_slash_free(entries: Seq<Entry>) -> bool {
    forall|i: int| 0 <= i < entries.len() ==> !(#[trigger] entries[i].0).contains('/')
}

proof fn lemma_split_slash_free(name: Seq<char>)
    requires
        !name.contains('/'),
    ensures
        !entry_key(name).contains('/'),
        group_split(name) matches Some((g, r)) ==> !r.contains('/'),
{
    let sep = seq![':'];
    let e = find(name, sep);
    lemma_find_from_range(name, sep, 0);
    let key = entry_key(name);
    if key.contains('/') {
        let j = choose|j: int| 0 <= j < key.len() && key[j] == '/';
        assert(name[j] == key[j]);
    }
    if let Some((g, r)) = group_split(name) {
        if r.contains('/') {
            let j = choose|j: int| 0 <= j < r.len() && r[j] == '/';
            assert(name[e + 1 + j] == r[j]);
        }
    }
}

proof fn lemma_group_slash_free(entries: Seq<Entry>, g: Seq<char>)
    requires
        names_slash_free(entries),
    ensures
        names_slash_free(group_entries(entries, g)),
    decreases entries.len(),
{
    if entries.len() > 0 {
        let init = entries.drop_last();
        assert(names_slash_free(init)) by {
            assert forall|i: int| 0 <= i < init.len() implies !(#[trigger] init[i].0).contains('/') by {
                assert(init[i] == entries[i]);
            }
        }
        lemma_group_slash_free(init, g);
        let rest = group_entries(init, g);
        assert(!entries[entries.len() - 1].0.contains('/'));
        lemma_split_slash_free(entries.last().0);
        match group_split(entries.last().0) {
            Some((h, r)) => {
                if h == g {
                    let out = rest.push((r, entries.last().1));
                    assert forall|i: int| 0 <= i < out.len() implies !(#[trigger] out[i].0).contains('/') by {
                        if i < rest.len() {
                            assert(out[i] == rest[i]);
                        }
                    }
                }
            },
            None => {},
        }
    }
}

/// The key a node of the level was built from.
proof fn lemma_hierarchy_member(tool_id: Seq<char>, prefix: Seq<Seq<char>>, entries: Seq<Entry>, i: int) -> (k: Seq<char>)
    requires
        0 <= i < hierarchy(tool_id, prefix, entries).len(),
    ensures
        keys_of(entries).contains(k),
        hierarchy(tool_id, prefix, entries)[i] == task_node(tool_id, prefix, entries, k),
{
    let h = hierarchy(tool_id, prefix, entries);
    let keys = keys_of(entries);
    let all = task_nodes(tool_id, prefix, entries, keys);
    lemma_task_nodes_at(tool_id, prefix, entries, keys);
    lemma_filter_sub(all, |n: NodeV| is_group(n));
    lemma_filter_sub(all, |n: NodeV| !is_group(n));
    let g = group_nodes(all);
    let pl = plain_nodes(all);
    assert(h == g + pl);
    if i < g.len() {
        assert(h[i] == g[i]);
        assert(all.contains(g[i]));
    } else {
        assert(h[i] == pl[i - g.len()]);
        assert(all.contains(pl[i - g.len()]));
    }
    let q = choose|q: int| 0 <= q < all.len() && all[q] == h[i];
    assert(keys.contains(keys[q]));
    keys[q]
}

proof fn lemma_key_slash_free(entries: Seq<Entry>, k: Seq<char>)
    requires
        names_slash_free(entries),
        keys_of(entries).contains(k),
    ensures
        !k.contains('/'),
{
    lemma_keys_from(entries);
    let j = choose|j: int| 0 <= j < entries.len() && #[trigger] entry_key(entries[j].0) == k;
    assert(!entries[j].0.contains('/'));
    lemma_split_slash_free(entries[j].0);
}

proof fn lemma_node_at_place(tool_id: Seq<char>, prefix: Seq<Seq<char>>, entries: Seq<Entry>, ip: Seq<int>)
    requires
        slash_free_path(prefix),
        names_slash_free(entries),
        node_at(hierarchy(tool_id, prefix, entries), ip) is Some,
    ensures
        ({
            let n = node_at(hierarchy(tool_id, prefix, entries), ip)->0;
            &&& n.command_path.len() == prefix.len() + ip.len()
            &&& n.command_path.take(prefix.len() as int + 1) == prefix.push(hierarchy(tool_id, prefix, entries)[ip[0]].name)
            &&& n.id == path_id(tool_id, n.command_path)
            &&& slash_free_path(n.command_path)
        }),
    decreases ip.len(),
{
    let h = hierarchy(tool_id, prefix, entries);
    let q = ip[0];
    let k = lemma_hierarchy_member(tool_id, prefix, entries, q);
    lemma_key_slash_free(entries, k);
    let segs = prefix.push(k);
    assert(slash_free_path(segs)) by {
        assert forall|i: int| 0 <= i < segs.len() implies !(#[trigger] segs[i]).contains('/') by {
            if i < prefix.len() {
                assert(segs[i] == prefix[i]);
            }
        }
    }
    let grp = group_entries(entries, k);
    lemma_task_node_place(tool_id, prefix, entries, k);
    assert(0 <= q < h.len());
    assert(h[q].name == k);
    if ip.len() == 1 {
        assert(node_at(h, ip) == Some(h[q]));
        let n = h[q];
        assert(n.command_path == segs);
        assert(n.command_path.len() == prefix.len() + ip.len());
        assert(segs.take(prefix.len() as int + 1) =~= segs);
        assert(n.id == path_id(tool_id, n.command_path));
        assert(slash_free_path(n.command_path));
    } else {
        if grp.len() > 0 {
            let c = hierarchy(tool_id, segs, grp);
            assert(h[q].children == ChildrenV::Loaded(c));
            lemma_group_slash_free(entries, k);
            let rest = ip.drop_first();
            assert(node_at(c, rest) == node_at(h, ip));
            lemma_node_at_place(tool_id, segs, grp, rest);
            let n = node_at(h, ip)->0;
            assert(n.command_path.take(segs.len() as int + 1).take(prefix.len() as int + 1) =~= n.command_path.take(prefix.len() as int + 1));
            assert(segs.push(c[rest[0]].name).take(prefix.len() as int + 1) =~= segs);
            assert(n.command_path.len() == prefix.len() + ip.len());
            assert(n.command_path.take(prefix.len() as int + 1) == segs);
            assert(n.id == path_id(tool_id, n.command_path));
            assert(slash_free_path(n.command_path));
        } else {
            assert(h[q].children == ChildrenV::Loaded(Seq::<NodeV>::empty()));
            assert(node_at(h, ip) == node_at(Seq::<NodeV>::empty(), ip.drop_first()));
            assert(node_at(Seq::<NodeV>::empty(), ip.drop_first()) is None);
        }
    }
}

/// With task names free of `/`, no two nodes anywhere in the task tree
/// share an id: nodes reached by different position paths have different
/// ids.
pub proof fn lemma_tree_ids_distinct(tool_id: Seq<char>, prefix: Seq<Seq<char>>, entries: Seq<Entry>, ip1: Seq<int>, ip2: Seq<int>)
    requires
        slash_free_path(prefix),
        names_slash_free(entries),
        node_at(hierarchy(tool_id, prefix, entries), ip1) is Some,
        node_at(hierarchy(tool_id, prefix, entries), ip2) is Some,
        ip1 != ip2,
    ensures
        node_at(hierarchy(tool_id, prefix, entries), ip1)->0.id != node_at(hierarchy(tool_id, prefix, entries), ip2)->0.id,
    decreases ip1.len(),
{
    let h = hierarchy(tool_id, prefix, entries);
    let n1 = node_at(h, ip1)->0;
    let n2 = node_at(h, ip2)->0;
    lemma_node_at_place(tool_id, prefix, entries, ip1);
    lemma_node_at_place(tool_id, prefix, entries, ip2);
    if n1.id == n2.id {
        lemma_path_id_injective(tool_id, n1.command_path, n2.command_path);
        assert(ip1.len() == ip2.len());
        let a = prefix.push(h[ip1[0]].name);
        let b = prefix.push(h[ip2[0]].name);
        assert(a == b);
        assert(a[prefix.len() as int] == b[prefix.len() as int]);
        lemma_hierarchy_names_unique(tool_id, prefix, entries);
        if ip1[0] < ip2[0] {
            assert(h[ip1[0]].name != h[ip2[0]].name);
        } else if ip2[0] < ip1[0] {
            assert(h[ip2[0]].name != h[ip1[0]].name);
        }
        assert(ip1[0] == ip2[0]);
        if ip1.len() == 1 {
            assert(ip1 =~= ip2);
        } else {
            let q = ip1[0];
            let k = lemma_hierarchy_member(tool_id, prefix, entries, q);
            lemma_key_slash_free(entries, k);
            let segs = prefix.push(k);
            assert(slash_free_path(segs)) by {
                assert forall|i: int| 0 <= i < segs.len() implies !(#[trigger] segs[i]).contains('/') by {
                    if i < prefix.len() {
                        assert(segs[i] == prefix[i]);
                    }
                }
            }
            let grp = group_entries(entries, k);
            if grp.len() > 0 {
                let c = hierarchy(tool_id, segs, grp);
                lemma_group_slash_free(entries, k);
                assert(node_at(c, ip1.drop_first()) == node_at(h, ip1));
                assert(node_at(c, ip2.drop_first()) == node_at(h, ip2));
                assert(ip1.drop_first() != ip2.drop_first()) by {
                    if ip1.drop_first() == ip2.drop_first() {
                        assert forall|i: int| 0 <= i < ip1.len() implies ip1[i] == ip2[i] by {
                            if i > 0 {
                                assert(ip1[i] == ip1.drop_first()[i - 1]);
                                assert(ip2[i] == ip2.drop_first()[i - 1]);
                            }
                        }
                        assert(ip1 =~= ip2);
                    }
                }
                lemma_tree_ids_distinct(tool_id, segs, grp, ip1.drop_first(), ip2.drop_first());
            } else {
                assert(h[q].children == ChildrenV::Loaded(Seq::<NodeV>::empty()));
                assert(node_at(h, ip1) == node_at(Seq::<NodeV>::empty(), ip1.drop_first()));
                assert(node_at(Seq::<NodeV>::empty(), ip1.drop_first()) is None);
            }
        }
    }
}

} // verus!
