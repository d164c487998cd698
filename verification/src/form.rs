//! The run form: one field per parameter of the command being run and of
//! its ancestors, ordered required-first, then by how often each was filled,
//! and turned into an argv when the command runs.

use vstd::prelude::*;
use crate::env_params::{EnvSource, asked_in_turn, candidates, first_found, found_view, is_truthy, resolve, strings, truthy};
use crate::memory::{FieldStat, FormMemory};
use crate::node::{Arg, Flag, FlagKind, Node, NodeV, copy_strings, node_view, strs};
use crate::text::{chars_of, eq_chars, join, join_strings, push_char, push_str, split_words, to_string, views_as, words};

verus! {

// ---------------------------------------------------------------------------
// Fields
// ---------------------------------------------------------------------------

/// A key as a form field sees it.
pub enum FormKey {
    Char(char),
    Backspace,
    Delete,
    Left,
    Right,
    Home,
    End,
    Enter,
    Tab,
    BackTab,
    Esc,
    /// Ctrl-R: run the command.
    Run,
    Other,
}

/// A free-text field.
pub struct TextInput {
    pub name: String,
    pub help: String,
    /// The tool's own default, shown as a placeholder; not part of the value.
    pub default: String,
    /// The value entered here last time, offered for recall.
    pub remembered: Option<String>,
    /// The environment variable that pre-filled the field, if one did.
    pub env_source: Option<String>,
    pub chars: Vec<char>,
    pub cursor: usize,
}

/// An on/off field for a flag that takes no value.
pub struct Toggle {
    pub name: String,
    pub help: String,
    pub value: bool,
    /// The environment variable that set the field, if one did.
    pub env_source: Option<String>,
}

/// The placeholder an empty field shows: the remembered value if there is a
/// non-empty one, else the tool's default if that is non-empty.
pub open spec fn ghost_of(remembered: Option<Seq<char>>, default: Seq<char>) -> Option<Seq<char>> {
    match remembered {
        Some(r) if r.len() > 0 => Some(r),
        _ => if default.len() > 0 { Some(default) } else { None },
    }
}

pub open spec fn opt_view(o: Option<String>) -> Option<Seq<char>> {
    match o {
        Some(s) => Some(s@),
        None => None,
    }
}

impl TextInput {
    /// The value as drawn around the cursor: the text before it, the
    /// character under it (a space past the end), and the text after it.
    pub fn cursor_parts(&self) -> (r: (String, String, String))
        requires
            self.wf(),
        ensures
            r.0@ == self.chars@.take(self.cursor as int),
            r.1@ == (if self.cursor < self.chars@.len() { seq![self.chars@[self.cursor as int]] } else { seq![' '] }),
            r.2@ == (if self.cursor < self.chars@.len() { self.chars@.skip(self.cursor + 1) } else { Seq::<char>::empty() }),
    {
        let n = self.chars.len();
        let before = to_string(vstd::slice::slice_subrange(self.chars.as_slice(), 0, self.cursor));
        if self.cursor < n {
            let c = [self.chars[self.cursor]];
            let at = to_string(&c);
            let after = to_string(vstd::slice::slice_subrange(self.chars.as_slice(), self.cursor + 1, n));
            assert(c@ =~= seq![self.chars@[self.cursor as int]]);
            (before, at, after)
        } else {
            let at = to_string(&[' ']);
            assert([' ']@ =~= seq![' ']);
            (before, at, String::new())
        }
    }

    pub open spec fn wf(&self) -> bool {
        self.cursor <= self.chars@.len()
    }

    pub open spec fn ghost_view(&self) -> Option<Seq<char>> {
        ghost_of(opt_view(self.remembered), self.default@)
    }

    pub fn ghost(&self) -> (r: Option<String>)
        ensures
            opt_view(r) == self.ghost_view(),
    {
        match &self.remembered {
            Some(s) => {
                if !s.as_str().is_empty() {
                    return Some(s.clone());
                }
            },
            None => {},
        }
        if self.default.as_str().is_empty() {
            None
        } else {
            Some(self.default.clone())
        }
    }

    /// Replace the text, with the cursor at its end.
    pub fn set_text(&mut self, value: &str) -> (r: bool)
        ensures
            r,
            final(self).chars@ == value@,
            final(self).cursor == value@.len(),
            final(self).name == old(self).name,
            final(self).help == old(self).help,
            final(self).default == old(self).default,
            final(self).remembered == old(self).remembered,
            final(self).env_source == old(self).env_source,
    {
        self.chars = chars_of(value);
        self.cursor = self.chars.len();
        true
    }

    /// In an empty field, take the placeholder as the value.
    fn accept_ghost(&mut self)
        requires
            old(self).wf(),
        ensures
            final(self).wf(),
            final(self).name == old(self).name,
            final(self).help == old(self).help,
            final(self).default == old(self).default,
            final(self).remembered == old(self).remembered,
            final(self).env_source == old(self).env_source,
            (old(self).chars@.len() == 0 && old(self).ghost_view() is Some) ==> (final(self).chars@ == old(self).ghost_view()->0
                && final(self).cursor == final(self).chars@.len()),
            !(old(self).chars@.len() == 0 && old(self).ghost_view() is Some) ==> *final(self) == *old(self),
    {
        if self.chars.len() == 0 {
            match self.ghost() {
                Some(g) => {
                    self.set_text(g.as_str());
                },
                None => {},
            }
        }
    }

    /// Edit the text: characters insert at the cursor, `Backspace` and
    /// `Delete` remove before and at it, the arrows, `Home` and `End` move it;
    /// `→` at the end, or `End`, in an empty field takes the placeholder.
    pub fn handle_key(&mut self, key: FormKey)
        requires
            old(self).wf(),
        ensures
            final(self).wf(),
            text_keyed(*old(self), *final(self), key),
    {
        match key {
            FormKey::Char(c) => {
                self.chars.insert(self.cursor, c);
                let n = self.chars.len();
                assert(self.cursor < n);
                self.cursor = self.cursor + 1;
            },
            FormKey::Backspace => {
                if self.cursor > 0 {
                    self.cursor = self.cursor - 1;
                    self.chars.remove(self.cursor);
                }
            },
            FormKey::Delete => {
                if self.cursor < self.chars.len() {
                    self.chars.remove(self.cursor);
                }
            },
            FormKey::Left => {
                if self.cursor > 0 {
                    self.cursor = self.cursor - 1;
                }
            },
            FormKey::Right => {
                if self.cursor < self.chars.len() {
                    self.cursor = self.cursor + 1;
                } else {
                    self.accept_ghost();
                }
            },
            FormKey::Home => {
                self.cursor = 0;
            },
            FormKey::End => {
                if self.chars.len() == 0 {
                    self.accept_ghost();
                } else {
                    self.cursor = self.chars.len();
                }
            },
            _ => {},
        }
    }

    /// The text entered.
    pub fn value(&self) -> (r: String)
        ensures
            r@ == self.chars@,
    {
        to_string(self.chars.as_slice())
    }
}

impl Toggle {
    /// Space or Enter flips the toggle.
    pub fn handle_key(&mut self, key: FormKey)
        ensures
            toggle_keyed(*old(self), *final(self), key),
    {
        let flip = match key {
            FormKey::Char(c) => c == ' ',
            FormKey::Enter => true,
            _ => false,
        };
        if flip {
            self.value = !self.value;
        }
    }
}

/// `b` is `a` with its text `chars` and its cursor at `cursor`, all else kept.
pub open spec fn edited(a: TextInput, b: TextInput, chars: Seq<char>, cursor: int) -> bool {
    &&& b.name == a.name
    &&& b.help == a.help
    &&& b.default == a.default
    &&& b.remembered == a.remembered
    &&& b.env_source == a.env_source
    &&& b.chars@ == chars
    &&& b.cursor == cursor
}

/// What a key does to a text field: characters insert at the cursor,
/// Backspace and Delete remove before and at it, the arrows, Home and End
/// move it, and `→` at the end or End in an empty field takes the
/// placeholder; any other key leaves it as it is.
pub open spec fn text_keyed(a: TextInput, b: TextInput, key: FormKey) -> bool {
    let len = a.chars@.len();
    let cur = a.cursor as int;
    let same = edited(a, b, a.chars@, cur);
    let placeholder = match a.ghost_view() {
        Some(g) => edited(a, b, g, g.len() as int),
        None => same,
    };
    match key {
        FormKey::Char(c) => edited(a, b, a.chars@.insert(cur, c), cur + 1),
        FormKey::Backspace => if cur > 0 { edited(a, b, a.chars@.remove(cur - 1), cur - 1) } else { same },
        FormKey::Delete => if cur < len { edited(a, b, a.chars@.remove(cur), cur) } else { same },
        FormKey::Left => edited(a, b, a.chars@, if cur > 0 { cur - 1 } else { 0 }),
        FormKey::Right => if cur < len { edited(a, b, a.chars@, cur + 1) } else if len == 0 { placeholder } else { same },
        FormKey::Home => edited(a, b, a.chars@, 0),
        FormKey::End => if len == 0 { placeholder } else { edited(a, b, a.chars@, len as int) },
        _ => same,
    }
}

/// What a key does to a toggle: Space or Enter flips it.
pub open spec fn toggle_keyed(a: Toggle, b: Toggle, key: FormKey) -> bool {
    &&& b.name == a.name
    &&& b.help == a.help
    &&& b.env_source == a.env_source
    &&& b.value == (if key matches FormKey::Char(' ') || key is Enter { !a.value } else { a.value })
}

/// What a key does to a field of either kind.
pub open spec fn field_keyed(a: Field, b: Field, key: FormKey) -> bool {
    match a {
        Field::Text(t) => b matches Field::Text(t2) && text_keyed(t, t2, key),
        Field::Toggle(t) => b matches Field::Toggle(t2) && toggle_keyed(t, t2, key),
    }
}

/// A form field.
pub enum Field {
    Text(TextInput),
    Toggle(Toggle),
}

/// What a field's value is.
pub enum FieldValue {
    Text(Seq<char>),
    Bool(bool),
}

pub open spec fn field_name(f: Field) -> Seq<char> {
    match f {
        Field::Text(t) => t.name@,
        Field::Toggle(t) => t.name@,
    }
}

pub open spec fn field_value(f: Field) -> FieldValue {
    match f {
        Field::Text(t) => FieldValue::Text(t.chars@),
        Field::Toggle(t) => FieldValue::Bool(t.value),
    }
}

pub open spec fn field_wf(f: Field) -> bool {
    match f {
        Field::Text(t) => t.wf(),
        Field::Toggle(_) => true,
    }
}

/// How a field becomes part of the command line.
pub enum FieldMeta {
    Arg,
    BoolFlag { long: Option<String>, short: Option<char> },
    ValueFlag { long: Option<String>, short: Option<char> },
}

/// Whether an environment variable supplied the field's value.
pub open spec fn field_env_sourced(f: Field) -> bool {
    match f {
        Field::Text(t) => t.env_source is Some,
        Field::Toggle(t) => t.env_source is Some,
    }
}

/// What filling a field leaves for the form memory: the name and value of a
/// toggle that is on, or of an argument or value flag with text; nothing for a
/// field the environment supplied.
pub open spec fn fill_of(meta: FieldMeta, f: Field) -> Option<(Seq<char>, Seq<char>)> {
    if field_env_sourced(f) {
        None
    } else {
        match f {
            Field::Toggle(t) => if meta is BoolFlag && t.value {
                Some((t.name@, "true"@))
            } else {
                None
            },
            Field::Text(t) => if !(meta is BoolFlag) && t.chars@.len() > 0 {
                Some((t.name@, t.chars@))
            } else {
                None
            },
        }
    }
}

/// The fills of a form's fields, in field order.
pub open spec fn fills_of(fields: Seq<(FieldMeta, Field)>) -> Seq<(Seq<char>, Seq<char>)>
    decreases fields.len(),
{
    if fields.len() == 0 {
        seq![]
    } else {
        let rest = fills_of(fields.drop_last());
        match fill_of(fields.last().0, fields.last().1) {
            Some(p) => rest.push(p),
            None => rest,
        }
    }
}

/// Values that the environment supplied are never written to the form
/// memory: each pair of `fills_of` is the fill of a field whose value the
/// environment did not supply.
pub proof fn lemma_env_values_never_recorded(fields: Seq<(FieldMeta, Field)>, i: int)
    requires
        0 <= i < fills_of(fields).len(),
    ensures
        exists|j: int|
            #![trigger fields[j]]
            0 <= j < fields.len() && !field_env_sourced(fields[j].1) && fill_of(fields[j].0, fields[j].1)
                == Some(fills_of(fields)[i]),
    decreases fields.len(),
{
    let init = fields.drop_last();
    let rest = fills_of(init);
    let j = fields.len() - 1;
    if i < rest.len() {
        lemma_env_values_never_recorded(init, i);
        let w = choose|w: int|
            #![trigger init[w]]
            0 <= w < init.len() && !field_env_sourced(init[w].1) && fill_of(init[w].0, init[w].1) == Some(rest[i]);
        assert(fields[w] == init[w]);
    } else {
        assert(fields[j] == fields.last());
    }
}

pub open spec fn pairs_view(v: Seq<(String, String)>) -> Seq<(Seq<char>, Seq<char>)> {
    v.map_values(|p: (String, String)| (p.0@, p.1@))
}

impl Field {
    fn name(&self) -> (r: &String)
        ensures
            r@ == field_name(*self),
    {
        match self {
            Field::Text(t) => &t.name,
            Field::Toggle(t) => &t.name,
        }
    }

    fn is_env_sourced(&self) -> (r: bool)
        ensures
            r == field_env_sourced(*self),
    {
        match self {
            Field::Text(t) => t.env_source.is_some(),
            Field::Toggle(t) => t.env_source.is_some(),
        }
    }
}

// ---------------------------------------------------------------------------
// The levels that contribute parameters
// ---------------------------------------------------------------------------

/// The levels of a command chain (root first, leaf last) that have
/// parameters, leaf first; each labelled with its name, the leaf with `""`.
pub open spec fn levels_upto(chain: Seq<NodeV>, n: int) -> Seq<(Seq<char>, NodeV)>
    decreases n,
{
    if n <= 0 {
        seq![]
    } else {
        let i = n - 1;
        let node = chain[i];
        let rest = levels_upto(chain, i);
        if node.args.len() > 0 || node.flags.len() > 0 {
            seq![(if i == chain.len() - 1 { seq![] } else { node.name }, node)] + rest
        } else {
            rest
        }
    }
}

pub open spec fn levels(chain: Seq<NodeV>) -> Seq<(Seq<char>, NodeV)> {
    levels_upto(chain, chain.len() as int)
}

pub open spec fn chain_view(ancestors: Seq<&Node>) -> Seq<NodeV> {
    ancestors.map_values(|n: &Node| node_view(*n))
}

pub open spec fn levels_view(v: Seq<(String, &Node)>) -> Seq<(Seq<char>, NodeV)> {
    v.map_values(|e: (String, &Node)| (e.0@, node_view(*e.1)))
}

/// `levels_upto` on the nodes themselves.
pub open spec fn level_nodes_upto(anc: Seq<&Node>, n: int) -> Seq<(Seq<char>, Node)>
    decreases n,
{
    if n <= 0 {
        seq![]
    } else {
        let i = n - 1;
        let node = *anc[i];
        let rest = level_nodes_upto(anc, i);
        if node.args@.len() > 0 || node.flags@.len() > 0 {
            seq![(if i == anc.len() - 1 { seq![] } else { node.name@ }, node)] + rest
        } else {
            rest
        }
    }
}

pub open spec fn level_nodes(anc: Seq<&Node>) -> Seq<(Seq<char>, Node)> {
    level_nodes_upto(anc, anc.len() as int)
}

pub open spec fn level_entries(v: Seq<(String, &Node)>) -> Seq<(Seq<char>, Node)> {
    v.map_values(|e: (String, &Node)| (e.0@, *e.1))
}

/// The command levels that contribute parameters, leaf first, each with its
/// section label (empty for the leaf). The form and the browser's preview
/// share it, so both show the same parameters.
pub fn param_levels<'a>(ancestors: &[&'a Node]) -> (r: Vec<(String, &'a Node)>)
    ensures
        levels_view(r@) == levels(chain_view(ancestors@)),
        level_entries(r@) == level_nodes(ancestors@),
{
    let ghost chain = chain_view(ancestors@);
    let n = ancestors.len();
    let mut out: Vec<(String, &'a Node)> = Vec::new();
    let mut i: usize = n;
    while i > 0
        invariant
            i <= n,
            n == ancestors@.len(),
            chain == chain_view(ancestors@),
            levels_view(out@) + levels_upto(chain, i as int) == levels(chain),
            level_entries(out@) + level_nodes_upto(ancestors@, i as int) == level_nodes(ancestors@),
        decreases i,
    {
        let node = ancestors[i - 1];
        let ghost rest = levels_upto(chain, i - 1);
        let ghost nrest = level_nodes_upto(ancestors@, i - 1);
        assert(chain[i - 1] == node_view(*node));
        if node.args.len() > 0 || node.flags.len() > 0 {
            let label = if i - 1 == n - 1 { String::new() } else { node.name.clone() };
            let ghost before = levels_view(out@);
            let ghost nbefore = level_entries(out@);
            out.push((label, node));
            proof {
                let e = (label@, node_view(*node));
                assert(levels_upto(chain, i as int) == seq![e] + rest);
                assert(levels_view(out@) =~= before.push(e));
                assert(before.push(e) + rest =~= before + (seq![e] + rest));
                let ne = (label@, *node);
                assert(level_nodes_upto(ancestors@, i as int) == seq![ne] + nrest);
                assert(level_entries(out@) =~= nbefore.push(ne));
                assert(nbefore.push(ne) + nrest =~= nbefore + (seq![ne] + nrest));
            }
        }
        i -= 1;
    }
    assert(levels_view(out@) + Seq::<(Seq<char>, NodeV)>::empty() =~= levels_view(out@));
    assert(level_entries(out@) + Seq::<(Seq<char>, Node)>::empty() =~= level_entries(out@));
    out
}

} // verus!

verus! {

// ---------------------------------------------------------------------------
// Building a level's fields
// ---------------------------------------------------------------------------

/// A parameter of a level: an argument or a flag.
pub enum Item {
    A(Arg),
    F(Flag),
}

/// What a parameter's field is: its name, whether it is required, how often
/// it was filled, and which kind of field it is (0 argument, 1 toggle, 2
/// value flag).
pub struct Cand {
    pub name: Seq<char>,
    pub required: bool,
    pub count: u64,
    pub kind: u8,
}

pub open spec fn items_of(node: Node) -> Seq<Item> {
    node.args@.map_values(|a: Arg| Item::A(a)) + node.flags@.map_values(|f: Flag| Item::F(f))
}

/// The name an argument's field carries: `<NAME>` when required, `[NAME]`
/// otherwise.
pub open spec fn arg_field_name(a: Arg) -> Seq<char> {
    if a.required { seq!['<'] + a.name@ + seq!['>'] } else { seq!['['] + a.name@ + seq![']'] }
}

/// The key under which a parameter counts as shown: a flag is known by its
/// long name, else its short one; one with neither is not shown.
pub open spec fn item_key(it: Item) -> Option<Seq<char>> {
    match it {
        Item::A(a) => Some("arg:"@ + a.name@),
        Item::F(f) => match f.long {
            Some(l) => Some("flag:--"@ + l@),
            None => match f.short {
                Some(s) => Some("flag:-"@ + seq![s]),
                None => None,
            },
        },
    }
}

pub open spec fn stats_view(stats: Seq<(String, FieldStat)>) -> Seq<(Seq<char>, u64)> {
    stats.map_values(|e: (String, FieldStat)| (e.0@, e.1.count))
}

/// How often the field `name` was filled (the first entry for it), or 0.
pub open spec fn count_of(stats: Seq<(Seq<char>, u64)>, name: Seq<char>) -> u64
    decreases stats.len(),
{
    if stats.len() == 0 {
        0
    } else if stats[0].0 == name {
        stats[0].1
    } else {
        count_of(stats.skip(1), name)
    }
}

pub open spec fn cand_of(it: Item, stats: Seq<(Seq<char>, u64)>) -> Cand {
    match it {
        Item::A(a) => Cand {
            name: arg_field_name(a),
            required: a.required,
            count: count_of(stats, arg_field_name(a)),
            kind: 0,
        },
        Item::F(f) => Cand {
            name: f.name@,
            required: f.required,
            count: count_of(stats, f.name@),
            kind: if f.kind is Boolean { 1 } else { 2 },
        },
    }
}

/// The fields of the first `n` parameters, in parameter order, with the keys
/// shown so far; a parameter whose key was already shown (at this level or
/// one nearer the leaf) gets none.
pub open spec fn cands_upto(items: Seq<Item>, seen: Seq<Seq<char>>, stats: Seq<(Seq<char>, u64)>, n: int) -> (Seq<Cand>, Seq<Seq<char>>)
    decreases n,
{
    if n <= 0 {
        (seq![], seen)
    } else {
        let (cs, sn) = cands_upto(items, seen, stats, n - 1);
        match item_key(items[n - 1]) {
            None => (cs, sn),
            Some(k) => if sn.contains(k) {
                (cs, sn)
            } else {
                (cs.push(cand_of(items[n - 1], stats)), sn.push(k))
            },
        }
    }
}

/// Whether the field ranked `a` (at position `ia`) goes no later than `b`:
/// required first, then the more often filled, then parameter order.
pub open spec fn ranks_before(a: Cand, ia: int, b: Cand, ib: int) -> bool {
    (a.required && !b.required) || (a.required == b.required && (a.count > b.count || (a.count == b.count && ia <= ib)))
}

/// The first `n` fields, each with its parameter position, in rank order
/// (an insertion sort, so the order is the one `ranks_before` fixes).
pub open spec fn ranked(cs: Seq<Cand>, n: int) -> Seq<(Cand, int)>
    decreases n,
{
    if n <= 0 {
        seq![]
    } else {
        insert_ranked(ranked(cs, n - 1), (cs[n - 1], n - 1))
    }
}

pub open spec fn insert_ranked(order: Seq<(Cand, int)>, x: (Cand, int)) -> Seq<(Cand, int)>
    decreases order.len(),
{
    if order.len() == 0 {
        seq![x]
    } else if ranks_before(order.last().0, order.last().1, x.0, x.1) {
        order.push(x)
    } else {
        insert_ranked(order.drop_last(), x).push(order.last())
    }
}

pub open spec fn field_kind(m: FieldMeta) -> u8 {
    match m {
        FieldMeta::Arg => 0,
        FieldMeta::BoolFlag { .. } => 1,
        FieldMeta::ValueFlag { .. } => 2,
    }
}

pub open spec fn built_view(v: Seq<(FieldMeta, Field)>) -> Seq<(Seq<char>, u8)> {
    v.map_values(|e: (FieldMeta, Field)| (field_name(e.1), field_kind(e.0)))
}

pub open spec fn ranked_view(cs: Seq<Cand>) -> Seq<(Seq<char>, u8)> {
    ranked(cs, cs.len() as int).map_values(|e: (Cand, int)| (e.0.name, e.0.kind))
}

pub open spec fn order_view(keys: Seq<(bool, u64, usize)>, out: Seq<(FieldMeta, Field)>) -> Seq<(Cand, int)> {
    Seq::new(keys.len(), |k: int| (Cand { name: field_name(out[k].1), required: keys[k].0, count: keys[k].1, kind: field_kind(out[k].0) }, keys[k].2 as int))
}

fn rank_le(a: &(bool, u64, usize), b: &(bool, u64, usize)) -> (r: bool)
    ensures
        r == ((a.0 && !b.0) || (a.0 == b.0 && (a.1 > b.1 || (a.1 == b.1 && a.2 <= b.2)))),
{
    (a.0 && !b.0) || (a.0 == b.0 && (a.1 > b.1 || (a.1 == b.1 && a.2 <= b.2)))
}

fn count_for(stats: &Vec<(String, FieldStat)>, name: &String) -> (r: u64)
    ensures
        r == count_of(stats_view(stats@), name@),
{
    let want = chars_of(name.as_str());
    let mut i: usize = 0;
    assert(stats_view(stats@).skip(0) =~= stats_view(stats@));
    while i < stats.len()
        invariant
            i <= stats@.len(),
            want@ == name@,
            count_of(stats_view(stats@), name@) == count_of(stats_view(stats@).skip(i as int), name@),
        decreases stats@.len() - i,
    {
        let c = chars_of(stats[i].0.as_str());
        assert(stats_view(stats@).skip(i as int)[0] == stats_view(stats@)[i as int]);
        if eq_chars(c.as_slice(), want.as_slice()) {
            return stats[i].1.count;
        }
        assert(stats_view(stats@).skip(i as int).skip(1) =~= stats_view(stats@).skip(i + 1));
        i += 1;
    }
    0
}

/// The value the field `name` was last filled with (the first entry for it),
/// if one is remembered.
pub open spec fn remembered_in(stats: Seq<(String, FieldStat)>, name: Seq<char>) -> Option<Seq<char>>
    decreases stats.len(),
{
    if stats.len() == 0 {
        None
    } else if stats[0].0@ == name {
        opt_view(stats[0].1.last_value)
    } else {
        remembered_in(stats.skip(1), name)
    }
}

fn remembered_for(stats: &Vec<(String, FieldStat)>, name: &String) -> (r: Option<String>)
    ensures
        opt_view(r) == remembered_in(stats@, name@),
{
    let want = chars_of(name.as_str());
    let mut i: usize = 0;
    assert(stats@.skip(0) =~= stats@);
    while i < stats.len()
        invariant
            i <= stats@.len(),
            want@ == name@,
            remembered_in(stats@, name@) == remembered_in(stats@.skip(i as int), name@),
        decreases stats@.len() - i,
    {
        let c = chars_of(stats[i].0.as_str());
        assert(stats@.skip(i as int)[0] == stats@[i as int]);
        if eq_chars(c.as_slice(), want.as_slice()) {
            return match &stats[i].1.last_value {
                Some(v) => Some(v.clone()),
                None => None,
            };
        }
        assert(stats@.skip(i as int).skip(1) =~= stats@.skip(i + 1));
        i += 1;
    }
    None
}

fn seen_has(seen: &Vec<String>, key: &String) -> (r: bool)
    ensures
        r == strs(seen@).contains(key@),
{
    let want = chars_of(key.as_str());
    let mut i: usize = 0;
    while i < seen.len()
        invariant
            i <= seen@.len(),
            want@ == key@,
            forall|k: int| 0 <= k < i ==> strs(seen@)[k] != key@,
        decreases seen@.len() - i,
    {
        let c = chars_of(seen[i].as_str());
        if eq_chars(c.as_slice(), want.as_slice()) {
            assert(strs(seen@)[i as int] == key@);
            return true;
        }
        i += 1;
    }
    false
}

fn key_of(it: &Item) -> (r: Option<String>)
    ensures
        opt_view(r) == item_key(*it),
{
    match it {
        Item::A(a) => {
            let mut k = String::new();
            push_str(&mut k, "arg:");
            push_str(&mut k, a.name.as_str());
            Some(k)
        },
        Item::F(f) => match &f.long {
            Some(l) => {
                let mut k = String::new();
                push_str(&mut k, "flag:--");
                push_str(&mut k, l.as_str());
                Some(k)
            },
            None => match f.short {
                Some(s) => {
                    let mut k = String::new();
                    push_str(&mut k, "flag:-");
                    push_char(&mut k, s);
                    Some(k)
                },
                None => None,
            },
        },
    }
}

/// A text field built for the parameter `name` of the command at `path`:
/// its help, default and remembered value as given, and its value the one
/// the first variable the environment answered for it holds (with the
/// cursor at its end), or empty where none answered.
pub open spec fn text_built<E: EnvSource>(env: E, f: Field, name: Seq<char>, help: Seq<char>, default: Seq<char>,
    remembered: Option<Seq<char>>, path: Seq<Seq<char>>) -> bool {
    &&& f matches Field::Text(t)
    &&& f->Text_0.name@ == name && f->Text_0.help@ == help && f->Text_0.default@ == default
    &&& opt_view(f->Text_0.remembered) == remembered
    &&& f->Text_0.cursor == f->Text_0.chars@.len()
    &&& exists|answers: Seq<Option<Seq<char>>>|
        #![trigger first_found(candidates(path, name), answers)]
        asked_in_turn(env, candidates(path, name), answers) && match first_found(candidates(path, name), answers) {
            Some(found) => opt_view(f->Text_0.env_source) == Some(found.0) && f->Text_0.chars@ == found.1,
            None => f->Text_0.env_source is None && f->Text_0.chars@.len() == 0,
        }
}

/// A toggle built for the flag `name` of the command at `path`: on exactly
/// when the first variable the environment answered for it is truthy.
pub open spec fn toggle_built<E: EnvSource>(env: E, f: Field, name: Seq<char>, help: Seq<char>, path: Seq<Seq<char>>) -> bool {
    &&& f matches Field::Toggle(t)
    &&& f->Toggle_0.name@ == name && f->Toggle_0.help@ == help
    &&& exists|answers: Seq<Option<Seq<char>>>|
        #![trigger first_found(candidates(path, name), answers)]
        asked_in_turn(env, candidates(path, name), answers) && match first_found(candidates(path, name), answers) {
            Some(found) => opt_view(f->Toggle_0.env_source) == Some(found.0) && f->Toggle_0.value == truthy(found.1),
            None => f->Toggle_0.env_source is None && !f->Toggle_0.value,
        }
}

/// The field built for a parameter: an argument's text field, a boolean
/// flag's toggle, or a value flag's text field, each carrying the flag's
/// long and short names, its help and default, the value remembered for
/// it, and what the environment supplies.
pub open spec fn field_built<E: EnvSource>(env: E, it: Item, stats: Seq<(String, FieldStat)>, path: Seq<Seq<char>>, mf: (FieldMeta, Field)) -> bool {
    match it {
        Item::A(a) => mf.0 is Arg && text_built(env, mf.1, arg_field_name(a), a.description@, a.default@,
            remembered_in(stats, arg_field_name(a)), path),
        Item::F(fl) => match fl.kind {
            FlagKind::Boolean => mf.0 matches FieldMeta::BoolFlag { long, short }
                && opt_view(long) == opt_view(fl.long) && short == fl.short
                && toggle_built(env, mf.1, fl.name@, fl.description@, path),
            FlagKind::Value { default, .. } => mf.0 matches FieldMeta::ValueFlag { long, short }
                && opt_view(long) == opt_view(fl.long) && short == fl.short
                && text_built(env, mf.1, fl.name@, fl.description@, default@, remembered_in(stats, fl.name@), path),
        },
    }
}

/// A field pre-filled from the environment when a variable supplies a
/// value for it.
fn text_field<E: EnvSource>(name: String, help: String, default: String, remembered: Option<String>, env: &E, full_path: &[String]) -> (r: Field)
    ensures
        field_name(r) == name@,
        field_wf(r),
        text_built(*env, r, name@, help@, default@, opt_view(remembered), strings(full_path@)),
{
    let (chars, env_source) = match resolve(env, full_path, name.as_str()) {
        Some(ev) => (chars_of(ev.value.as_str()), Some(ev.var_name)),
        None => (Vec::new(), None),
    };
    let cursor = chars.len();
    Field::Text(TextInput { name, help, default, remembered, env_source, chars, cursor })
}

fn make_field<E: EnvSource>(it: &Item, stats: &Vec<(String, FieldStat)>, env: &E, full_path: &[String]) -> (r: (FieldMeta, Field))
    ensures
        field_name(r.1) == cand_of(*it, stats_view(stats@)).name,
        field_kind(r.0) == cand_of(*it, stats_view(stats@)).kind,
        field_wf(r.1),
        field_built(*env, *it, stats@, strings(full_path@), r),
{
    match it {
        Item::A(a) => {
            let mut name = String::new();
            if a.required {
                push_char(&mut name, '<');
                push_str(&mut name, a.name.as_str());
                push_char(&mut name, '>');
            } else {
                push_char(&mut name, '[');
                push_str(&mut name, a.name.as_str());
                push_char(&mut name, ']');
            }
            assert(name@ =~= arg_field_name(*a));
            let remembered = remembered_for(stats, &name);
            let f = text_field(name, a.description.clone(), a.default.clone(), remembered, env, full_path);
            (FieldMeta::Arg, f)
        },
        Item::F(fl) => match &fl.kind {
            FlagKind::Boolean => {
                let found = resolve(env, full_path, fl.name.as_str());
                let ghost fv = found_view(found);
                let ghost cands = candidates(strings(full_path@), fl.name@);
                let (value, env_source) = match found {
                    Some(ev) => (is_truthy(ev.value.as_str()), Some(ev.var_name)),
                    None => (false, None),
                };
                let long = match &fl.long {
                    Some(l) => Some(l.clone()),
                    None => None,
                };
                let f = Field::Toggle(Toggle { name: fl.name.clone(), help: fl.description.clone(), value, env_source });
                proof {
                    let w = choose|answers: Seq<Option<Seq<char>>>|
                        #![trigger first_found(cands, answers)]
                        fv == first_found(cands, answers) && asked_in_turn(*env, cands, answers);
                    assert(fv == first_found(cands, w) && asked_in_turn(*env, cands, w));
                    assert(toggle_built(*env, f, fl.name@, fl.description@, strings(full_path@)));
                }
                (FieldMeta::BoolFlag { long, short: fl.short }, f)
            },
            FlagKind::Value { default, .. } => {
                let remembered = remembered_for(stats, &fl.name);
                let f = text_field(fl.name.clone(), fl.description.clone(), default.clone(), remembered, env, full_path);
                let long = match &fl.long {
                    Some(l) => Some(l.clone()),
                    None => None,
                };
                (FieldMeta::ValueFlag { long, short: fl.short }, f)
            },
        },
    }
}

/// The field is the one built for some parameter of `items`.
pub open spec fn built_from_some<E: EnvSource>(env: E, items: Seq<Item>, stats: Seq<(String, FieldStat)>, path: Seq<Seq<char>>, mf: (FieldMeta, Field)) -> bool {
    exists|i: int| 0 <= i < items.len() && #[trigger] field_built(env, items[i], stats, path, mf)
}

/// One level's fields in rank order: required first, then the more often
/// filled, then parameter order. `seen` holds the keys shown at levels
/// nearer the leaf; a parameter already shown there gets no field, and the
/// keys shown here are added.
pub fn build_fields<E: EnvSource>(node: &Node, seen: &mut Vec<String>, stats: &Vec<(String, FieldStat)>, env: &E, full_path: &[String]) -> (r: Vec<(FieldMeta, Field)>)
    ensures
        built_view(r@) == ranked_view(cands_upto(items_of(*node), strs(old(seen)@), stats_view(stats@), items_of(*node).len() as int).0),
        strs(final(seen)@) == cands_upto(items_of(*node), strs(old(seen)@), stats_view(stats@), items_of(*node).len() as int).1,
        forall|k: int| 0 <= k < r@.len() ==> field_wf(#[trigger] r@[k].1),
        forall|k: int| 0 <= k < r@.len() ==> built_from_some(*env, items_of(*node), stats@, strings(full_path@), #[trigger] r@[k]),
{
    let ghost items = items_of(*node);
    let ghost sv = stats_view(stats@);
    let ghost seen0 = strs(seen@);
    let mut out: Vec<(FieldMeta, Field)> = Vec::new();
    let mut keys: Vec<(bool, u64, usize)> = Vec::new();
    let ghost mut cs: Seq<Cand> = seq![];
    let n_args = node.args.len();
    let n_flags = node.flags.len();
    let mut ia: usize = 0;
    let mut jf: usize = 0;
    while ia < n_args || jf < n_flags
        invariant
            ia <= n_args,
            jf <= n_flags,
            jf > 0 ==> ia == n_args,
            items.len() == n_args + n_flags,
            n_args == node.args@.len(),
            n_flags == node.flags@.len(),
            items == items_of(*node),
            sv == stats_view(stats@),
            (cs, strs(seen@)) == cands_upto(items, seen0, sv, ia + jf),
            cs.len() <= ia + jf,
            out@.len() == keys@.len(),
            order_view(keys@, out@) == ranked(cs, cs.len() as int),
            forall|k: int| 0 <= k < out@.len() ==> field_wf(#[trigger] out@[k].1),
            forall|k: int| 0 <= k < out@.len() ==> built_from_some(*env, items, stats@, strings(full_path@), #[trigger] out@[k]),
        decreases n_args + n_flags - ia - jf,
    {
        let ghost i: int = ia + jf;
        let it: Item = if ia < n_args {
            let a = &node.args[ia];
            assert(items[i] == Item::A(node.args@[ia as int]));
            ia += 1;
            Item::A(Arg { name: a.name.clone(), description: a.description.clone(), required: a.required, default: a.default.clone(), choices: copy_strings(&a.choices) })
        } else {
            let f = &node.flags[jf];
            assert(items[i] == Item::F(node.flags@[jf as int]));
            jf += 1;
            let kind = match &f.kind {
                FlagKind::Boolean => FlagKind::Boolean,
                FlagKind::Value { arg_name, default, choices } => FlagKind::Value { arg_name: arg_name.clone(), default: default.clone(), choices: copy_strings(choices) },
            };
            Item::F(Flag { name: f.name.clone(), short: f.short, long: match &f.long { Some(l) => Some(l.clone()), None => None }, description: f.description.clone(), required: f.required, kind })
        };
        assert(item_key(it) == item_key(items[i]));
        assert(cand_of(it, sv) == cand_of(items[i], sv));
        match key_of(&it) {
            None => {},
            Some(k) => {
                if !seen_has(seen, &k) {
                    let (meta, field) = make_field(&it, stats, env, full_path);
                    proof {
                        assert(field_built(*env, items[i], stats@, strings(full_path@), (meta, field)));
                        assert(built_from_some(*env, items, stats@, strings(full_path@), (meta, field)));
                    }
                    let (req, name) = match &it {
                        Item::A(a) => (a.required, field.name().clone()),
                        Item::F(f) => (f.required, f.name.clone()),
                    };
                    let cnt = count_for(stats, &name);
                    let pos = keys.len();
                    let key = (req, cnt, pos);
                    let ghost x = (cand_of(items[i], sv), cs.len() as int);
                    assert(pos == cs.len()) by {
                        assert(order_view(keys@, out@).len() == keys@.len());
                        lemma_ranked_len(cs, cs.len() as int);
                    }
                    let ghost cur = order_view(keys@, out@);
                    let mut p: usize = keys.len();
                    assert(cur.take(p as int) =~= cur);
                    assert(insert_ranked(cur, x) + cur.skip(p as int) =~= insert_ranked(cur, x));
                    while p > 0 && !rank_le(&keys[p - 1], &key)
                        invariant
                            p <= keys@.len(),
                            out@.len() == keys@.len(),
                            cur == order_view(keys@, out@),
                            insert_ranked(cur, x) == insert_ranked(cur.take(p as int), x) + cur.skip(p as int),
                            x.0.required == key.0 && x.0.count == key.1 && x.1 == key.2 as int,
                        decreases p,
                    {
                        proof {
                            let pre = cur.take(p as int);
                            assert(pre.last() == cur[p - 1]);
                            assert(pre.drop_last() =~= cur.take(p - 1));
                            assert(cur.skip(p - 1) =~= seq![pre.last()] + cur.skip(p as int));
                            assert(insert_ranked(pre, x) == insert_ranked(pre.drop_last(), x).push(pre.last()));
                            assert(insert_ranked(pre.drop_last(), x).push(pre.last()) + cur.skip(p as int)
                                =~= insert_ranked(pre.drop_last(), x) + (seq![pre.last()] + cur.skip(p as int)));
                        }
                        p -= 1;
                    }
                    proof {
                        let pre = cur.take(p as int);
                        if p > 0 {
                            assert(pre.last() == cur[p - 1]);
                        }
                        assert(insert_ranked(pre, x) == pre.push(x));
                        assert(insert_ranked(cur, x) == pre.push(x) + cur.skip(p as int));
                        let old_cs = cs;
                        assert(cur == ranked(old_cs, old_cs.len() as int));
                        cs = cs.push(x.0);
                        assert(cs.take(old_cs.len() as int) =~= old_cs);
                        lemma_ranked_prefix(cs, old_cs.len() as int);
                        assert(cs[old_cs.len() as int] == x.0);
                        assert(ranked(cs, cs.len() as int) == insert_ranked(cur, x));
                    }
                    let ghost sb = strs(seen@);
                    seen.push(k);
                    assert(strs(seen@) =~= sb.push(item_key(items[i])->0));
                    let ghost out_before = out@;
                    out.insert(p, (meta, field));
                    keys.insert(p, key);
                    proof {
                        assert(order_view(keys@, out@) =~= cur.take(p as int).push(x) + cur.skip(p as int));
                        assert forall|q: int| 0 <= q < out@.len() implies built_from_some(*env, items, stats@, strings(full_path@), #[trigger] out@[q]) by {
                            if q < p {
                                assert(out@[q] == out_before[q]);
                            } else if q > p {
                                assert(out@[q] == out_before[q - 1]);
                            }
                        }
                    }
                }
            },
        }
    }
    assert(ia + jf == items.len());
    out
}

proof fn lemma_ranked_len(cs: Seq<Cand>, n: int)
    requires
        0 <= n,
    ensures
        ranked(cs, n).len() == n,
    decreases n,
{
    if n > 0 {
        lemma_ranked_len(cs, n - 1);
        lemma_insert_len(ranked(cs, n - 1), (cs[n - 1], n - 1));
    }
}

proof fn lemma_insert_len(order: Seq<(Cand, int)>, x: (Cand, int))
    ensures
        insert_ranked(order, x).len() == order.len() + 1,
    decreases order.len(),
{
    if order.len() > 0 && !ranks_before(order.last().0, order.last().1, x.0, x.1) {
        lemma_insert_len(order.drop_last(), x);
    }
}

/// `ranked` of a longer sequence agrees on a prefix's positions.
proof fn lemma_ranked_prefix(cs: Seq<Cand>, n: int)
    requires
        0 <= n < cs.len(),
    ensures
        ranked(cs, n) == ranked(cs.take(n), n),
        ranked(cs, n + 1) == insert_ranked(ranked(cs, n), (cs[n], n)),
    decreases n,
{
    if n > 0 {
        lemma_ranked_prefix(cs, n - 1);
        lemma_ranked_prefix(cs.take(n), n - 1);
        assert(cs.take(n).take(n - 1) =~= cs.take(n - 1));
        assert(cs.take(n)[n - 1] == cs[n - 1]);
    }
}

} // verus!

verus! {

// ---------------------------------------------------------------------------
// The form
// ---------------------------------------------------------------------------

/// The command a form runs: its binary argv and arguments.
pub struct RunSpec {
    pub bin: Vec<String>,
    pub args: Vec<String>,
}

/// A form: its fields in display order, grouped into sections by the level
/// they belong to (`""` for the command itself; `section_sizes` counts each
/// section's fields).
pub struct FormView<M: FormMemory> {
    pub title: String,
    pub bin: Vec<String>,
    pub command_path: Vec<String>,
    pub path_separator: String,
    pub description: String,
    pub labels: Vec<String>,
    pub section_sizes: Vec<usize>,
    pub fields: Vec<(FieldMeta, Field)>,
    pub focused: usize,
    pub scroll_offset: u16,
    /// Identity under which fills are remembered: the tool and the command.
    pub tool_id: String,
    pub command_key: String,
    pub memory: M,
}

/// What a key in a form led to.
pub enum FormOutcome {
    /// The key was used by the form.
    Consumed,
    /// Run the command.
    Run(RunSpec),
}

/// `--long`, else `-s`.
pub open spec fn flag_token_of(long: Option<String>, short: Option<char>) -> Seq<char> {
    match long {
        Some(l) => seq!['-', '-'] + l@,
        None => match short {
            Some(s) => seq!['-', s],
            None => seq![],
        },
    }
}

/// What the fields put on the command line: flag tokens in field order,
/// and the positional values, kept apart to go last. A value flag is passed
/// as `--flag=value` (so an optional-value flag binds it), or as `-s value`
/// when it has only a short name.
pub open spec fn run_parts(fields: Seq<(FieldMeta, Field)>) -> (Seq<Seq<char>>, Seq<Seq<char>>)
    decreases fields.len(),
{
    if fields.len() == 0 {
        (seq![], seq![])
    } else {
        let (fl, pos) = run_parts(fields.drop_last());
        let (meta, field) = fields.last();
        match (meta, field_value(field)) {
            (FieldMeta::Arg, FieldValue::Text(v)) => if v.len() > 0 { (fl, pos.push(v)) } else { (fl, pos) },
            (FieldMeta::BoolFlag { long, short }, FieldValue::Bool(b)) => if b {
                (fl.push(flag_token_of(long, short)), pos)
            } else {
                (fl, pos)
            },
            (FieldMeta::ValueFlag { long, short }, FieldValue::Text(v)) => if v.len() == 0 {
                (fl, pos)
            } else {
                match long {
                    Some(l) => (fl.push(seq!['-', '-'] + l@ + seq!['='] + v), pos),
                    None => match short {
                        Some(s) => (fl.push(seq!['-', s]).push(v), pos),
                        None => (fl, pos),
                    },
                }
            },
            _ => (fl, pos),
        }
    }
}

/// The arguments a form runs with: the command path (joined on the tool's
/// separator and split on whitespace, so `app:check` stays one token and
/// `list projects` two), then the flags, then the positionals.
pub open spec fn run_args(command_path: Seq<Seq<char>>, sep: Seq<char>, fields: Seq<(FieldMeta, Field)>) -> Seq<Seq<char>> {
    let (fl, pos) = run_parts(fields);
    words(join(command_path, sep)) + fl + pos
}

pub open spec fn names_of_fields(fields: Seq<(FieldMeta, Field)>) -> Seq<Seq<char>> {
    fields.map_values(|e: (FieldMeta, Field)| field_name(e.1))
}

/// `k` is the position of the first field named `name`.
pub open spec fn first_named(fields: Seq<(FieldMeta, Field)>, name: Seq<char>, k: int) -> bool {
    &&& 0 <= k < fields.len()
    &&& field_name(fields[k].1) == name
    &&& forall|j: int| 0 <= j < k ==> field_name(#[trigger] fields[j].1) != name
}

pub open spec fn next_focus(focused: usize, total: nat) -> usize {
    if total == 0 { focused } else if focused + 1 >= total { 0 } else { (focused + 1) as usize }
}

pub open spec fn prev_focus(focused: usize, total: nat) -> usize {
    if total == 0 { focused } else if focused == 0 { (total - 1) as usize } else { (focused - 1) as usize }
}

/// Where a form's lines start showing so that the focused field, on lines
/// `start..end`, is in view: scrolled down just far enough to show its end,
/// and up to its start if that is above.
pub open spec fn scroll_for(start: u16, end: u16, visible: u16, offset: u16) -> u16 {
    let o = if end > offset + visible { if end >= visible { (end - visible) as u16 } else { 0u16 } } else { offset };
    if start < o { start } else { o }
}

pub fn scroll_offset_for(start: u16, end: u16, visible: u16, offset: u16) -> (r: u16)
    ensures
        r == scroll_for(start, end, visible, offset),
{
    let mut o = offset;
    if (end as u32) > (offset as u32) + (visible as u32) {
        o = end.saturating_sub(visible);
    }
    if start < o {
        o = start;
    }
    o
}

pub open spec fn sum_sizes(s: Seq<usize>) -> int
    decreases s.len(),
{
    if s.len() == 0 { 0 } else { sum_sizes(s.drop_last()) + s.last() }
}

fn append_strings(out: &mut Vec<String>, more: &Vec<String>)
    ensures
        strs(final(out)@) == strs(old(out)@) + strs(more@),
{
    let mut k: usize = 0;
    while k < more.len()
        invariant
            k <= more@.len(),
            strs(out@) == strs(old(out)@) + strs(more@.subrange(0, k as int)),
        decreases more@.len() - k,
    {
        let ghost b = strs(out@);
        out.push(more[k].clone());
        assert(strs(out@) =~= b.push(more@[k as int]@));
        assert(strs(more@.subrange(0, k + 1)) =~= strs(more@.subrange(0, k as int)).push(more@[k as int]@));
        k += 1;
    }
    assert(more@.subrange(0, more@.len() as int) =~= more@);
}

impl<M: FormMemory> FormView<M> {
    /// The form's invariant: one label per section, the sections partition
    /// the fields, the focus is on a field (or 0 when there is none), and
    /// every text cursor is inside its text.
    pub open spec fn wf(&self) -> bool {
        &&& self.labels@.len() == self.section_sizes@.len()
        &&& sum_sizes(self.section_sizes@) == self.fields@.len()
        &&& (self.fields@.len() == 0 ==> self.focused == 0)
        &&& (self.fields@.len() > 0 ==> self.focused < self.fields@.len())
        &&& forall|k: int| 0 <= k < self.fields@.len() ==> field_wf(#[trigger] self.fields@[k].1)
    }

    /// The argv the form runs.
    pub fn run_spec(&self) -> (r: RunSpec)
        ensures
            strs(r.bin@) == strs(self.bin@),
            strs(r.args@) == run_args(strs(self.command_path@), self.path_separator@, self.fields@),
    {
        let sep = chars_of(self.path_separator.as_str());
        let joined = join_strings(&self.command_path, sep.as_slice());
        let jc = chars_of(joined.as_str());
        let ws = split_words(jc.as_slice());
        let mut args: Vec<String> = Vec::new();
        let mut k: usize = 0;
        while k < ws.len()
            invariant
                k <= ws@.len(),
                views_as(ws@, words(jc@)),
                strs(args@) == words(jc@).take(k as int),
            decreases ws@.len() - k,
        {
            let ghost b = strs(args@);
            args.push(to_string(ws[k]));
            assert(strs(args@) =~= b.push(ws@[k as int]@));
            assert(ws@[k as int]@ == words(jc@)[k as int]);
            assert(words(jc@).take(k + 1) =~= words(jc@).take(k as int).push(words(jc@)[k as int]));
            k += 1;
        }
        assert(words(jc@).take(ws@.len() as int) =~= words(jc@));
        assert(strs(self.command_path@) == self.command_path@.map_values(|x: String| x@));
        let mut flags: Vec<String> = Vec::new();
        let mut positional: Vec<String> = Vec::new();
        let mut fi: usize = 0;
        while fi < self.fields.len()
            invariant
                fi <= self.fields@.len(),
                (strs(flags@), strs(positional@)) == run_parts(self.fields@.take(fi as int)),
            decreases self.fields@.len() - fi,
        {
            let (meta, field) = &self.fields[fi];
            proof {
                let all = self.fields@.take(fi + 1);
                assert(all.drop_last() =~= self.fields@.take(fi as int));
                assert(all.last() == self.fields@[fi as int]);
            }
            let ghost fb = strs(flags@);
            let ghost pb = strs(positional@);
            match (meta, field) {
                (FieldMeta::Arg, Field::Text(t)) => {
                    if t.chars.len() > 0 {
                        positional.push(t.value());
                        assert(strs(positional@) =~= pb.push(t.chars@));
                    }
                },
                (FieldMeta::BoolFlag { long, short }, Field::Toggle(t)) => {
                    if t.value {
                        let mut tok = String::new();
                        match long {
                            Some(l) => {
                                push_char(&mut tok, '-');
                                push_char(&mut tok, '-');
                                push_str(&mut tok, l.as_str());
                                assert(tok@ =~= seq!['-', '-'] + l@);
                            },
                            None => match short {
                                Some(s) => {
                                    push_char(&mut tok, '-');
                                    push_char(&mut tok, *s);
                                    assert(tok@ =~= seq!['-', *s]);
                                },
                                None => {
                                    assert(tok@ =~= Seq::<char>::empty());
                                },
                            },
                        }
                        flags.push(tok);
                        assert(strs(flags@) =~= fb.push(flag_token_of(*long, *short)));
                    }
                },
                (FieldMeta::ValueFlag { long, short }, Field::Text(t)) => {
                    if t.chars.len() > 0 {
                        match long {
                            Some(l) => {
                                let mut tok = String::new();
                                push_char(&mut tok, '-');
                                push_char(&mut tok, '-');
                                push_str(&mut tok, l.as_str());
                                push_char(&mut tok, '=');
                                let v = t.value();
                                push_str(&mut tok, v.as_str());
                                assert(tok@ =~= seq!['-', '-'] + l@ + seq!['='] + t.chars@);
                                flags.push(tok);
                                assert(strs(flags@) =~= fb.push(seq!['-', '-'] + l@ + seq!['='] + t.chars@));
                            },
                            None => match short {
                                Some(s) => {
                                    let mut tok = String::new();
                                    push_char(&mut tok, '-');
                                    push_char(&mut tok, *s);
                                    assert(tok@ =~= seq!['-', *s]);
                                    flags.push(tok);
                                    flags.push(t.value());
                                    assert(strs(flags@) =~= fb.push(seq!['-', *s]).push(t.chars@));
                                },
                                None => {},
                            },
                        }
                    }
                },
                _ => {},
            }
            fi += 1;
        }
        assert(self.fields@.take(self.fields@.len() as int) =~= self.fields@);
        append_strings(&mut args, &flags);
        append_strings(&mut args, &positional);
        RunSpec { bin: copy_strings(&self.bin), args }
    }

    /// The section labels, in order (`""` for the command itself).
    pub fn section_labels(&self) -> (r: Vec<String>)
        ensures
            strs(r@) == strs(self.labels@),
    {
        copy_strings(&self.labels)
    }

    /// Every field's name, in order.
    pub fn field_names(&self) -> (r: Vec<String>)
        ensures
            strs(r@) == names_of_fields(self.fields@),
    {
        let mut out: Vec<String> = Vec::new();
        let mut fi: usize = 0;
        while fi < self.fields.len()
            invariant
                fi <= self.fields@.len(),
                strs(out@) == names_of_fields(self.fields@.take(fi as int)),
            decreases self.fields@.len() - fi,
        {
            let ghost b = strs(out@);
            out.push(self.fields[fi].1.name().clone());
            assert(strs(out@) =~= b.push(field_name(self.fields@[fi as int].1)));
            assert(self.fields@.take(fi + 1) =~= self.fields@.take(fi as int).push(self.fields@[fi as int]));
            assert(strs(out@) =~= names_of_fields(self.fields@.take(fi + 1)));
            fi += 1;
        }
        assert(self.fields@.take(self.fields@.len() as int) =~= self.fields@);
        out
    }

    fn focus_next(&mut self)
        ensures
            final(self).focused == next_focus(old(self).focused, old(self).fields@.len()),
            final(self).fields == old(self).fields,
            final(self).labels == old(self).labels,
            final(self).section_sizes == old(self).section_sizes,
    {
        let n = self.fields.len();
        if n > 0 {
            if self.focused >= n - 1 {
                self.focused = 0;
            } else {
                self.focused = self.focused + 1;
            }
        }
    }

    fn focus_prev(&mut self)
        ensures
            final(self).focused == prev_focus(old(self).focused, old(self).fields@.len()),
            final(self).fields == old(self).fields,
            final(self).labels == old(self).labels,
            final(self).section_sizes == old(self).section_sizes,
    {
        let n = self.fields.len();
        if n > 0 {
            if self.focused == 0 {
                self.focused = n - 1;
            } else {
                self.focused = self.focused - 1;
            }
        }
    }

    /// Change the field at `k`: set a text field's text, flip a toggle, or
    /// hand it a key. Returns whether the field was of the kind asked for.
    fn change_at(&mut self, k: usize, op: FieldOp) -> (r: bool)
        requires
            old(self).wf(),
            k < old(self).fields@.len(),
        ensures
            final(self).wf(),
            names_of_fields(final(self).fields@) == names_of_fields(old(self).fields@),
            final(self).focused == old(self).focused,
            final(self).fields@ == old(self).fields@.update(k as int, (old(self).fields@[k as int].0, final(self).fields@[k as int].1)),
            r == (match op {
                FieldOp::SetText(_) => old(self).fields@[k as int].1 is Text,
                FieldOp::Flip => old(self).fields@[k as int].1 is Toggle,
                FieldOp::Key(_) => true,
            }),
            !r ==> final(self).fields@ == old(self).fields@,
            op matches FieldOp::SetText(v) ==> (old(self).fields@[k as int].1 is Text
                ==> field_value(final(self).fields@[k as int].1) == FieldValue::Text(v@)),
            (op is Flip && old(self).fields@[k as int].1 is Toggle)
                ==> field_value(final(self).fields@[k as int].1) == FieldValue::Bool(!old(self).fields@[k as int].1->Toggle_0.value),
            op matches FieldOp::Key(key) ==> field_keyed(old(self).fields@[k as int].1, final(self).fields@[k as int].1, key),
    {
        let (meta, f) = self.fields.remove(k);
        let ghost of = f;
        let (f2, r) = match f {
            Field::Text(t) => {
                let mut t = t;
                match op {
                    FieldOp::SetText(v) => {
                        t.set_text(v.as_str());
                        (Field::Text(t), true)
                    },
                    FieldOp::Key(key) => {
                        t.handle_key(key);
                        (Field::Text(t), true)
                    },
                    FieldOp::Flip => (Field::Text(t), false),
                }
            },
            Field::Toggle(t) => {
                let mut t = t;
                match op {
                    FieldOp::Flip => {
                        t.value = !t.value;
                        (Field::Toggle(t), true)
                    },
                    FieldOp::Key(key) => {
                        t.handle_key(key);
                        (Field::Toggle(t), true)
                    },
                    FieldOp::SetText(_) => (Field::Toggle(t), false),
                }
            },
        };
        assert(field_name(f2) == field_name(of));
        let ghost before = self.fields@;
        self.fields.insert(k, (meta, f2));
        proof {
            assert(names_of_fields(self.fields@) =~= names_of_fields(old(self).fields@));
            assert(self.fields@ =~= old(self).fields@.update(k as int, (old(self).fields@[k as int].0, self.fields@[k as int].1)));
        }
        r
    }

    proof fn lemma_first_named(&self, name: Seq<char>, found: Option<usize>)
        requires
            match found {
                Some(k) => k < self.fields@.len() && names_of_fields(self.fields@)[k as int] == name
                    && forall|j: int| 0 <= j < k ==> names_of_fields(self.fields@)[j] != name,
                None => !names_of_fields(self.fields@).contains(name),
            },
        ensures
            match found {
                Some(k) => forall|k2: int| first_named(self.fields@, name, k2) <==> k2 == k,
                None => forall|k2: int| !first_named(self.fields@, name, k2),
            },
    {
        let f = self.fields@;
        match found {
            Some(k) => {
                assert forall|k2: int| first_named(f, name, k2) <==> k2 == k by {
                    assert(names_of_fields(f)[k as int] == field_name(f[k as int].1));
                    if k2 == k {
                        assert forall|j: int| 0 <= j < k2 implies field_name(#[trigger] f[j].1) != name by {
                            assert(names_of_fields(f)[j] == field_name(f[j].1));
                        }
                    }
                    if first_named(f, name, k2) && k2 != k {
                        if k2 < k {
                            assert(names_of_fields(f)[k2] == field_name(f[k2].1));
                        } else {
                            assert(field_name(f[k as int].1) != name);
                        }
                    }
                }
            },
            None => {
                assert forall|k2: int| !first_named(f, name, k2) by {
                    if first_named(f, name, k2) {
                        assert(names_of_fields(f)[k2] == field_name(f[k2].1));
                        assert(names_of_fields(f).contains(name));
                    }
                }
            },
        }
    }

    /// The position of the first field named `name`.
    fn position_of(&self, name: &str) -> (r: Option<usize>)
        ensures
            match r {
                Some(k) => k < self.fields@.len() && names_of_fields(self.fields@)[k as int] == name@
                    && forall|j: int| 0 <= j < k ==> names_of_fields(self.fields@)[j] != name@,
                None => !names_of_fields(self.fields@).contains(name@),
            },
    {
        let want = chars_of(name);
        let mut k: usize = 0;
        while k < self.fields.len()
            invariant
                k <= self.fields@.len(),
                want@ == name@,
                forall|j: int| 0 <= j < k ==> names_of_fields(self.fields@)[j] != name@,
            decreases self.fields@.len() - k,
        {
            let c = chars_of(self.fields[k].1.name().as_str());
            if eq_chars(c.as_slice(), want.as_slice()) {
                return Some(k);
            }
            k += 1;
        }
        None
    }

    /// Set the text of the first field named `name`; false when there is
    /// none or it is a toggle.
    pub fn set_field(&mut self, name: &str, value: &str) -> (r: bool)
        requires
            old(self).wf(),
        ensures
            final(self).wf(),
            final(self).focused == old(self).focused,
            r == exists|k: int| first_named(old(self).fields@, name@, k) && old(self).fields@[k].1 is Text,
            !r ==> final(self).fields@ == old(self).fields@,
            forall|k: int| first_named(old(self).fields@, name@, k) && old(self).fields@[k].1 is Text ==> {
                &&& final(self).fields@ == old(self).fields@.update(k, (old(self).fields@[k].0, final(self).fields@[k].1))
                &&& field_value(final(self).fields@[k].1) == FieldValue::Text(value@)
                &&& field_name(final(self).fields@[k].1) == name@
            },
    {
        let found = self.position_of(name);
        proof {
            self.lemma_first_named(name@, found);
        }
        match found {
            Some(k) => {
                let v = value.to_string();
                let r = self.change_at(k, FieldOp::SetText(v));
                assert(first_named(old(self).fields@, name@, k as int));
                r
            },
            None => false,
        }
    }

    /// Flip the first field named `name`; false when there is none or it is
    /// a text field.
    pub fn toggle_field(&mut self, name: &str) -> (r: bool)
        requires
            old(self).wf(),
        ensures
            final(self).wf(),
            final(self).focused == old(self).focused,
            r == exists|k: int| first_named(old(self).fields@, name@, k) && old(self).fields@[k].1 is Toggle,
            !r ==> final(self).fields@ == old(self).fields@,
            forall|k: int| first_named(old(self).fields@, name@, k) && old(self).fields@[k].1 is Toggle ==> {
                &&& final(self).fields@ == old(self).fields@.update(k, (old(self).fields@[k].0, final(self).fields@[k].1))
                &&& field_value(final(self).fields@[k].1) == FieldValue::Bool(!old(self).fields@[k].1->Toggle_0.value)
                &&& field_name(final(self).fields@[k].1) == name@
            },
    {
        let found = self.position_of(name);
        proof {
            self.lemma_first_named(name@, found);
        }
        match found {
            Some(k) => {
                let r = self.change_at(k, FieldOp::Flip);
                assert(first_named(old(self).fields@, name@, k as int));
                r
            },
            None => false,
        }
    }

    /// What running the form writes to the form memory: (field, value) for
    /// each non-empty text of an argument or value flag and each toggle that
    /// is on, in field order. Values the environment supplied are left out.
    pub fn fills_to_record(&self) -> (r: Vec<(String, String)>)
        ensures
            pairs_view(r@) == fills_of(self.fields@),
    {
        let mut out: Vec<(String, String)> = Vec::new();
        let mut k: usize = 0;
        while k < self.fields.len()
            invariant
                k <= self.fields@.len(),
                pairs_view(out@) == fills_of(self.fields@.take(k as int)),
            decreases self.fields@.len() - k,
        {
            let (meta, field) = &self.fields[k];
            assert(self.fields@.take(k as int + 1).drop_last() == self.fields@.take(k as int));
            if !field.is_env_sourced() {
                match field {
                    Field::Toggle(t) => {
                        if t.value && (match meta { FieldMeta::BoolFlag { .. } => true, _ => false }) {
                            let v = "true".to_string();
                            proof {
                                reveal_strlit("true");
                            }
                            out.push((t.name.clone(), v));
                        }
                    },
                    Field::Text(t) => {
                        let is_flag = match meta { FieldMeta::BoolFlag { .. } => true, _ => false };
                        if !is_flag && t.chars.len() > 0 {
                            out.push((t.name.clone(), t.value()));
                        }
                    },
                }
            }
            assert(pairs_view(out@) == fills_of(self.fields@.take(k as int + 1)));
            k += 1;
        }
        assert(self.fields@.take(self.fields@.len() as int) == self.fields@);
        out
    }

    /// Remember what was filled: each pair of `fills_to_record`, written to
    /// the form memory in order.
    fn record_fills(&self) {
        let fills = self.fills_to_record();
        let mut k: usize = 0;
        while k < fills.len()
            invariant
                k <= fills@.len(),
            decreases fills@.len() - k,
        {
            let (field, value) = &fills[k];
            self.memory.record(self.tool_id.as_str(), self.command_key.as_str(), field.as_str(), value.as_str());
            k += 1;
        }
    }

    /// A key in the form: Ctrl-R runs the command, first writing each pair
    /// of `fills_to_record` to the form memory (the memory is the caller's,
    /// so what it keeps is not stated here), Esc leaves the form, Tab and Shift-Tab move between fields, and any
    /// other key goes to the focused field.
    pub fn handle_key(&mut self, key: FormKey) -> (r: Option<FormOutcome>)
        requires
            old(self).wf(),
        ensures
            final(self).wf(),
            names_of_fields(final(self).fields@) == names_of_fields(old(self).fields@),
            key is Esc ==> (r is None && final(self).fields@ == old(self).fields@ && final(self).focused == old(self).focused),
            key is Run ==> (r matches Some(FormOutcome::Run(spec)) && strs(spec.bin@) == strs(old(self).bin@)
                && strs(spec.args@) == run_args(strs(old(self).command_path@), old(self).path_separator@, old(self).fields@)
                && final(self).fields@ == old(self).fields@),
            key is Tab ==> (r matches Some(FormOutcome::Consumed) && final(self).fields@ == old(self).fields@
                && final(self).focused == next_focus(old(self).focused, old(self).fields@.len())),
            key is BackTab ==> (r matches Some(FormOutcome::Consumed) && final(self).fields@ == old(self).fields@
                && final(self).focused == prev_focus(old(self).focused, old(self).fields@.len())),
            !(key is Esc || key is Run || key is Tab || key is BackTab) ==> (r matches Some(FormOutcome::Consumed)
                && final(self).focused == old(self).focused
                && if old(self).focused < old(self).fields@.len() {
                    let f = old(self).focused as int;
                    &&& final(self).fields@ == old(self).fields@.update(f, (old(self).fields@[f].0, final(self).fields@[f].1))
                    &&& field_keyed(old(self).fields@[f].1, final(self).fields@[f].1, key)
                } else {
                    final(self).fields@ == old(self).fields@
                }),
    {
        match key {
            FormKey::Run => {
                self.record_fills();
                Some(FormOutcome::Run(self.run_spec()))
            },
            FormKey::Esc => None,
            FormKey::Tab => {
                self.focus_next();
                Some(FormOutcome::Consumed)
            },
            FormKey::BackTab => {
                self.focus_prev();
                Some(FormOutcome::Consumed)
            },
            other => {
                if self.focused < self.fields.len() {
                    let k = self.focused;
                    self.change_at(k, FieldOp::Key(other));
                }
                Some(FormOutcome::Consumed)
            },
        }
    }
}

/// A change to one field.
pub enum FieldOp {
    SetText(String),
    Flip,
    Key(FormKey),
}

} // verus!

verus! {

/// The title a form shows: the binary, then the command path joined on the
/// tool's separator when there is one.
pub open spec fn form_title(bin: Seq<Seq<char>>, command: Seq<Seq<char>>, sep: Seq<char>) -> Seq<char> {
    let display_path = join(command, sep);
    if display_path.len() == 0 {
        join(bin, seq![' '])
    } else {
        join(bin, seq![' ']) + seq![' '] + display_path
    }
}

/// The sections a form shows for the levels `ls` (leaf first): each
/// level's fields in rank order, a parameter already shown nearer the leaf
/// left out, and a level left without fields dropped. Also the keys shown.
pub open spec fn form_sections(ls: Seq<(Seq<char>, Node)>, seen: Seq<Seq<char>>, stats: Seq<(Seq<char>, u64)>, n: int) -> (Seq<(Seq<char>, Seq<(Seq<char>, u8)>)>, Seq<Seq<char>>)
    decreases n,
{
    if n <= 0 {
        (seq![], seen)
    } else {
        let (acc, sn) = form_sections(ls, seen, stats, n - 1);
        let items = items_of(ls[n - 1].1);
        let (cs, sn2) = cands_upto(items, sn, stats, items.len() as int);
        let fv = ranked_view(cs);
        if fv.len() > 0 {
            (acc.push((ls[n - 1].0, fv)), sn2)
        } else {
            (acc, sn2)
        }
    }
}

pub open spec fn flatten_fields(secs: Seq<(Seq<char>, Seq<(Seq<char>, u8)>)>) -> Seq<(Seq<char>, u8)>
    decreases secs.len(),
{
    if secs.len() == 0 {
        seq![]
    } else {
        flatten_fields(secs.drop_last()) + secs.last().1
    }
}

pub open spec fn section_labels_of(secs: Seq<(Seq<char>, Seq<(Seq<char>, u8)>)>) -> Seq<Seq<char>> {
    secs.map_values(|x: (Seq<char>, Seq<(Seq<char>, u8)>)| x.0)
}

pub open spec fn section_sizes_of(secs: Seq<(Seq<char>, Seq<(Seq<char>, u8)>)>) -> Seq<int> {
    secs.map_values(|x: (Seq<char>, Seq<(Seq<char>, u8)>)| x.1.len() as int)
}

pub open spec fn sizes_v(v: Seq<usize>) -> Seq<int> {
    v.map_values(|x: usize| x as int)
}

/// A form whose sections are `secs`: their labels, their sizes, and their
/// fields (name and kind) in order.
pub open spec fn form_shape<M: FormMemory>(f: FormView<M>, secs: Seq<(Seq<char>, Seq<(Seq<char>, u8)>)>) -> bool {
    &&& strs(f.labels@) == section_labels_of(secs)
    &&& sizes_v(f.section_sizes@) == section_sizes_of(secs)
    &&& built_view(f.fields@) == flatten_fields(secs)
}

/// The field is the one built for a parameter of one of the levels.
pub open spec fn built_at_some_level<E: EnvSource>(env: E, ls: Seq<(Seq<char>, Node)>, stats: Seq<(String, FieldStat)>, path: Seq<Seq<char>>,
    mf: (FieldMeta, Field)) -> bool {
    exists|l: int| 0 <= l < ls.len() && #[trigger] built_from_some(env, items_of(ls[l].1), stats, path, mf)
}

impl<M: FormMemory> FormView<M> {
    /// A form for the last of `ancestors` (the command chain, tool first).
    /// Each level with parameters gives a section, the command's own first;
    /// a parameter a level nearer the command already shows is not repeated,
    /// and sections left empty are dropped. Fields are pre-filled from
    /// `env` and ranked by how often `memory` says they were filled.
    pub fn new<E: EnvSource>(ancestors: &[&Node], bin: &[String], path_separator: &str, tool_id: &str, env: &E, memory: M) -> (r: Self)
        ensures
            r.wf(),
            r.focused == 0,
            r.scroll_offset == 0,
            strs(r.bin@) == strs(bin@),
            r.path_separator@ == path_separator@,
            r.tool_id@ == tool_id@,
            r.title@ == form_title(strs(bin@), if ancestors@.len() > 0 { strs(ancestors@.last().command_path@) } else { seq![] }, path_separator@),
            r.description@ == (if ancestors@.len() > 0 { ancestors@.last().description@ } else { seq![] }),
            strs(r.command_path@) == (if ancestors@.len() > 0 { strs(ancestors@.last().command_path@) } else { seq![] }),
            exists|stats: Seq<(String, FieldStat)>|
                #![trigger stats_view(stats)]
                form_shape(r, form_sections(level_nodes(ancestors@), seq![], stats_view(stats), level_nodes(ancestors@).len() as int).0)
                && forall|k: int| 0 <= k < r.fields@.len() ==> built_at_some_level(*env, level_nodes(ancestors@), stats,
                    seq![tool_id@] + strs(r.command_path@), #[trigger] r.fields@[k]),
    {
        let command_names: Vec<String> = if ancestors.len() > 0 {
            copy_strings(&ancestors[ancestors.len() - 1].command_path)
        } else {
            Vec::new()
        };
        let sepc = chars_of(path_separator);
        let command_key = join_strings(&command_names, sepc.as_slice());
        let stats = memory.stats(tool_id, command_key.as_str());
        let r = Self::with_stats(ancestors, bin, path_separator, tool_id, env, &stats, memory);
        assert(form_shape(r, form_sections(level_nodes(ancestors@), seq![], stats_view(stats@), level_nodes(ancestors@).len() as int).0));
        assert(stats_view(stats@) == stats_view(stats@));
        r
    }

    /// A form as `new` builds it, with the fill counts given.
    pub fn with_stats<E: EnvSource>(ancestors: &[&Node], bin: &[String], path_separator: &str, tool_id: &str, env: &E, stats: &Vec<(String, FieldStat)>, memory: M) -> (r: Self)
        ensures
            r.wf(),
            r.focused == 0,
            r.scroll_offset == 0,
            strs(r.bin@) == strs(bin@),
            r.path_separator@ == path_separator@,
            r.tool_id@ == tool_id@,
            r.title@ == form_title(strs(bin@), if ancestors@.len() > 0 { strs(ancestors@.last().command_path@) } else { seq![] }, path_separator@),
            r.description@ == (if ancestors@.len() > 0 { ancestors@.last().description@ } else { seq![] }),
            strs(r.command_path@) == (if ancestors@.len() > 0 { strs(ancestors@.last().command_path@) } else { seq![] }),
            form_shape(r, form_sections(level_nodes(ancestors@), seq![], stats_view(stats@), level_nodes(ancestors@).len() as int).0),
            forall|k: int| 0 <= k < r.fields@.len() ==> built_at_some_level(*env, level_nodes(ancestors@), stats@,
                seq![tool_id@] + strs(r.command_path@), #[trigger] r.fields@[k]),
    {
        let command_names: Vec<String> = if ancestors.len() > 0 {
            copy_strings(&ancestors[ancestors.len() - 1].command_path)
        } else {
            Vec::new()
        };
        let description: String = if ancestors.len() > 0 {
            ancestors[ancestors.len() - 1].description.clone()
        } else {
            String::new()
        };
        let mut bin_v: Vec<String> = Vec::new();
        let mut b: usize = 0;
        while b < bin.len()
            invariant
                b <= bin@.len(),
                strs(bin_v@) == strs(bin@.subrange(0, b as int)),
            decreases bin@.len() - b,
        {
            let ghost before = strs(bin_v@);
            bin_v.push(bin[b].clone());
            assert(strs(bin_v@) =~= before.push(bin@[b as int]@));
            assert(strs(bin@.subrange(0, b + 1)) =~= strs(bin@.subrange(0, b as int)).push(bin@[b as int]@));
            b += 1;
        }
        assert(bin@.subrange(0, bin@.len() as int) =~= bin@);
        let sepc = chars_of(path_separator);
        let display_bin = join_strings(&bin_v, &[' ']);
        let display_path = join_strings(&command_names, sepc.as_slice());
        assert([' ']@ =~= seq![' ']);
        let title = if display_path.as_str().is_empty() {
            display_bin
        } else {
            let mut t = display_bin;
            push_char(&mut t, ' ');
            push_str(&mut t, display_path.as_str());
            t
        };
        let command_key = join_strings(&command_names, sepc.as_slice());
        let mut full_path: Vec<String> = vec![tool_id.to_string()];
        append_strings(&mut full_path, &command_names);
        let levels = param_levels(ancestors);
        let ghost ls = level_nodes(ancestors@);
        let ghost fp = strings(full_path@);
        assert(fp =~= seq![tool_id@] + strs(command_names@));
        let ghost sv = stats_view(stats@);
        let mut seen: Vec<String> = Vec::new();
        let mut labels: Vec<String> = Vec::new();
        let mut sizes: Vec<usize> = Vec::new();
        let mut fields: Vec<(FieldMeta, Field)> = Vec::new();
        let mut li: usize = 0;
        proof {
            lemma_levels_len(chain_view(ancestors@), ancestors@.len() as int);
            assert(strs(seen@) =~= Seq::<Seq<char>>::empty());
        }
        while li < levels.len()
            invariant
                li <= levels@.len(),
                levels@.len() <= ancestors@.len(),
                level_entries(levels@) == ls,
                sv == stats_view(stats@),
                labels@.len() == sizes@.len(),
                labels@.len() <= li,
                sum_sizes(sizes@) == fields@.len(),
                forall|k: int| 0 <= k < fields@.len() ==> field_wf(#[trigger] fields@[k].1),
                strs(seen@) == form_sections(ls, seq![], sv, li as int).1,
                strs(labels@) == section_labels_of(form_sections(ls, seq![], sv, li as int).0),
                sizes_v(sizes@) == section_sizes_of(form_sections(ls, seq![], sv, li as int).0),
                built_view(fields@) == flatten_fields(form_sections(ls, seq![], sv, li as int).0),
                fp == strings(full_path@),
                forall|k: int| 0 <= k < fields@.len() ==> built_at_some_level(*env, ls, stats@, fp, #[trigger] fields@[k]),
            decreases levels@.len() - li,
        {
            let node = levels[li].1;
            let ghost secs = form_sections(ls, seq![], sv, li as int).0;
            assert(ls[li as int] == (levels@[li as int].0@, *levels@[li as int].1));
            let level_fields = build_fields(node, &mut seen, stats, env, full_path.as_slice());
            let count = level_fields.len();
            let ghost fv = built_view(level_fields@);
            if count > 0 {
                let ghost before = fields@;
                let ghost bs = sizes@;
                let ghost bl = strs(labels@);
                let mut lf = level_fields;
                let mut q: usize = 0;
                let ghost lf0 = lf@;
                while lf.len() > 0
                    invariant
                        q + lf@.len() == count,
                        lf0.len() == count,
                        fields@ == before + lf0.take(q as int),
                        forall|k: int| 0 <= k < lf0.len() ==> field_wf(#[trigger] lf0[k].1),
                        forall|k: int| 0 <= k < lf@.len() ==> #[trigger] lf@[k] == lf0[q + k],
                        forall|k: int| 0 <= k < before.len() ==> field_wf(#[trigger] before[k].1),
                        forall|k: int| 0 <= k < lf0.len() ==> built_from_some(*env, items_of(ls[li as int].1), stats@, fp, #[trigger] lf0[k]),
                    decreases lf@.len(),
                {
                    let e = lf.remove(0);
                    assert(e == lf0[q as int]);
                    fields.push(e);
                    assert(lf0.take(q + 1) =~= lf0.take(q as int).push(e));
                    q += 1;
                }
                assert(lf0.take(q as int) =~= lf0);
                assert forall|k: int| 0 <= k < fields@.len() implies field_wf(#[trigger] fields@[k].1)
                    && built_at_some_level(*env, ls, stats@, fp, fields@[k]) by {
                    if k < before.len() {
                        assert(fields@[k] == before[k]);
                    } else {
                        assert(fields@[k] == lf0[k - before.len()]);
                        assert(built_from_some(*env, items_of(ls[li as int].1), stats@, fp, lf0[k - before.len()]));
                    }
                }
                assert(built_view(fields@) =~= built_view(before) + fv);
                labels.push(levels[li].0.clone());
                sizes.push(count);
                assert(sizes@.drop_last() =~= bs);
                assert(strs(labels@) =~= bl.push(levels@[li as int].0@));
                assert(sizes_v(sizes@) =~= sizes_v(bs).push(count as int));
            }
            proof {
                assert(fv.len() == count);
                let next = form_sections(ls, seq![], sv, li + 1);
                if count > 0 {
                    assert(next.0 == secs.push((ls[li as int].0, fv)));
                    assert(section_labels_of(next.0) =~= section_labels_of(secs).push(ls[li as int].0));
                    assert(section_sizes_of(next.0) =~= section_sizes_of(secs).push(fv.len() as int));
                    assert(next.0.drop_last() =~= secs);
                } else {
                    assert(next.0 == secs);
                }
            }
            li += 1;
        }
        assert(levels@.len() == ls.len());
        FormView {
            title,
            bin: bin_v,
            command_path: command_names,
            path_separator: path_separator.to_string(),
            description,
            labels,
            section_sizes: sizes,
            fields,
            focused: 0,
            scroll_offset: 0,
            tool_id: tool_id.to_string(),
            command_key,
            memory,
        }
    }
}

proof fn lemma_levels_len(chain: Seq<NodeV>, n: int)
    requires
        0 <= n,
    ensures
        levels_upto(chain, n).len() <= n,
    decreases n,
{
    if n > 0 {
        lemma_levels_len(chain, n - 1);
    }
}

/// No key occurs twice.
pub open spec fn distinct_keys(keys: Seq<Seq<char>>) -> bool {
    forall|i: int, j: int| 0 <= i < j < keys.len() ==> keys[i] != keys[j]
}

proof fn lemma_cands_distinct(items: Seq<Item>, seen: Seq<Seq<char>>, stats: Seq<(Seq<char>, u64)>, n: int)
    requires
        distinct_keys(seen),
    ensures
        distinct_keys(cands_upto(items, seen, stats, n).1),
        cands_upto(items, seen, stats, n).0.len() + seen.len() == cands_upto(items, seen, stats, n).1.len(),
    decreases n,
{
    if n > 0 {
        lemma_cands_distinct(items, seen, stats, n - 1);
        let (cs, sn) = cands_upto(items, seen, stats, n - 1);
        match item_key(items[n - 1]) {
            Some(k) => {
                if !sn.contains(k) {
                    let sn2 = sn.push(k);
                    assert forall|i: int, j: int| 0 <= i < j < sn2.len() implies sn2[i] != sn2[j] by {
                        if j == sn.len() {
                            assert(sn2[i] == sn[i]);
                            if sn2[i] == k {
                                assert(sn.contains(k));
                            }
                        }
                    }
                }
            },
            None => {},
        }
    }
}

proof fn lemma_sections_distinct(ls: Seq<(Seq<char>, Node)>, seen: Seq<Seq<char>>, stats: Seq<(Seq<char>, u64)>, n: int)
    requires
        distinct_keys(seen),
    ensures
        distinct_keys(form_sections(ls, seen, stats, n).1),
        flatten_fields(form_sections(ls, seen, stats, n).0).len() + seen.len() == form_sections(ls, seen, stats, n).1.len(),
    decreases n,
{
    if n > 0 {
        lemma_sections_distinct(ls, seen, stats, n - 1);
        let (acc, sn) = form_sections(ls, seen, stats, n - 1);
        let items = items_of(ls[n - 1].1);
        lemma_cands_distinct(items, sn, stats, items.len() as int);
        let (cs, sn2) = cands_upto(items, sn, stats, items.len() as int);
        lemma_ranked_len(cs, cs.len() as int);
        let fv = ranked_view(cs);
        assert(fv.len() == cs.len());
        if fv.len() > 0 {
            let secs = acc.push((ls[n - 1].0, fv));
            assert(secs.drop_last() =~= acc);
            assert(flatten_fields(secs) == flatten_fields(acc) + fv);
        }
    }
}

/// A form shows each parameter once: the parameters behind its fields, over
/// all its sections, are known by distinct keys, one key per field, so a
/// flag that several levels of the command chain define appears only in
/// the section nearest the command.
pub proof fn lemma_each_parameter_once(ancestors: Seq<&Node>, stats: Seq<(Seq<char>, u64)>)
    ensures
        distinct_keys(form_sections(level_nodes(ancestors), seq![], stats, level_nodes(ancestors).len() as int).1),
        flatten_fields(form_sections(level_nodes(ancestors), seq![], stats, level_nodes(ancestors).len() as int).0).len()
            == form_sections(level_nodes(ancestors), seq![], stats, level_nodes(ancestors).len() as int).1.len(),
{
    lemma_sections_distinct(level_nodes(ancestors), seq![], stats, level_nodes(ancestors).len() as int);
}

} // verus!

verus! {

/// The parameters of a level include one known by the key `k`.
pub open spec fn declares(level: (Seq<char>, Node), k: Seq<char>) -> bool {
    exists|j: int| 0 <= j < items_of(level.1).len() && #[trigger] item_key(items_of(level.1)[j]) == Some(k)
}

/// `k` is among the keys of the first `m` items.
pub open spec fn key_among(items: Seq<Item>, k: Seq<char>, m: int) -> bool {
    exists|j: int| 0 <= j < m && #[trigger] item_key(items[j]) == Some(k)
}

proof fn lemma_cands_keys(items: Seq<Item>, sn: Seq<Seq<char>>, stats: Seq<(Seq<char>, u64)>, m: int, k: Seq<char>)
    requires
        0 <= m <= items.len(),
    ensures
        cands_upto(items, sn, stats, m).1.contains(k) <==> (sn.contains(k) || key_among(items, k, m)),
    decreases m,
{
    if m > 0 {
        lemma_cands_keys(items, sn, stats, m - 1, k);
        let prev = cands_upto(items, sn, stats, m - 1).1;
        let now = cands_upto(items, sn, stats, m).1;
        if key_among(items, k, m) && !key_among(items, k, m - 1) {
            let j = choose|j: int| 0 <= j < m && #[trigger] item_key(items[j]) == Some(k);
            assert(j == m - 1);
            if !prev.contains(k) {
                assert(now == prev.push(k));
                assert(now[prev.len() as int] == k);
            }
        }
        if key_among(items, k, m - 1) {
            let j = choose|j: int| 0 <= j < m - 1 && #[trigger] item_key(items[j]) == Some(k);
            assert(key_among(items, k, m));
        }
        if now.contains(k) && !prev.contains(k) {
            let q = choose|q: int| 0 <= q < now.len() && now[q] == k;
            assert(q == prev.len());
            assert(item_key(items[m - 1]) == Some(k));
        }
        if prev.contains(k) {
            let q = choose|q: int| 0 <= q < prev.len() && prev[q] == k;
            match item_key(items[m - 1]) {
                None => {},
                Some(x) => if !prev.contains(x) {
                    assert(now[q] == k);
                },
            }
        }
    }
}

/// The keys shown by the first `n` levels.
pub open spec fn shown_keys(ls: Seq<(Seq<char>, Node)>, stats: Seq<(Seq<char>, u64)>, n: int) -> Seq<Seq<char>> {
    form_sections(ls, seq![], stats, n).1
}

/// Each parameter lands in the section of the level nearest the command
/// (levels go command first) that declares it, and in no other: a level
/// shows the key `k` exactly when it declares `k` and no nearer level does.
pub proof fn lemma_param_in_nearest_level(ls: Seq<(Seq<char>, Node)>, stats: Seq<(Seq<char>, u64)>, l: int, k: Seq<char>)
    requires
        0 <= l < ls.len(),
    ensures
        (shown_keys(ls, stats, l + 1).contains(k) && !shown_keys(ls, stats, l).contains(k))
            <==> (declares(ls[l], k) && forall|m: int| 0 <= m < l ==> !#[trigger] declares(ls[m], k)),
{
    lemma_shown_keys(ls, stats, l, k);
    let items = items_of(ls[l].1);
    lemma_cands_keys(items, shown_keys(ls, stats, l), stats, items.len() as int, k);
    assert(declares(ls[l], k) <==> key_among(items, k, items.len() as int));
}

/// The first `n` levels show `k` exactly when one of them declares it.
proof fn lemma_shown_keys(ls: Seq<(Seq<char>, Node)>, stats: Seq<(Seq<char>, u64)>, n: int, k: Seq<char>)
    requires
        0 <= n <= ls.len(),
    ensures
        shown_keys(ls, stats, n).contains(k) <==> exists|m: int| 0 <= m < n && #[trigger] declares(ls[m], k),
    decreases n,
{
    if n > 0 {
        lemma_shown_keys(ls, stats, n - 1, k);
        let items = items_of(ls[n - 1].1);
        lemma_cands_keys(items, shown_keys(ls, stats, n - 1), stats, items.len() as int, k);
        assert(declares(ls[n - 1], k) <==> key_among(items, k, items.len() as int));
        if exists|m: int| 0 <= m < n - 1 && #[trigger] declares(ls[m], k) {
            let m = choose|m: int| 0 <= m < n - 1 && #[trigger] declares(ls[m], k);
            assert(0 <= m < n && declares(ls[m], k));
        }
        if exists|m: int| 0 <= m < n && #[trigger] declares(ls[m], k) {
            let m = choose|m: int| 0 <= m < n && #[trigger] declares(ls[m], k);
            if m < n - 1 {
                assert(exists|m2: int| 0 <= m2 < n - 1 && #[trigger] declares(ls[m2], k));
            }
        }
    } else {
        assert(shown_keys(ls, stats, 0) =~= Seq::<Seq<char>>::empty());
    }
}

} // verus!
