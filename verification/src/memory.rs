//! Form-fill memory: how often each `(tool, command, field)` has been filled
//! and the last value entered, used to float frequently filled fields up a
//! form and to offer the previous value for recall.

use vstd::prelude::*;
use vstd::utf8::{decode_utf8, encode_utf8, valid_utf8};
use crate::fingerprint::le_bytes;
use crate::text::{chars_of, has_prefix, push_char, push_str, starts_with, to_string, utf8_text};

verus! {

pub struct FieldStat {
    pub count: u64,
    pub last_value: Option<String>,
}

/// Where form fills are remembered.
pub trait FormMemory {
    /// Note that `field` was filled with `value` for `tool_id`'s `command`.
    fn record(&self, tool_id: &str, command: &str, field: &str, value: &str);
    /// Per-field counts and last values for one command, by field name.
    fn stats(&self, tool_id: &str, command: &str) -> Vec<(String, FieldStat)>;
}

/// Remembers nothing: the fallback when no store is available.
pub struct NullFormMemory;

impl FormMemory for NullFormMemory {
    fn record(&self, tool_id: &str, command: &str, field: &str, value: &str) {
    }

    fn stats(&self, tool_id: &str, command: &str) -> (r: Vec<(String, FieldStat)>)
        ensures
            r@.len() == 0,
    {
        Vec::new()
    }
}

// ---------------------------------------------------------------------------
// How fills are stored: one record per (tool, command, field)
// ---------------------------------------------------------------------------

/// Separates the parts of a record's key; no name contains it.
pub const SEP: char = '\u{1f}';

/// The bytes of a record's count.
pub const COUNT_LEN: usize = 8;

/// The key of a field's record.
pub open spec fn key_of(tool: Seq<char>, command: Seq<char>, field: Seq<char>) -> Seq<char> {
    prefix_of(tool, command) + field
}

/// What the keys of one command's records start with.
pub open spec fn prefix_of(tool: Seq<char>, command: Seq<char>) -> Seq<char> {
    tool + seq![SEP] + command + seq![SEP]
}

pub fn record_prefix(tool: &str, command: &str) -> (r: String)
    ensures
        r@ == prefix_of(tool@, command@),
{
    let mut s = String::new();
    push_str(&mut s, tool);
    push_char(&mut s, SEP);
    push_str(&mut s, command);
    push_char(&mut s, SEP);
    assert(s@ =~= prefix_of(tool@, command@));
    s
}

pub fn record_key(tool: &str, command: &str, field: &str) -> (r: String)
    ensures
        r@ == key_of(tool@, command@, field@),
{
    let mut s = record_prefix(tool, command);
    push_str(&mut s, field);
    s
}

/// A record: the fill count in little-endian order, then the UTF-8 bytes of
/// the last value.
pub open spec fn record_bytes(count: nat, value: Seq<char>) -> Seq<u8> {
    le_bytes(count, 8) + encode_utf8(value)
}

/// The number little-endian bytes stand for.
pub open spec fn le_value(s: Seq<u8>) -> nat
    decreases s.len(),
{
    if s.len() == 0 {
        0
    } else {
        s[0] as nat + 256 * le_value(s.skip(1))
    }
}

/// A record's count: its first eight bytes, or 0 if it is shorter.
pub open spec fn count_of_record(bytes: Seq<u8>) -> u64 {
    if bytes.len() >= COUNT_LEN { le_value(bytes.take(8)) as u64 } else { 0 }
}

/// What a record says of its field: nothing for one too short to hold a
/// count; else the count, and the last value if its bytes are UTF-8.
pub open spec fn stat_of_record(bytes: Seq<u8>) -> Option<(u64, Option<Seq<char>>)> {
    if bytes.len() < COUNT_LEN {
        None
    } else {
        let rest = bytes.skip(8);
        Some((count_of_record(bytes), if valid_utf8(rest) { Some(decode_utf8(rest)) } else { None }))
    }
}

/// The record after one more fill with `value`.
pub fn encode_record(prev: u64, value: &str) -> (r: Vec<u8>)
    requires
        prev < u64::MAX,
    ensures
        r@ == record_bytes(prev as nat + 1, value@),
{
    let mut out: Vec<u8> = Vec::new();
    let mut v: u64 = prev + 1;
    let mut k: usize = 0;
    let ghost n: nat = prev as nat + 1;
    while k < 8
        invariant
            k <= 8,
            n == prev as nat + 1,
            out@ + le_bytes(v as nat, (8 - k) as nat) == le_bytes(n, 8),
        decreases 8 - k,
    {
        let ghost before = out@;
        assert(le_bytes(v as nat, (8 - k) as nat) == seq![(v % 256) as u8] + le_bytes((v / 256) as nat, (8 - k - 1) as nat));
        out.push((v % 256) as u8);
        assert(out@ + le_bytes((v / 256) as nat, (8 - k - 1) as nat) =~= before + (seq![(v % 256) as u8] + le_bytes((v / 256) as nat, (8 - k - 1) as nat)));
        v = v / 256;
        k += 1;
    }
    assert(out@ =~= le_bytes(n, 8));
    let bytes = value.as_bytes();
    let ghost head = out@;
    let mut i: usize = 0;
    while i < bytes.len()
        invariant
            i <= bytes@.len(),
            out@ == head + bytes@.take(i as int),
        decreases bytes@.len() - i,
    {
        out.push(bytes[i]);
        assert(bytes@.take(i + 1) =~= bytes@.take(i as int).push(bytes@[i as int]));
        i += 1;
    }
    assert(bytes@.take(bytes@.len() as int) =~= bytes@);
    out
}

/// A record's count.
pub fn decode_count(bytes: &[u8]) -> (r: u64)
    ensures
        r == count_of_record(bytes@),
{
    if bytes.len() < COUNT_LEN {
        return 0;
    }
    let mut v: u64 = 0;
    let mut i: usize = 8;
    proof {
        lemma_pow256_values();
        assert(bytes@.subrange(8, 8) =~= Seq::<u8>::empty());
    }
    while i > 0
        invariant
            i <= 8,
            8 <= bytes@.len(),
            v as nat == le_value(bytes@.subrange(i as int, 8)),
            (v as nat) < pow256((8 - i) as nat),
            pow256(0) == 1, pow256(1) == 256, pow256(2) == 0x1_0000, pow256(3) == 0x100_0000,
            pow256(4) == 0x1_0000_0000, pow256(5) == 0x100_0000_0000, pow256(6) == 0x1_0000_0000_0000,
            pow256(7) == 0x100_0000_0000_0000, pow256(8) == 0x1_0000_0000_0000_0000,
        decreases i,
    {
        let ghost s = bytes@.subrange(i - 1, 8);
        assert(s.skip(1) =~= bytes@.subrange(i as int, 8));
        assert(s[0] == bytes@[i - 1]);
        proof {
            let vv: nat = v as nat;
            let bb: nat = bytes@[i - 1] as nat;
            let p: nat = pow256((8 - i) as nat);
            assert(pow256((9 - i) as nat) == 256 * p);
            assert(vv * 256 + bb < 256 * p) by (nonlinear_arith)
                requires
                    vv < p,
                    bb < 256,
            {
            }
        }
        v = v * 256 + bytes[i - 1] as u64;
        i -= 1;
    }
    assert(bytes@.subrange(0, 8) =~= bytes@.take(8));
    v
}

pub open spec fn pow256(k: nat) -> nat
    decreases k,
{
    if k == 0 { 1 } else { 256 * pow256((k - 1) as nat) }
}

proof fn lemma_pow256_values()
    ensures
        pow256(0) == 1, pow256(1) == 256, pow256(2) == 0x1_0000, pow256(3) == 0x100_0000,
        pow256(4) == 0x1_0000_0000, pow256(5) == 0x100_0000_0000, pow256(6) == 0x1_0000_0000_0000,
        pow256(7) == 0x100_0000_0000_0000, pow256(8) == 0x1_0000_0000_0000_0000,
{
    reveal_with_fuel(pow256, 9);
}

/// What a stored record says of its field.
pub fn field_stat(bytes: &[u8]) -> (r: Option<FieldStat>)
    ensures
        match r {
            Some(st) => stat_of_record(bytes@) == Some((st.count, match st.last_value {
                Some(v) => Some(v@),
                None => None,
            })),
            None => stat_of_record(bytes@) is None,
        },
{
    if bytes.len() < COUNT_LEN {
        return None;
    }
    let count = decode_count(bytes);
    let rest = vstd::slice::slice_subrange(bytes, 8, bytes.len());
    assert(rest@ =~= bytes@.skip(8));
    Some(FieldStat { count, last_value: utf8_text(rest) })
}

pub open spec fn stat_v(e: (String, FieldStat)) -> (Seq<char>, u64, Option<Seq<char>>) {
    (e.0@, e.1.count, match e.1.last_value {
        Some(v) => Some(v@),
        None => None,
    })
}

/// The stats of one command's records, from entries in key order starting
/// at its prefix: each record up to the first key that does not start with
/// the prefix, named by the rest of its key.
pub open spec fn stats_of(prefix: Seq<char>, entries: Seq<(Seq<char>, Seq<u8>)>) -> Seq<(Seq<char>, u64, Option<Seq<char>>)>
    decreases entries.len(),
{
    if entries.len() == 0 || !starts_with(entries[0].0, prefix) {
        seq![]
    } else {
        let rest = stats_of(prefix, entries.skip(1));
        match stat_of_record(entries[0].1) {
            Some((c, v)) => seq![(entries[0].0.skip(prefix.len() as int), c, v)] + rest,
            None => rest,
        }
    }
}

pub open spec fn entries_v(v: Seq<(String, Vec<u8>)>) -> Seq<(Seq<char>, Seq<u8>)> {
    v.map_values(|e: (String, Vec<u8>)| (e.0@, e.1@))
}

pub fn stats_from_entries(prefix: &str, entries: &Vec<(String, Vec<u8>)>) -> (r: Vec<(String, FieldStat)>)
    ensures
        r@.map_values(|e: (String, FieldStat)| stat_v(e)) == stats_of(prefix@, entries_v(entries@)),
{
    let pc = chars_of(prefix);
    let ghost ev = entries_v(entries@);
    let mut out: Vec<(String, FieldStat)> = Vec::new();
    let mut i: usize = 0;
    assert(ev.skip(0) =~= ev);
    assert(out@.map_values(|e: (String, FieldStat)| stat_v(e)) + stats_of(prefix@, ev) =~= stats_of(prefix@, ev));
    while i < entries.len()
        invariant
            i <= entries@.len(),
            pc@ == prefix@,
            ev == entries_v(entries@),
            out@.map_values(|e: (String, FieldStat)| stat_v(e)) + stats_of(prefix@, ev.skip(i as int)) == stats_of(prefix@, ev),
        decreases entries@.len() - i,
    {
        let kc = chars_of(entries[i].0.as_str());
        let ghost tail = ev.skip(i as int);
        assert(tail[0] == (entries@[i as int].0@, entries@[i as int].1@));
        assert(tail.skip(1) =~= ev.skip(i + 1));
        if !has_prefix(kc.as_slice(), pc.as_slice()) {
            assert(stats_of(prefix@, tail) =~= Seq::<(Seq<char>, u64, Option<Seq<char>>)>::empty());
            assert(out@.map_values(|e: (String, FieldStat)| stat_v(e)) =~= stats_of(prefix@, ev));
            return out;
        }
        let ghost before = out@.map_values(|e: (String, FieldStat)| stat_v(e));
        match field_stat(entries[i].1.as_slice()) {
            Some(st) => {
                let field = to_string(vstd::slice::slice_subrange(kc.as_slice(), pc.len(), kc.len()));
                let ghost e = (field, st);
                out.push((field, st));
                assert(out@.map_values(|e: (String, FieldStat)| stat_v(e)) =~= before.push(stat_v(e)));
                assert(before.push(stat_v(e)) + stats_of(prefix@, ev.skip(i + 1)) =~= before + (seq![stat_v(e)] + stats_of(prefix@, ev.skip(i + 1))));
            },
            None => {},
        }
        i += 1;
    }
    assert(ev.skip(i as int) =~= Seq::<(Seq<char>, Seq<u8>)>::empty());
    assert(out@.map_values(|e: (String, FieldStat)| stat_v(e)) + Seq::<(Seq<char>, u64, Option<Seq<char>>)>::empty() =~= out@.map_values(|e: (String, FieldStat)| stat_v(e)));
    out
}

proof fn lemma_le_round(n: nat, k: nat)
    requires
        n < pow256(k),
    ensures
        le_bytes(n, k).len() == k,
        le_value(le_bytes(n, k)) == n,
    decreases k,
{
    if k == 0 {
        assert(n == 0);
    } else {
        let p = pow256((k - 1) as nat);
        assert(n / 256 < p) by (nonlinear_arith)
            requires
                n < 256 * p,
        {
        }
        lemma_le_round(n / 256, (k - 1) as nat);
        let s = le_bytes(n, k);
        assert(s.skip(1) =~= le_bytes(n / 256, (k - 1) as nat));
        assert(s[0] == (n % 256) as u8);
    }
}

/// A field's record, read back among its command's records, gives the
/// field, the count and the value it was last written with.
pub proof fn lemma_record_reads_back(tool: Seq<char>, command: Seq<char>, field: Seq<char>, count: nat, value: Seq<char>)
    requires
        count < 0x1_0000_0000_0000_0000,
    ensures
        stats_of(prefix_of(tool, command), seq![(key_of(tool, command, field), record_bytes(count, value))])
            == seq![(field, count as u64, Some(value))],
{
    lemma_pow256_values();
    lemma_le_round(count, 8);
    let b = record_bytes(count, value);
    assert(b.take(8) =~= le_bytes(count, 8));
    assert(b.skip(8) =~= encode_utf8(value));
    vstd::utf8::encode_utf8_valid_utf8(value);
    vstd::utf8::encode_utf8_decode_utf8(value);
    let p = prefix_of(tool, command);
    let k = key_of(tool, command, field);
    assert(k.subrange(0, p.len() as int) =~= p);
    assert(k.skip(p.len() as int) =~= field);
    let es = seq![(k, b)];
    assert(es.skip(1) =~= Seq::<(Seq<char>, Seq<u8>)>::empty());
    assert(starts_with(k, p));
    assert(stats_of(p, es.skip(1)) =~= Seq::<(Seq<char>, u64, Option<Seq<char>>)>::empty());
    assert(b.len() >= 8);
    assert(count_of_record(b) == count as u64);
    assert(stat_of_record(b) == Some((count as u64, Some(value))));
    assert(es[0] == (k, b));
    assert(stats_of(p, es) =~= seq![(field, count as u64, Some(value))]);
}

} // verus!
