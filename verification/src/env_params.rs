//! Parameters provided through the environment, for flags a CLI cannot take
//! from its own environment.
//!
//! The convention is `BRACT_<PATH>__<PARAM>`: `<PATH>` is the command's tool
//! and subcommand segments, `<PARAM>` the flag or argument name, each folded
//! to upper-case alphanumerics with `_` between runs. `<PATH>` is matched as
//! a prefix of the command being run, and the longest prefix wins. Names are
//! only ever generated from the path and parameter, never parsed back.

use vstd::prelude::*;
use crate::text::{push_char, chars_of, join, trim, trim_of, lower, to_lower};

verus! {

/// Where environment values come from; tests hand in a fake.
pub trait EnvSource {
    fn get(&self, key: &str) -> Option<String>;
}

/// An always-empty environment.
pub struct NullEnv;

impl EnvSource for NullEnv {
    fn get(&self, key: &str) -> (r: Option<String>)
        ensures
            r is None,
    {
        None
    }
}

/// A value found for a parameter, with the variable that supplied it.
pub struct EnvValue {
    pub value: String,
    pub var_name: String,
}

// ---------------------------------------------------------------------------
// Folding names to the variable alphabet
// ---------------------------------------------------------------------------

pub open spec fn upper_char(c: char) -> char {
    if 'a' <= c && c <= 'z' {
        ((c as u32) - 32) as char
    } else {
        c
    }
}

pub open spec fn ascii_alnum(c: char) -> bool {
    ('a' <= c && c <= 'z') || ('A' <= c && c <= 'Z') || ('0' <= c && c <= '9')
}

/// The fold after reading `s`: what is kept, and whether a separator is
/// waiting for the next kept character.
pub open spec fn canon_state(s: Seq<char>) -> (Seq<char>, bool)
    decreases s.len(),
{
    if s.len() == 0 {
        (seq![], false)
    } else {
        let (o, pending) = canon_state(s.drop_last());
        let c = s.last();
        if ascii_alnum(c) {
            let o2 = if pending && o.len() > 0 { o.push('_') } else { o };
            (o2.push(upper_char(c)), false)
        } else if c == '-' || c == '_' {
            (o, true)
        } else {
            (o, pending)
        }
    }
}

/// ASCII letters and digits upper-cased, each run of `-`/`_` between them one
/// `_`, separators at the ends and every other character dropped
/// (`<NAME>` to `NAME`, `--field-manager` to `FIELD_MANAGER`).
pub open spec fn canon(s: Seq<char>) -> Seq<char> {
    canon_state(s).0
}

fn canon_of(s: &str) -> (r: String)
    ensures
        r@ == canon(s@),
{
    let cs = chars_of(s);
    let mut out = String::new();
    let mut pending = false;
    let mut i: usize = 0;
    while i < cs.len()
        invariant
            i <= cs@.len(),
            cs@ == s@,
            (out@, pending) == canon_state(cs@.subrange(0, i as int)),
        decreases cs@.len() - i,
    {
        let c = cs[i];
        proof {
            let p = cs@.subrange(0, i + 1);
            assert(p.drop_last() =~= cs@.subrange(0, i as int));
            assert(p.last() == c);
        }
        if ('a' <= c && c <= 'z') || ('A' <= c && c <= 'Z') || ('0' <= c && c <= '9') {
            if pending && !out.as_str().is_empty() {
                push_char(&mut out, '_');
            }
            let u = if 'a' <= c && c <= 'z' {
                ((c as u8) - 32) as char
            } else {
                c
            };
            push_char(&mut out, u);
            pending = false;
        } else if c == '-' || c == '_' {
            pending = true;
        }
        i += 1;
    }
    assert(cs@.subrange(0, cs@.len() as int) =~= cs@);
    out
}

// ---------------------------------------------------------------------------
// Candidate variable names
// ---------------------------------------------------------------------------

pub open spec fn lit_prefix() -> Seq<char> {
    seq!['B', 'R', 'A', 'C', 'T', '_']
}

pub open spec fn lit_boundary() -> Seq<char> {
    seq!['_', '_']
}

/// The first `len` path segments folded and joined by `_`.
pub open spec fn path_canon(path: Seq<Seq<char>>, len: int) -> Seq<char> {
    join(path.take(len).map_values(|s: Seq<char>| canon(s)), seq!['_'])
}

pub open spec fn var_name(path_part: Seq<char>, param_part: Seq<char>) -> Seq<char> {
    lit_prefix() + path_part + lit_boundary() + param_part
}

/// The prefix lengths tried, longest first, skipping those that fold to
/// nothing.
pub open spec fn cand_lens(path: Seq<Seq<char>>, len: nat) -> Seq<nat>
    decreases len,
{
    if len == 0 {
        seq![]
    } else {
        let here: Seq<nat> = if path_canon(path, len as int).len() > 0 { seq![len] } else { seq![] };
        here + cand_lens(path, (len - 1) as nat)
    }
}

/// The variable names looked up for `param` on the command at `path`, in
/// the order they are tried.
pub open spec fn candidates(path: Seq<Seq<char>>, param: Seq<char>) -> Seq<Seq<char>> {
    if canon(param).len() == 0 || path.len() == 0 {
        seq![]
    } else {
        cand_lens(path, path.len()).map_values(|l: nat| var_name(path_canon(path, l as int), canon(param)))
    }
}

/// The first candidate the environment answered, with its value.
pub open spec fn first_found(names: Seq<Seq<char>>, answers: Seq<Option<Seq<char>>>) -> Option<(Seq<char>, Seq<char>)>
    decreases names.len(),
{
    if names.len() == 0 || answers.len() == 0 {
        None
    } else {
        match answers[0] {
            Some(v) => Some((names[0], v)),
            None => first_found(names.skip(1), answers.skip(1)),
        }
    }
}

pub open spec fn strings(v: Seq<String>) -> Seq<Seq<char>> {
    v.map_values(|s: String| s@)
}

pub open spec fn opt_strings(v: Seq<Option<String>>) -> Seq<Option<Seq<char>>> {
    v.map_values(
        |o: Option<String>|
            match o {
                Some(s) => Some(s@),
                None => None,
            },
    )
}

pub open spec fn found_view(r: Option<EnvValue>) -> Option<(Seq<char>, Seq<char>)> {
    match r {
        Some(ev) => Some((ev.var_name@, ev.value@)),
        None => None,
    }
}

/// The first `len` segments folded and joined by `_`.
fn path_canon_of(full_path: &[String], len: usize) -> (r: String)
    requires
        len <= full_path@.len(),
    ensures
        r@ == path_canon(strings(full_path@), len as int),
{
    let ghost p = strings(full_path@);
    let ghost cv = p.take(len as int).map_values(|s: Seq<char>| canon(s));
    let mut out = String::new();
    let mut i: usize = 0;
    while i < len
        invariant
            i <= len <= full_path@.len(),
            p == strings(full_path@),
            cv == p.take(len as int).map_values(|s: Seq<char>| canon(s)),
            out@ == join(cv.take(i as int), seq!['_']),
        decreases len - i,
    {
        if i > 0 {
            push_char(&mut out, '_');
        }
        let c = canon_of(full_path[i].as_str());
        let cc = chars_of(c.as_str());
        let ghost before = out@;
        let mut j: usize = 0;
        while j < cc.len()
            invariant
                j <= cc@.len(),
                out@ == before + cc@.subrange(0, j as int),
            decreases cc@.len() - j,
        {
            push_char(&mut out, cc[j]);
            assert(cc@.subrange(0, j + 1) =~= cc@.subrange(0, j as int).push(cc@[j as int]));
            j += 1;
        }
        proof {
            assert(cc@.subrange(0, cc@.len() as int) =~= cc@);
            assert(cv[i as int] == canon(full_path@[i as int]@));
            assert(cv.take(i + 1).drop_last() =~= cv.take(i as int));
            assert(cv.take(i + 1).last() == cv[i as int]);
            if i == 0 {
                assert(cv.take(1) =~= seq![cv[0]]);
                assert(out@ =~= cv[0]);
            } else {
                assert(out@ =~= join(cv.take(i as int), seq!['_']) + seq!['_'] + cv[i as int]);
            }
        }
        i += 1;
    }
    assert(cv.take(len as int) =~= cv);
    out
}

fn append_string(out: &mut String, s: &str)
    ensures
        final(out)@ == old(out)@ + s@,
{
    let cs = chars_of(s);
    let mut j: usize = 0;
    while j < cs.len()
        invariant
            j <= cs@.len(),
            out@ == old(out)@ + cs@.subrange(0, j as int),
        decreases cs@.len() - j,
    {
        push_char(out, cs[j]);
        assert(cs@.subrange(0, j + 1) =~= cs@.subrange(0, j as int).push(cs@[j as int]));
        j += 1;
    }
    assert(cs@.subrange(0, cs@.len() as int) =~= cs@);
}

/// The names looked up for `param` on the command at `full_path` (tool
/// first), the full path first and then each shorter prefix.
pub fn candidate_names(full_path: &[String], param: &str) -> (r: Vec<String>)
    ensures
        strings(r@) == candidates(strings(full_path@), param@),
{
    let ghost p = strings(full_path@);
    let param_canon = canon_of(param);
    let mut out: Vec<String> = Vec::new();
    if param_canon.as_str().is_empty() || full_path.len() == 0 {
        proof {
            assert(param_canon@.len() == 0 || p.len() == 0);
            assert(strings(out@) =~= Seq::<Seq<char>>::empty());
        }
        return out;
    }
    let ghost pc = param_canon@;
    let mut len: usize = full_path.len();
    while len > 0
        invariant
            len <= full_path@.len(),
            p == strings(full_path@),
            pc == canon(param@),
            pc == param_canon@,
            p.len() > 0,
            strings(out@) + cand_lens(p, len as nat).map_values(|l: nat| var_name(path_canon(p, l as int), pc))
                == cand_lens(p, p.len()).map_values(|l: nat| var_name(path_canon(p, l as int), pc)),
        decreases len,
    {
        let path_part = path_canon_of(full_path, len);
        let ghost rest = cand_lens(p, (len - 1) as nat).map_values(|l: nat| var_name(path_canon(p, l as int), pc));
        let ghost before = strings(out@);
        if !path_part.as_str().is_empty() {
            let mut name = String::new();
            append_string(&mut name, "BRACT_");
            append_string(&mut name, path_part.as_str());
            append_string(&mut name, "__");
            append_string(&mut name, param_canon.as_str());
            proof {
                reveal_strlit("BRACT_");
                reveal_strlit("__");
                assert(name@ =~= var_name(path_part@, pc));
            }
            out.push(name);
            proof {
                let here: Seq<nat> = seq![len as nat];
                assert(cand_lens(p, len as nat) == here + cand_lens(p, (len - 1) as nat));
                assert(cand_lens(p, len as nat).map_values(|l: nat| var_name(path_canon(p, l as int), pc))
                    =~= seq![var_name(path_part@, pc)] + rest);
                assert(strings(out@) =~= before.push(var_name(path_part@, pc)));
            }
        } else {
            proof {
                let here: Seq<nat> = seq![];
                assert(cand_lens(p, len as nat) == here + cand_lens(p, (len - 1) as nat));
                assert(cand_lens(p, len as nat) =~= cand_lens(p, (len - 1) as nat));
            }
        }
        len -= 1;
    }
    proof {
        assert(cand_lens(p, 0) =~= Seq::<nat>::empty());
        assert(cand_lens(p, 0).map_values(|l: nat| var_name(path_canon(p, l as int), pc)) =~= Seq::<Seq<char>>::empty());
        assert(strings(out@) + Seq::<Seq<char>>::empty() =~= strings(out@));
    }
    out
}

/// The first answered name among `names`, given what the environment
/// answered for each in turn (`answers` may stop early).
pub fn pick(names: &Vec<String>, answers: &Vec<Option<String>>) -> (r: Option<EnvValue>)
    ensures
        found_view(r) == first_found(strings(names@), opt_strings(answers@)),
{
    let ghost ns = strings(names@);
    let ghost an = opt_strings(answers@);
    let mut i: usize = 0;
    assert(ns.skip(0) =~= ns);
    assert(an.skip(0) =~= an);
    while i < names.len() && i < answers.len()
        invariant
            i <= names@.len(),
            i <= answers@.len(),
            ns == strings(names@),
            an == opt_strings(answers@),
            first_found(ns, an) == first_found(ns.skip(i as int), an.skip(i as int)),
        decreases names@.len() - i,
    {
        match &answers[i] {
            Some(v) => {
                proof {
                    assert(an.skip(i as int)[0] == an[i as int]);
                    assert(ns.skip(i as int)[0] == ns[i as int]);
                }
                return Some(EnvValue { value: v.clone(), var_name: names[i].clone() });
            },
            None => {
                proof {
                    assert(an.skip(i as int)[0] == an[i as int]);
                    assert(ns.skip(i as int).skip(1) =~= ns.skip(i + 1));
                    assert(an.skip(i as int).skip(1) =~= an.skip(i + 1));
                }
            },
        }
        i += 1;
    }
    None
}

/// Look for a value for `param` on the command at `full_path` (tool first):
/// the full path, then each shorter prefix down to the tool alone, and the
/// first variable the environment holds wins. What the environment answers
/// is its own; the contract fixes the names asked, in order, and that the
/// result is the first answered of them.
pub fn resolve<E: EnvSource>(env: &E, full_path: &[String], param: &str) -> (r: Option<EnvValue>)
    ensures
        exists|answers: Seq<Option<Seq<char>>>|
            #![trigger first_found(candidates(strings(full_path@), param@), answers)]
            found_view(r) == first_found(candidates(strings(full_path@), param@), answers)
            && asked_in_turn(*env, candidates(strings(full_path@), param@), answers),
{
    let names = candidate_names(full_path, param);
    let ghost cands = candidates(strings(full_path@), param@);
    let mut answers: Vec<Option<String>> = Vec::new();
    let mut i: usize = 0;
    while i < names.len()
        invariant_except_break
            answers@.len() == i,
            forall|k: int| 0 <= k < i ==> answers@[k] is None,
        invariant
            i <= names@.len(),
            strings(names@) == cands,
            answers@.len() <= names@.len(),
            forall|k: int| 0 <= k < answers@.len() ==> #[trigger] env_answers(*env, cands[k], opt_strings(answers@)[k]),
        ensures
            forall|k: int| 0 <= k < answers@.len() - 1 ==> answers@[k] is None,
            answers@.len() == names@.len() || (answers@.len() > 0 && answers@.last() is Some),
        decreases names@.len() - i,
    {
        let key = names[i].as_str();
        let a = env.get(key);
        proof {
            assert(call_ensures(E::get, (env, key), a));
            assert(strings(names@)[i as int] == names@[i as int]@);
        }
        let found = a.is_some();
        let ghost before = answers@;
        answers.push(a);
        proof {
            assert forall|k: int| 0 <= k < answers@.len() implies #[trigger] env_answers(*env, cands[k], opt_strings(answers@)[k]) by {
                if k < before.len() {
                    assert(answers@[k] == before[k]);
                    assert(opt_strings(answers@)[k] == opt_strings(before)[k]);
                } else {
                    assert(opt_strings(answers@)[k] == match a { Some(v) => Some(v@), None => None::<Seq<char>> });
                }
            }
        }
        if found {
            break;
        }
        i += 1;
    }
    let r = pick(&names, &answers);
    proof {
        let w = opt_strings(answers@);
        assert(found_view(r) == first_found(cands, w));
        assert forall|k: int| 0 <= k < w.len() - 1 implies #[trigger] w[k] is None by {
            assert(answers@[k] is None);
        }
        if answers@.len() > 0 {
            assert(w.last() == (match answers@.last() { Some(v) => Some(v@), None => None::<Seq<char>> }));
        }
        assert(asked_in_turn(*env, cands, w));
    }
    r
}

/// `a` is an answer the environment can give when asked for `name`.
pub open spec fn env_answers<E: EnvSource>(env: E, name: Seq<char>, a: Option<Seq<char>>) -> bool {
    exists|key: &str, v: Option<String>|
        #![trigger call_ensures(E::get, (&env, key), v)]
        key@ == name && call_ensures(E::get, (&env, key), v) && a == (match v {
            Some(s) => Some(s@),
            None => None::<Seq<char>>,
        })
}

/// `answers` are what the environment gave for the first names asked, in
/// order, the asking stopping at the first name it answered.
pub open spec fn asked_in_turn<E: EnvSource>(env: E, names: Seq<Seq<char>>, answers: Seq<Option<Seq<char>>>) -> bool {
    &&& answers.len() <= names.len()
    &&& forall|k: int| 0 <= k < answers.len() ==> #[trigger] env_answers(env, names[k], answers[k])
    &&& forall|k: int| 0 <= k < answers.len() - 1 ==> #[trigger] answers[k] is None
    &&& (answers.len() == names.len() || (answers.len() > 0 && answers.last() is Some))
}

// ---------------------------------------------------------------------------
// Truthiness
// ---------------------------------------------------------------------------

/// Whether an environment value turns a toggle on: `1`, `true`, `yes` or
/// `on` in any case, surrounding whitespace ignored.
pub open spec fn truthy(value: Seq<char>) -> bool {
    let v = lower(trim(value));
    v == seq!['1'] || v == seq!['t', 'r', 'u', 'e'] || v == seq!['y', 'e', 's'] || v == seq!['o', 'n']
}

/// Interpret an environment value as a boolean, for toggle flags.
pub fn is_truthy(value: &str) -> (r: bool)
    ensures
        r == truthy(value@),
{
    let cs = chars_of(value);
    let t = trim_of(cs.as_slice());
    let v = to_lower(t);
    let one = v.len() == 1 && v[0] == '1';
    let tru = v.len() == 4 && v[0] == 't' && v[1] == 'r' && v[2] == 'u' && v[3] == 'e';
    let yes = v.len() == 3 && v[0] == 'y' && v[1] == 'e' && v[2] == 's';
    let on = v.len() == 2 && v[0] == 'o' && v[1] == 'n';
    proof {
        let lv = lower(trim(value@));
        assert(v@ == lv);
        assert(one == (lv =~= seq!['1']));
        assert(tru == (lv =~= seq!['t', 'r', 'u', 'e']));
        assert(yes == (lv =~= seq!['y', 'e', 's']));
        assert(on == (lv =~= seq!['o', 'n']));
    }
    one || tru || yes || on
}

// ---------------------------------------------------------------------------
// Laws
// ---------------------------------------------------------------------------

proof fn lemma_cand_lens_bounds(path: Seq<Seq<char>>, len: nat)
    ensures
        forall|i: int| 0 <= i < cand_lens(path, len).len() ==> 1 <= #[trigger] cand_lens(path, len)[i] <= len,
        forall|i: int, j: int| 0 <= i < j < cand_lens(path, len).len() ==>
            #[trigger] cand_lens(path, len)[i] > #[trigger] cand_lens(path, len)[j],
    decreases len,
{
    if len > 0 {
        lemma_cand_lens_bounds(path, (len - 1) as nat);
        let here: Seq<nat> = if path_canon(path, len as int).len() > 0 { seq![len] } else { seq![] };
        let rest = cand_lens(path, (len - 1) as nat);
        let all = cand_lens(path, len);
        assert(all == here + rest);
        assert forall|i: int| 0 <= i < all.len() implies 1 <= #[trigger] all[i] <= len by {
            if i >= here.len() {
                assert(all[i] == rest[i - here.len()]);
            }
        }
        assert forall|i: int, j: int| 0 <= i < j < all.len() implies #[trigger] all[i] > #[trigger] all[j] by {
            assert(all[j] == rest[j - here.len()]);
            if i >= here.len() {
                assert(all[i] == rest[i - here.len()]);
            }
        }
    }
}

/// Longer prefixes are tried first: among the names looked up, an earlier
/// one always stands for a strictly longer prefix of the command's path, so
/// the most specific variable present wins.
pub proof fn lemma_most_specific_first(path: Seq<Seq<char>>, i: int, j: int)
    requires
        0 <= i < j < cand_lens(path, path.len()).len(),
    ensures
        cand_lens(path, path.len())[i] > cand_lens(path, path.len())[j],
        cand_lens(path, path.len())[i] <= path.len(),
{
    lemma_cand_lens_bounds(path, path.len());
}

/// Every prefix whose segments fold to something is asked for: a variable set
/// for a command applies to every command below it.
pub proof fn lemma_every_prefix_asked(path: Seq<Seq<char>>, len: nat, k: nat)
    requires
        1 <= k <= len,
        path_canon(path, k as int).len() > 0,
    ensures
        cand_lens(path, len).contains(k),
    decreases len,
{
    if k == len {
        assert(cand_lens(path, len)[0] == k);
    } else {
        lemma_every_prefix_asked(path, (len - 1) as nat, k);
        let here: Seq<nat> = if path_canon(path, len as int).len() > 0 { seq![len] } else { seq![] };
        let rest = cand_lens(path, (len - 1) as nat);
        let w = choose|x: int| 0 <= x < rest.len() && rest[x] == k;
        assert((here + rest)[here.len() + w] == k);
    }
}

} // verus!
