//! Laws of the metadata read from a Knack argument's help.

use vstd::prelude::*;
use crate::knack_helptext::{allowed_list, allowed_value, allowed_values};
use crate::text::{
    back_char, back_ws, find, find_from, lemma_back_char, lemma_back_ws, lemma_find_from_range,
    lemma_skip_ws, matches_at, skip_ws, split, split_from, trim, trim_end_char, trim_start,
};

verus! {

/// `p` occurs at `f` in `s`, and nowhere before: the search finds `f`.
proof fn lemma_find_is_first(s: Seq<char>, p: Seq<char>, f: int, i: int)
    requires
        0 <= i <= f,
        matches_at(s, p, f),
        forall|j: int| i <= j < f ==> !matches_at(s, p, j),
    ensures
        find_from(s, p, i) == f,
    decreases f - i,
{
    if i < f {
        lemma_find_is_first(s, p, f, i + 1);
    }
}

/// Each piece of a split is a stretch of the text at or after `i`.
proof fn lemma_split_pieces(s: Seq<char>, sep: Seq<char>, i: int)
    ensures
        forall|k: int| 0 <= k < split_from(s, sep, i).len() ==> exists|a: int, b: int|
            #![trigger s.subrange(a, b)]
            i <= a <= b <= s.len() && #[trigger] split_from(s, sep, i)[k] == s.subrange(a, b),
    decreases s.len() + 1 - i,
{
    if sep.len() == 0 || i < 0 || i > s.len() {
    } else {
        let e = find_from(s, sep, i);
        lemma_find_from_range(s, sep, i);
        if e < i || e + sep.len() > s.len() {
            let out = split_from(s, sep, i);
            assert forall|k: int| 0 <= k < out.len() implies exists|a: int, b: int|
                #![trigger s.subrange(a, b)]
                i <= a <= b <= s.len() && #[trigger] out[k] == s.subrange(a, b) by {
                assert(out[k] == s.subrange(i, s.len() as int));
            }
        } else {
            lemma_split_pieces(s, sep, e + sep.len());
            let tail = split_from(s, sep, e + sep.len());
            let out = split_from(s, sep, i);
            assert(out == seq![s.subrange(i, e)] + tail);
            assert forall|k: int| 0 <= k < out.len() implies exists|a: int, b: int|
                #![trigger s.subrange(a, b)]
                i <= a <= b <= s.len() && #[trigger] out[k] == s.subrange(a, b) by {
                if k == 0 {
                    assert(out[k] == s.subrange(i, e));
                } else {
                    assert(out[k] == tail[k - 1]);
                    let (a, b) = choose|a: int, b: int| e + sep.len() <= a <= b <= s.len() && tail[k - 1] == s.subrange(a, b);
                    assert(out[k] == s.subrange(a, b));
                }
            }
        }
    }
}

/// A cleaned list entry is a stretch of the entry.
proof fn lemma_allowed_value_within(v: Seq<char>)
    ensures
        exists|a: int, b: int| #![trigger v.subrange(a, b)] 0 <= a <= b <= v.len() && allowed_value(v) == v.subrange(a, b),
{
    lemma_skip_ws(v, 0);
    let s1 = skip_ws(v, 0);
    let t1 = trim_start(v);
    lemma_back_ws(t1, t1.len() as int);
    let e1 = back_ws(t1, t1.len() as int);
    let t = trim(v);
    assert(t =~= v.subrange(s1, s1 + e1));
    lemma_back_char(t, '.', t.len() as int);
    let e2 = back_char(t, '.', t.len() as int);
    let u = trim_end_char(t, '.');
    assert(u =~= v.subrange(s1, s1 + e2));
    lemma_skip_ws(u, 0);
    let s3 = skip_ws(u, 0);
    let u1 = trim_start(u);
    lemma_back_ws(u1, u1.len() as int);
    let e3 = back_ws(u1, u1.len() as int);
    assert(allowed_value(v) =~= v.subrange(s1 + s3, s1 + s3 + e3));
}

/// Every value of the list is the cleaned form of one of its pieces.
proof fn lemma_allowed_list_from(pieces: Seq<Seq<char>>)
    ensures
        forall|k: int| 0 <= k < allowed_list(pieces).len() ==> exists|j: int|
            0 <= j < pieces.len() && #[trigger] allowed_list(pieces)[k] == allowed_value(pieces[j]),
    decreases pieces.len(),
{
    if pieces.len() > 0 {
        let init = pieces.drop_last();
        lemma_allowed_list_from(init);
        let out = allowed_list(pieces);
        let rest = allowed_list(init);
        assert forall|k: int| 0 <= k < out.len() implies exists|j: int|
            0 <= j < pieces.len() && #[trigger] out[k] == allowed_value(pieces[j]) by {
            if k < rest.len() {
                assert(out[k] == rest[k]);
                let j = choose|j: int| 0 <= j < init.len() && rest[k] == allowed_value(init[j]);
                assert(pieces[j] == init[j]);
            } else {
                assert(out[k] == allowed_value(pieces[pieces.len() - 1]));
            }
        }
    }
}

/// The allowed values are read from the sentence after `Allowed values:`
/// alone: when that sentence ends (a `.` followed by a space), every value
/// is a stretch of the text between the label and that `.`, so nothing of
/// what follows the sentence (a `Default:`, say) is glued onto a value.
pub proof fn lemma_allowed_values_stop_at_sentence_end(h: Seq<char>, f: int, e: int)
    requires
        0 <= f,
        f + 15 <= e,
        e + 2 <= h.len(),
        h.subrange(f, f + 15) == "Allowed values:"@,
        forall|j: int| 0 <= j < f ==> #[trigger] h.subrange(j, j + 15) != "Allowed values:"@,
        h.subrange(e, e + 2) == ". "@,
        forall|j: int| f + 15 <= j < e ==> #[trigger] h.subrange(j, j + 2) != ". "@,
    ensures
        allowed_values(h) matches Some(cs) ==> forall|k: int| 0 <= k < cs.len() ==> exists|a: int, b: int|
            #![trigger h.subrange(a, b)]
            f + 15 <= a <= b <= e + 1 && #[trigger] cs[k] == h.subrange(a, b),
{
    reveal_strlit("Allowed values:");
    reveal_strlit(". ");
    let pat = "Allowed values:"@;
    let dot = ". "@;
    assert forall|j: int| 0 <= j < f implies !matches_at(h, pat, j) by {
        assert(h.subrange(j, j + 15) != pat);
    }
    lemma_find_is_first(h, pat, f, 0);
    assert(find(h, pat) == f);
    let rest = h.subrange(f + 15, h.len() as int);
    let e0 = e - (f + 15);
    assert(rest.subrange(e0, e0 + 2) =~= h.subrange(e, e + 2));
    assert forall|j: int| 0 <= j < e0 implies !matches_at(rest, dot, j) by {
        assert(rest.subrange(j, j + 2) =~= h.subrange(f + 15 + j, f + 15 + j + 2));
        assert(h.subrange(f + 15 + j, f + 15 + j + 2) != dot);
    }
    lemma_find_is_first(rest, dot, e0, 0);
    assert(find(rest, dot) == e0);
    let list = rest.subrange(0, e0 + 1);
    assert(list =~= h.subrange(f + 15, e + 1));
    let pieces = split(list, seq![',']);
    lemma_split_pieces(list, seq![','], 0);
    lemma_allowed_list_from(pieces);
    let vals = allowed_list(pieces);
    if allowed_values(h) is Some {
        let cs = allowed_values(h)->0;
        assert(cs == vals);
        assert forall|k: int| 0 <= k < cs.len() implies exists|a: int, b: int|
            #![trigger h.subrange(a, b)]
            f + 15 <= a <= b <= e + 1 && #[trigger] cs[k] == h.subrange(a, b) by {
            let j = choose|j: int| 0 <= j < pieces.len() && vals[k] == allowed_value(pieces[j]);
            let (a, b) = choose|a: int, b: int| 0 <= a <= b <= list.len() && pieces[j] == list.subrange(a, b);
            lemma_allowed_value_within(pieces[j]);
            let (c, d) = choose|c: int, d: int| 0 <= c <= d <= pieces[j].len() && allowed_value(pieces[j]) == pieces[j].subrange(c, d);
            assert(cs[k] =~= h.subrange(f + 15 + a + c, f + 15 + a + d));
        }
    }
}

} // verus!
