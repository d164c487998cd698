//! Character-level text handling shared by the help-text parsers and the
//! command-line builders: the meaning of the `str` operations they rely on,
//! stated over `Seq<char>`, and executable counterparts over `[char]` proved
//! against it.
//!
//! The recursive spec functions walk a fixed sequence by position, so each
//! executable loop keeps "what the walk from the start yields equals what was
//! seen so far plus what the walk from here yields" as its invariant.

use vstd::prelude::*;
use vstd::std_specs::iter::IteratorSpec;
use vstd::utf8::{decode_utf8, valid_utf8};
use vstd::slice::slice_subrange;

verus! {

// ---------------------------------------------------------------------------
// Characters
// ---------------------------------------------------------------------------

/// Unicode `White_Space`, the set `char::is_whitespace` tests.
pub open spec fn is_ws(c: char) -> bool {
    c == ' ' || c == '\t' || c == '\n' || c == '\x0B' || c == '\x0C' || c == '\r'
        || c == '\u{85}' || c == '\u{A0}' || c == '\u{1680}' || ('\u{2000}' <= c && c <= '\u{200A}')
        || c == '\u{2028}' || c == '\u{2029}' || c == '\u{202F}' || c == '\u{205F}'
        || c == '\u{3000}'
}

pub fn is_whitespace(c: char) -> (r: bool)
    ensures
        r == is_ws(c),
{
    c == ' ' || c == '\t' || c == '\n' || c == '\x0B' || c == '\x0C' || c == '\r'
        || c == '\u{85}' || c == '\u{A0}' || c == '\u{1680}' || ('\u{2000}' <= c && c <= '\u{200A}')
        || c == '\u{2028}' || c == '\u{2029}' || c == '\u{202F}' || c == '\u{205F}'
        || c == '\u{3000}'
}

pub open spec fn is_ascii_digit(c: char) -> bool {
    '0' <= c && c <= '9'
}

pub open spec fn is_ascii_alnum(c: char) -> bool {
    ('0' <= c && c <= '9') || ('a' <= c && c <= 'z') || ('A' <= c && c <= 'Z')
}

pub fn is_ascii_alphanumeric(c: char) -> (r: bool)
    ensures
        r == is_ascii_alnum(c),
{
    ('0' <= c && c <= '9') || ('a' <= c && c <= 'z') || ('A' <= c && c <= 'Z')
}

/// The code of `c` with ASCII upper case folded to lower case, the comparison
/// `eq_ignore_ascii_case` makes.
pub open spec fn fold_code(c: char) -> u32 {
    if 'A' <= c && c <= 'Z' {
        (c as u32 + 32) as u32
    } else {
        c as u32
    }
}

pub fn fold(c: char) -> (r: u32)
    ensures
        r == fold_code(c),
{
    if 'A' <= c && c <= 'Z' {
        c as u32 + 32
    } else {
        c as u32
    }
}

/// Whether `c` is alphanumeric in Unicode's sense (`char::is_alphanumeric`).
pub uninterp spec fn unicode_alphanumeric(c: char) -> bool;

/// `char::is_alphanumeric`: Unicode `Alphabetic` or `Numeric`. The contract
/// names the result and adds only what the standard library documents for
/// ASCII: there the ASCII letters and digits are exactly the alphanumerics.
#[verifier::external_body]
pub(crate) fn is_alphanumeric(c: char) -> (r: bool)
    ensures
        r == unicode_alphanumeric(c),
        (c as u32) < 128 ==> (r == is_ascii_alnum(c)),
{
    c.is_alphanumeric()
}

// ---------------------------------------------------------------------------
// Strings to and from characters
// ---------------------------------------------------------------------------

/// Appends one character to a string (`String::push`).
#[verifier::external_body]
pub(crate) fn push_char(s: &mut String, c: char)
    ensures
        final(s)@ == old(s)@.push(c),
{
    s.push(c);
}

/// The characters of `s`, in order.
pub fn chars_of(s: &str) -> (r: Vec<char>)
    ensures
        r@ == s@,
{
    broadcast use vstd::string::group_string_axioms;

    let mut out: Vec<char> = Vec::new();
    let mut it = s.chars();
    loop
        invariant
            it.obeys_prophetic_iter_laws(),
            out@ + it.remaining() == s@,
            it.decrease() is Some,
        ensures
            out@ == s@,
        decreases it.decrease()->0,
    {
        match it.next() {
            Some(c) => {
                out.push(c);
            },
            None => {
                break ;
            },
        }
    }
    out
}

/// A string holding exactly the characters of `s`.
pub fn to_string(s: &[char]) -> (r: String)
    ensures
        r@ == s@,
{
    let mut out = String::new();
    let mut i: usize = 0;
    while i < s.len()
        invariant
            i <= s@.len(),
            out@ == s@.subrange(0, i as int),
        decreases s@.len() - i,
    {
        push_char(&mut out, s[i]);
        assert(s@.subrange(0, i + 1) == s@.subrange(0, i as int).push(s@[i as int]));
        i += 1;
    }
    assert(s@.subrange(0, s@.len() as int) == s@);
    out
}

/// Appends the characters of `s` to `out`.
pub fn push_chars(out: &mut String, s: &[char])
    ensures
        final(out)@ == old(out)@ + s@,
{
    let mut i: usize = 0;
    while i < s.len()
        invariant
            i <= s@.len(),
            out@ == old(out)@ + s@.subrange(0, i as int),
        decreases s@.len() - i,
    {
        push_char(out, s[i]);
        assert(s@.subrange(0, i + 1) == s@.subrange(0, i as int).push(s@[i as int]));
        i += 1;
    }
    assert(s@.subrange(0, s@.len() as int) == s@);
}

/// Appends the characters of a string to `out`.
pub fn push_str(out: &mut String, s: &str)
    ensures
        final(out)@ == old(out)@ + s@,
{
    let v = chars_of(s);
    push_chars(out, v.as_slice());
}

/// Copies the characters of `s` into a vector.
pub fn to_vec(s: &[char]) -> (r: Vec<char>)
    ensures
        r@ == s@,
{
    let mut out: Vec<char> = Vec::new();
    let mut i: usize = 0;
    while i < s.len()
        invariant
            i <= s@.len(),
            out@ == s@.subrange(0, i as int),
        decreases s@.len() - i,
    {
        out.push(s[i]);
        assert(s@.subrange(0, i + 1) == s@.subrange(0, i as int).push(s@[i as int]));
        i += 1;
    }
    assert(s@.subrange(0, s@.len() as int) == s@);
    out
}

// ---------------------------------------------------------------------------
// Comparison
// ---------------------------------------------------------------------------

pub fn eq_chars(a: &[char], b: &[char]) -> (r: bool)
    ensures
        r == (a@ == b@),
{
    if a.len() != b.len() {
        return false;
    }
    let mut i: usize = 0;
    while i < a.len()
        invariant
            a@.len() == b@.len(),
            i <= a@.len(),
            forall|k: int| 0 <= k < i ==> a@[k] == b@[k],
        decreases a@.len() - i,
    {
        if a[i] != b[i] {
            return false;
        }
        i += 1;
    }
    assert(a@ =~= b@);
    true
}

/// Equality ignoring ASCII case (`eq_ignore_ascii_case`).
pub open spec fn eq_ci(a: Seq<char>, b: Seq<char>) -> bool {
    a.len() == b.len() && forall|k: int| 0 <= k < a.len() ==> fold_code(a[k]) == fold_code(b[k])
}

pub fn eq_ignore_case(a: &[char], b: &[char]) -> (r: bool)
    ensures
        r == eq_ci(a@, b@),
{
    if a.len() != b.len() {
        return false;
    }
    let mut i: usize = 0;
    while i < a.len()
        invariant
            a@.len() == b@.len(),
            i <= a@.len(),
            forall|k: int| 0 <= k < i ==> fold_code(a@[k]) == fold_code(b@[k]),
        decreases a@.len() - i,
    {
        if fold(a[i]) != fold(b[i]) {
            return false;
        }
        i += 1;
    }
    true
}

pub open spec fn starts_with(s: Seq<char>, p: Seq<char>) -> bool {
    p.len() <= s.len() && s.subrange(0, p.len() as int) == p
}

pub open spec fn ends_with(s: Seq<char>, p: Seq<char>) -> bool {
    p.len() <= s.len() && s.subrange(s.len() - p.len(), s.len() as int) == p
}

pub fn has_prefix(s: &[char], p: &[char]) -> (r: bool)
    ensures
        r == starts_with(s@, p@),
{
    if p.len() > s.len() {
        return false;
    }
    let head = slice_subrange(s, 0, p.len());
    eq_chars(head, p)
}

pub fn has_suffix(s: &[char], p: &[char]) -> (r: bool)
    ensures
        r == ends_with(s@, p@),
{
    if p.len() > s.len() {
        return false;
    }
    let tail = slice_subrange(s, s.len() - p.len(), s.len());
    eq_chars(tail, p)
}

/// `s` ends with `p`, ignoring ASCII case.
pub open spec fn ends_with_ci(s: Seq<char>, p: Seq<char>) -> bool {
    p.len() <= s.len() && eq_ci(s.subrange(s.len() - p.len(), s.len() as int), p)
}

pub open spec fn starts_with_ci(s: Seq<char>, p: Seq<char>) -> bool {
    p.len() <= s.len() && eq_ci(s.subrange(0, p.len() as int), p)
}

pub fn has_suffix_ci(s: &[char], p: &[char]) -> (r: bool)
    ensures
        r == ends_with_ci(s@, p@),
{
    if p.len() > s.len() {
        return false;
    }
    let tail = slice_subrange(s, s.len() - p.len(), s.len());
    eq_ignore_case(tail, p)
}

pub fn has_prefix_ci(s: &[char], p: &[char]) -> (r: bool)
    ensures
        r == starts_with_ci(s@, p@),
{
    if p.len() > s.len() {
        return false;
    }
    let head = slice_subrange(s, 0, p.len());
    eq_ignore_case(head, p)
}

// ---------------------------------------------------------------------------
// Searching
// ---------------------------------------------------------------------------

pub open spec fn matches_at(s: Seq<char>, p: Seq<char>, i: int) -> bool {
    0 <= i && i + p.len() <= s.len() && s.subrange(i, i + p.len()) == p
}

/// The first position at or after `i` where `p` occurs in `s`, or -1.
pub open spec fn find_from(s: Seq<char>, p: Seq<char>, i: int) -> int
    decreases s.len() + 1 - i,
{
    if i < 0 || i + p.len() > s.len() {
        -1
    } else if matches_at(s, p, i) {
        i
    } else {
        find_from(s, p, i + 1)
    }
}

/// `str::find`: the first position of `p` in `s`, or -1.
pub open spec fn find(s: Seq<char>, p: Seq<char>) -> int {
    find_from(s, p, 0)
}

/// The last position at or before `i` where `p` occurs in `s`, or -1.
pub open spec fn rfind_from(s: Seq<char>, p: Seq<char>, i: int) -> int
    decreases i + 1,
{
    if i < 0 {
        -1
    } else if matches_at(s, p, i) {
        i
    } else {
        rfind_from(s, p, i - 1)
    }
}

/// `str::rfind`: the last position of `p` in `s`, or -1.
pub open spec fn rfind(s: Seq<char>, p: Seq<char>) -> int {
    rfind_from(s, p, s.len() - p.len())
}

pub open spec fn contains(s: Seq<char>, p: Seq<char>) -> bool {
    find(s, p) >= 0
}

pub proof fn lemma_find_from_range(s: Seq<char>, p: Seq<char>, i: int)
    ensures
        find_from(s, p, i) == -1 || (i <= find_from(s, p, i) && matches_at(s, p, find_from(s, p, i))),
    decreases s.len() + 1 - i,
{
    if i < 0 || i + p.len() > s.len() {
    } else if matches_at(s, p, i) {
    } else {
        lemma_find_from_range(s, p, i + 1);
    }
}

pub proof fn lemma_rfind_from_range(s: Seq<char>, p: Seq<char>, i: int)
    ensures
        rfind_from(s, p, i) == -1 || (rfind_from(s, p, i) <= i && matches_at(s, p, rfind_from(s, p, i))),
    decreases i + 1,
{
    if i < 0 {
    } else if matches_at(s, p, i) {
    } else {
        lemma_rfind_from_range(s, p, i - 1);
    }
}

fn matches_here(s: &[char], p: &[char], i: usize) -> (r: bool)
    requires
        i + p@.len() <= s@.len(),
    ensures
        r == matches_at(s@, p@, i as int),
{
    let n = s.len();
    let m = p.len();
    let part = slice_subrange(s, i, i + m);
    eq_chars(part, p)
}

/// The first position of `p` in `s` at or after `from`.
pub fn find_at(s: &[char], p: &[char], from: usize) -> (r: Option<usize>)
    requires
        from <= s@.len(),
    ensures
        match r {
            Some(k) => k as int == find_from(s@, p@, from as int),
            None => find_from(s@, p@, from as int) == -1,
        },
{
    if p.len() > s.len() {
        return None;
    }
    let last = s.len() - p.len();
    if from > last {
        return None;
    }
    let mut i = from;
    loop
        invariant
            from <= i <= last,
            last == s@.len() - p@.len(),
            find_from(s@, p@, from as int) == find_from(s@, p@, i as int),
        decreases last - i,
    {
        if matches_here(s, p, i) {
            return Some(i);
        }
        if i == last {
            assert(find_from(s@, p@, i + 1) == -1);
            return None;
        }
        i += 1;
    }
}

pub fn find_in(s: &[char], p: &[char]) -> (r: Option<usize>)
    ensures
        match r {
            Some(k) => k as int == find(s@, p@),
            None => find(s@, p@) == -1,
        },
{
    find_at(s, p, 0)
}

pub fn contains_in(s: &[char], p: &[char]) -> (r: bool)
    ensures
        r == contains(s@, p@),
{
    proof {
        lemma_find_from_range(s@, p@, 0);
    }
    find_in(s, p).is_some()
}

pub fn rfind_in(s: &[char], p: &[char]) -> (r: Option<usize>)
    ensures
        match r {
            Some(k) => k as int == rfind(s@, p@),
            None => rfind(s@, p@) == -1,
        },
{
    if p.len() > s.len() {
        return None;
    }
    let mut i: usize = s.len() - p.len();
    loop
        invariant
            i <= s@.len() - p@.len(),
            p@.len() <= s@.len(),
            rfind(s@, p@) == rfind_from(s@, p@, i as int),
        decreases i,
    {
        if matches_here(s, p, i) {
            return Some(i);
        }
        if i == 0 {
            assert(rfind_from(s@, p@, -1) == -1);
            return None;
        }
        i -= 1;
    }
}

/// Positions of the first character equal to `c` at or after `i`, or -1.
pub open spec fn find_char_from(s: Seq<char>, c: char, i: int) -> int
    decreases s.len() - i,
{
    if i < 0 || i >= s.len() {
        -1
    } else if s[i] == c {
        i
    } else {
        find_char_from(s, c, i + 1)
    }
}

pub proof fn lemma_find_char_from_range(s: Seq<char>, c: char, i: int)
    ensures
        find_char_from(s, c, i) == -1 || (i <= find_char_from(s, c, i) < s.len() && s[find_char_from(s, c, i)] == c),
    decreases s.len() - i,
{
    if i < 0 || i >= s.len() {
    } else if s[i] == c {
    } else {
        lemma_find_char_from_range(s, c, i + 1);
    }
}

pub fn find_char_at(s: &[char], c: char, from: usize) -> (r: Option<usize>)
    requires
        from <= s@.len(),
    ensures
        match r {
            Some(k) => k as int == find_char_from(s@, c, from as int),
            None => find_char_from(s@, c, from as int) == -1,
        },
{
    let mut i = from;
    while i < s.len()
        invariant
            from <= i <= s@.len(),
            find_char_from(s@, c, from as int) == find_char_from(s@, c, i as int),
        decreases s@.len() - i,
    {
        if s[i] == c {
            return Some(i);
        }
        i += 1;
    }
    None
}

pub open spec fn has_char(s: Seq<char>, c: char) -> bool {
    exists|k: int| 0 <= k < s.len() && s[k] == c
}

pub fn contains_char(s: &[char], c: char) -> (r: bool)
    ensures
        r == has_char(s@, c),
{
    let mut i: usize = 0;
    while i < s.len()
        invariant
            i <= s@.len(),
            forall|k: int| 0 <= k < i ==> s@[k] != c,
        decreases s@.len() - i,
    {
        if s[i] == c {
            return true;
        }
        i += 1;
    }
    false
}

// ---------------------------------------------------------------------------
// Trimming
// ---------------------------------------------------------------------------

/// The first position at or after `i` that is not whitespace.
pub open spec fn skip_ws(s: Seq<char>, i: int) -> int
    decreases s.len() - i,
{
    if 0 <= i < s.len() && is_ws(s[i]) {
        skip_ws(s, i + 1)
    } else {
        i
    }
}

/// The end of `s[..j]` once trailing whitespace is dropped.
pub open spec fn back_ws(s: Seq<char>, j: int) -> int
    decreases j,
{
    if 0 < j <= s.len() && is_ws(s[j - 1]) {
        back_ws(s, j - 1)
    } else {
        j
    }
}

pub proof fn lemma_skip_ws(s: Seq<char>, i: int)
    requires
        0 <= i <= s.len(),
    ensures
        i <= skip_ws(s, i) <= s.len(),
        forall|k: int| i <= k < skip_ws(s, i) ==> is_ws(#[trigger] s[k]),
        skip_ws(s, i) < s.len() ==> !is_ws(s[skip_ws(s, i)]),
    decreases s.len() - i,
{
    if i < s.len() && is_ws(s[i]) {
        lemma_skip_ws(s, i + 1);
    }
}

pub proof fn lemma_back_ws(s: Seq<char>, j: int)
    requires
        0 <= j <= s.len(),
    ensures
        0 <= back_ws(s, j) <= j,
        forall|k: int| back_ws(s, j) <= k < j ==> is_ws(#[trigger] s[k]),
        back_ws(s, j) > 0 ==> !is_ws(s[back_ws(s, j) - 1]),
    decreases j,
{
    if 0 < j && is_ws(s[j - 1]) {
        lemma_back_ws(s, j - 1);
    }
}

pub open spec fn trim_start(s: Seq<char>) -> Seq<char> {
    s.subrange(skip_ws(s, 0), s.len() as int)
}

pub open spec fn trim_end(s: Seq<char>) -> Seq<char> {
    s.subrange(0, back_ws(s, s.len() as int))
}

/// `str::trim`.
pub open spec fn trim(s: Seq<char>) -> Seq<char> {
    trim_end(trim_start(s))
}

pub fn skip_ws_at(s: &[char], from: usize) -> (r: usize)
    requires
        from <= s@.len(),
    ensures
        r as int == skip_ws(s@, from as int),
{
    let mut i = from;
    while i < s.len() && is_whitespace(s[i])
        invariant
            from <= i <= s@.len(),
            skip_ws(s@, from as int) == skip_ws(s@, i as int),
        decreases s@.len() - i,
    {
        i += 1;
    }
    i
}

pub fn back_ws_at(s: &[char], to: usize) -> (r: usize)
    requires
        to <= s@.len(),
    ensures
        r as int == back_ws(s@, to as int),
{
    let mut j = to;
    while j > 0 && is_whitespace(s[j - 1])
        invariant
            j <= to <= s@.len(),
            back_ws(s@, to as int) == back_ws(s@, j as int),
        decreases j,
    {
        j -= 1;
    }
    j
}

pub fn trim_start_of(s: &[char]) -> (r: &[char])
    ensures
        r@ == trim_start(s@),
{
    let a = skip_ws_at(s, 0);
    proof {
        lemma_skip_ws(s@, 0);
    }
    slice_subrange(s, a, s.len())
}

pub fn trim_end_of(s: &[char]) -> (r: &[char])
    ensures
        r@ == trim_end(s@),
{
    let b = back_ws_at(s, s.len());
    proof {
        lemma_back_ws(s@, s@.len() as int);
    }
    slice_subrange(s, 0, b)
}

pub fn trim_of(s: &[char]) -> (r: &[char])
    ensures
        r@ == trim(s@),
{
    let t = trim_start_of(s);
    trim_end_of(t)
}

/// Drops every trailing occurrence of `c` (`trim_end_matches(c)`).
pub open spec fn back_char(s: Seq<char>, c: char, j: int) -> int
    decreases j,
{
    if 0 < j <= s.len() && s[j - 1] == c {
        back_char(s, c, j - 1)
    } else {
        j
    }
}

pub open spec fn trim_end_char(s: Seq<char>, c: char) -> Seq<char> {
    s.subrange(0, back_char(s, c, s.len() as int))
}

pub proof fn lemma_back_char(s: Seq<char>, c: char, j: int)
    requires
        0 <= j <= s.len(),
    ensures
        0 <= back_char(s, c, j) <= j,
    decreases j,
{
    if 0 < j && s[j - 1] == c {
        lemma_back_char(s, c, j - 1);
    }
}

pub fn trim_end_char_of(s: &[char], c: char) -> (r: &[char])
    ensures
        r@ == trim_end_char(s@, c),
{
    let mut j = s.len();
    while j > 0 && s[j - 1] == c
        invariant
            j <= s@.len(),
            back_char(s@, c, s@.len() as int) == back_char(s@, c, j as int),
        decreases j,
    {
        j -= 1;
    }
    slice_subrange(s, 0, j)
}

/// Drops every leading and trailing character satisfying membership in `set`
/// (`trim_matches` with a set of characters).
pub open spec fn front_set(s: Seq<char>, set: Seq<char>, i: int) -> int
    decreases s.len() - i,
{
    if 0 <= i < s.len() && set.contains(s[i]) {
        front_set(s, set, i + 1)
    } else {
        i
    }
}

pub open spec fn back_set(s: Seq<char>, set: Seq<char>, lo: int, j: int) -> int
    decreases j,
{
    if 0 <= lo < j <= s.len() && set.contains(s[j - 1]) {
        back_set(s, set, lo, j - 1)
    } else {
        j
    }
}

pub open spec fn trim_set(s: Seq<char>, set: Seq<char>) -> Seq<char> {
    let a = front_set(s, set, 0);
    s.subrange(a, back_set(s, set, a, s.len() as int))
}

pub proof fn lemma_front_set(s: Seq<char>, set: Seq<char>, i: int)
    requires
        0 <= i <= s.len(),
    ensures
        i <= front_set(s, set, i) <= s.len(),
    decreases s.len() - i,
{
    if i < s.len() && set.contains(s[i]) {
        lemma_front_set(s, set, i + 1);
    }
}

pub proof fn lemma_back_set(s: Seq<char>, set: Seq<char>, lo: int, j: int)
    requires
        0 <= lo <= j <= s.len(),
    ensures
        lo <= back_set(s, set, lo, j) <= j,
    decreases j,
{
    if lo < j && set.contains(s[j - 1]) {
        lemma_back_set(s, set, lo, j - 1);
    }
}

fn in_set(set: &[char], c: char) -> (r: bool)
    ensures
        r == set@.contains(c),
{
    let mut i: usize = 0;
    while i < set.len()
        invariant
            i <= set@.len(),
            forall|k: int| 0 <= k < i ==> set@[k] != c,
        decreases set@.len() - i,
    {
        if set[i] == c {
            assert(set@[i as int] == c);
            return true;
        }
        i += 1;
    }
    false
}

pub fn trim_set_of<'a>(s: &'a [char], set: &[char]) -> (r: &'a [char])
    ensures
        r@ == trim_set(s@, set@),
{
    let mut i: usize = 0;
    while i < s.len() && in_set(set, s[i])
        invariant
            i <= s@.len(),
            front_set(s@, set@, 0) == front_set(s@, set@, i as int),
        decreases s@.len() - i,
    {
        i += 1;
    }
    let mut j = s.len();
    while j > i && in_set(set, s[j - 1])
        invariant
            i <= j <= s@.len(),
            i == front_set(s@, set@, 0),
            back_set(s@, set@, i as int, s@.len() as int) == back_set(s@, set@, i as int, j as int),
        decreases j,
    {
        j -= 1;
    }
    slice_subrange(s, i, j)
}

// ---------------------------------------------------------------------------
// Splitting
// ---------------------------------------------------------------------------

/// A line as `str::lines` yields it: a `\r` just before the `\n` is dropped.
pub open spec fn strip_cr(l: Seq<char>) -> Seq<char> {
    if l.len() > 0 && l.last() == '\r' {
        l.drop_last()
    } else {
        l
    }
}

/// The lines of `s[i..]` (`str::lines`): split at `\n`, a `\r` before a `\n`
/// dropped, and no empty line after a final `\n`.
pub open spec fn lines_from(s: Seq<char>, i: int) -> Seq<Seq<char>>
    decreases s.len() - i,
{
    if i < 0 || i >= s.len() {
        seq![]
    } else {
        let e = find_char_from(s, '\n', i);
        if e < i || e >= s.len() {
            seq![s.subrange(i, s.len() as int)]
        } else {
            seq![strip_cr(s.subrange(i, e))] + lines_from(s, e + 1)
        }
    }
}

pub open spec fn lines(s: Seq<char>) -> Seq<Seq<char>> {
    lines_from(s, 0)
}

/// Every element of `v` views as the corresponding sequence of `l`.
pub open spec fn views_as<'a>(v: Seq<&'a [char]>, l: Seq<Seq<char>>) -> bool {
    v.len() == l.len() && forall|k: int| 0 <= k < v.len() ==> (#[trigger] v[k])@ == l[k]
}

pub fn split_lines<'a>(s: &'a [char]) -> (r: Vec<&'a [char]>)
    ensures
        views_as(r@, lines(s@)),
{
    let mut out: Vec<&'a [char]> = Vec::new();
    let mut i: usize = 0;
    let ghost done: Seq<Seq<char>> = seq![];
    while i < s.len()
        invariant
            i <= s@.len(),
            views_as(out@, done),
            done + lines_from(s@, i as int) == lines(s@),
        decreases s@.len() - i,
    {
        let e = find_char_at(s, '\n', i);
        proof {
            lemma_find_char_from_range(s@, '\n', i as int);
        }
        match e {
            None => {
                let line = slice_subrange(s, i, s.len());
                out.push(line);
                proof {
                    done = done.push(line@);
                    assert(lines_from(s@, s@.len() as int) == Seq::<Seq<char>>::empty());
                }
                i = s.len();
            },
            Some(e) => {
                let mut end = e;
                if end > i && s[end - 1] == '\r' {
                    end = end - 1;
                }
                let line = slice_subrange(s, i, end);
                proof {
                    let raw = s@.subrange(i as int, e as int);
                    assert(line@ == strip_cr(raw)) by {
                        if raw.len() > 0 && raw.last() == '\r' {
                            assert(raw.drop_last() =~= line@);
                        } else {
                            assert(raw =~= line@);
                        }
                    }
                    assert(lines_from(s@, i as int) == seq![line@] + lines_from(s@, e + 1));
                    assert(done.push(line@) + lines_from(s@, e + 1) =~= done + (seq![line@] + lines_from(s@, e + 1)));
                    done = done.push(line@);
                }
                out.push(line);
                i = e + 1;
            },
        }
    }
    proof {
        assert(lines_from(s@, i as int) == Seq::<Seq<char>>::empty());
        assert(done + Seq::<Seq<char>>::empty() =~= done);
    }
    out
}

/// The end of the run of non-whitespace starting at `i`.
pub open spec fn skip_word(s: Seq<char>, i: int) -> int
    decreases s.len() - i,
{
    if 0 <= i < s.len() && !is_ws(s[i]) {
        skip_word(s, i + 1)
    } else {
        i
    }
}

pub proof fn lemma_skip_word(s: Seq<char>, i: int)
    requires
        0 <= i <= s.len(),
    ensures
        i <= skip_word(s, i) <= s.len(),
        i < s.len() && !is_ws(s[i]) ==> i < skip_word(s, i),
    decreases s.len() - i,
{
    if i < s.len() && !is_ws(s[i]) {
        lemma_skip_word(s, i + 1);
    }
}

/// The whitespace-separated words of `s[i..]` (`str::split_whitespace`).
pub open spec fn words_from(s: Seq<char>, i: int) -> Seq<Seq<char>>
    decreases s.len() - i,
{
    if i < 0 || i >= s.len() {
        seq![]
    } else {
        let a = skip_ws(s, i);
        if a >= s.len() || a < i {
            seq![]
        } else {
            let b = skip_word(s, a);
            if b <= a || b > s.len() {
                seq![]
            } else {
                seq![s.subrange(a, b)] + words_from(s, b)
            }
        }
    }
}

pub open spec fn words(s: Seq<char>) -> Seq<Seq<char>> {
    words_from(s, 0)
}

pub fn split_words<'a>(s: &'a [char]) -> (r: Vec<&'a [char]>)
    ensures
        views_as(r@, words(s@)),
{
    let mut out: Vec<&'a [char]> = Vec::new();
    let mut i: usize = 0;
    let ghost done: Seq<Seq<char>> = seq![];
    while i < s.len()
        invariant
            i <= s@.len(),
            views_as(out@, done),
            done + words_from(s@, i as int) == words(s@),
        decreases s@.len() - i,
    {
        let a = skip_ws_at(s, i);
        proof {
            lemma_skip_ws(s@, i as int);
        }
        if a >= s.len() {
            proof {
                assert(words_from(s@, i as int) == Seq::<Seq<char>>::empty());
            }
            i = s.len();
        } else {
            let mut b = a;
            while b < s.len() && !is_whitespace(s[b])
                invariant
                    a <= b <= s@.len(),
                    skip_word(s@, a as int) == skip_word(s@, b as int),
                decreases s@.len() - b,
            {
                b += 1;
            }
            proof {
                lemma_skip_word(s@, a as int);
            }
            let w = slice_subrange(s, a, b);
            proof {
                assert(words_from(s@, i as int) == seq![w@] + words_from(s@, b as int));
                assert(done.push(w@) + words_from(s@, b as int) =~= done + (seq![w@] + words_from(s@, b as int)));
                done = done.push(w@);
            }
            out.push(w);
            i = b;
        }
    }
    proof {
        assert(words_from(s@, i as int) == Seq::<Seq<char>>::empty());
        assert(done + Seq::<Seq<char>>::empty() =~= done);
    }
    out
}

/// The pieces of `s[i..]` between occurrences of `sep` (`str::split` with a
/// non-empty separator).
pub open spec fn split_from(s: Seq<char>, sep: Seq<char>, i: int) -> Seq<Seq<char>>
    decreases s.len() + 1 - i,
{
    if sep.len() == 0 || i < 0 || i > s.len() {
        seq![]
    } else {
        let e = find_from(s, sep, i);
        if e < i || e + sep.len() > s.len() {
            seq![s.subrange(i, s.len() as int)]
        } else {
            seq![s.subrange(i, e)] + split_from(s, sep, e + sep.len())
        }
    }
}

pub open spec fn split(s: Seq<char>, sep: Seq<char>) -> Seq<Seq<char>> {
    split_from(s, sep, 0)
}

pub fn split_on<'a>(s: &'a [char], sep: &[char]) -> (r: Vec<&'a [char]>)
    requires
        sep@.len() > 0,
    ensures
        views_as(r@, split(s@, sep@)),
{
    let mut out: Vec<&'a [char]> = Vec::new();
    let mut i: usize = 0;
    let n = s.len();
    let ghost done: Seq<Seq<char>> = seq![];
    loop
        invariant
            i <= s@.len(),
            n == s@.len(),
            sep@.len() > 0,
            views_as(out@, done),
            done + split_from(s@, sep@, i as int) == split(s@, sep@),
        decreases s@.len() + 1 - i,
    {
        let e = find_at(s, sep, i);
        proof {
            lemma_find_from_range(s@, sep@, i as int);
        }
        match e {
            None => {
                let piece = slice_subrange(s, i, s.len());
                proof {
                    assert(split_from(s@, sep@, i as int) == seq![piece@]);
                    done = done.push(piece@);
                }
                out.push(piece);
                return out;
            },
            Some(e) => {
                let piece = slice_subrange(s, i, e);
                proof {
                    assert(split_from(s@, sep@, i as int) == seq![piece@] + split_from(s@, sep@, e + sep@.len()));
                    assert(done.push(piece@) + split_from(s@, sep@, e + sep@.len()) =~= done + (seq![piece@] + split_from(s@, sep@, e + sep@.len())));
                    done = done.push(piece@);
                }
                out.push(piece);
                i = e + sep.len();
            },
        }
    }
}

/// `str::split_once`: the text before and after the first `sep`.
pub open spec fn split_once(s: Seq<char>, sep: Seq<char>) -> Option<(Seq<char>, Seq<char>)> {
    let e = find(s, sep);
    if e < 0 {
        None
    } else {
        Some((s.subrange(0, e), s.subrange(e + sep.len(), s.len() as int)))
    }
}

pub fn split_once_on<'a>(s: &'a [char], sep: &[char]) -> (r: Option<(&'a [char], &'a [char])>)
    ensures
        match r {
            Some((a, b)) => split_once(s@, sep@) == Some((a@, b@)),
            None => split_once(s@, sep@) is None,
        },
{
    proof {
        lemma_find_from_range(s@, sep@, 0);
    }
    let n = s.len();
    match find_in(s, sep) {
        None => None,
        Some(e) => Some((slice_subrange(s, 0, e), slice_subrange(s, e + sep.len(), s.len()))),
    }
}

// ---------------------------------------------------------------------------
// Joining
// ---------------------------------------------------------------------------

/// The pieces of `l` one after another.
pub open spec fn concat(l: Seq<Seq<char>>) -> Seq<char>
    decreases l.len(),
{
    if l.len() == 0 {
        seq![]
    } else {
        concat(l.drop_last()) + l.last()
    }
}

/// The pieces one after another, as a vector.
pub fn concat_all(l: &Vec<&[char]>, Ghost(pieces): Ghost<Seq<Seq<char>>>) -> (r: Vec<char>)
    requires
        views_as(l@, pieces),
    ensures
        r@ == concat(pieces),
{
    let mut out: Vec<char> = Vec::new();
    let mut i: usize = 0;
    while i < l.len()
        invariant
            i <= l@.len(),
            views_as(l@, pieces),
            out@ == concat(pieces.take(i as int)),
        decreases l@.len() - i,
    {
        let piece = l[i];
        let mut j: usize = 0;
        let ghost before = out@;
        while j < piece.len()
            invariant
                j <= piece@.len(),
                out@ == before + piece@.subrange(0, j as int),
            decreases piece@.len() - j,
        {
            out.push(piece[j]);
            assert(piece@.subrange(0, j + 1) == piece@.subrange(0, j as int).push(piece@[j as int]));
            j += 1;
        }
        proof {
            assert(piece@.subrange(0, piece@.len() as int) == piece@);
            assert(pieces.take(i + 1).drop_last() =~= pieces.take(i as int));
            assert(pieces.take(i + 1).last() == pieces[i as int]);
        }
        i += 1;
    }
    proof {
        assert(pieces.take(l@.len() as int) =~= pieces);
    }
    out
}

/// The pieces of `l` joined with `sep` between them (`[..].join(sep)`).
pub open spec fn join(l: Seq<Seq<char>>, sep: Seq<char>) -> Seq<char>
    decreases l.len(),
{
    if l.len() == 0 {
        seq![]
    } else if l.len() == 1 {
        l[0]
    } else {
        join(l.drop_last(), sep) + sep + l.last()
    }
}

/// `[String]::join`.
pub fn join_strings(l: &Vec<String>, sep: &[char]) -> (r: String)
    ensures
        r@ == join(l@.map_values(|x: String| x@), sep@),
{
    let ghost lv = l@.map_values(|x: String| x@);
    let mut out = String::new();
    let mut i: usize = 0;
    while i < l.len()
        invariant
            i <= l@.len(),
            lv == l@.map_values(|x: String| x@),
            out@ == join(lv.take(i as int), sep@),
        decreases l@.len() - i,
    {
        let ghost before = out@;
        if i > 0 {
            push_chars(&mut out, sep);
        }
        let piece = chars_of(l[i].as_str());
        push_chars(&mut out, piece.as_slice());
        proof {
            assert(lv.take(i + 1).drop_last() =~= lv.take(i as int));
            assert(lv.take(i + 1).last() == l@[i as int]@);
            if i == 0 {
                assert(lv.take(1) =~= seq![l@[0]@]);
                assert(out@ =~= l@[0]@);
            }
        }
        i += 1;
    }
    proof {
        assert(lv.take(l@.len() as int) =~= lv);
    }
    out
}

} // verus!

verus! {

/// `char::to_ascii_lowercase`.
pub open spec fn lower_char(c: char) -> char {
    if 'A' <= c && c <= 'Z' {
        ((c as u32) + 32) as char
    } else {
        c
    }
}

/// `str::to_ascii_lowercase`.
pub open spec fn lower(s: Seq<char>) -> Seq<char> {
    s.map_values(|c: char| lower_char(c))
}

pub fn to_lower_char(c: char) -> (r: char)
    ensures
        r == lower_char(c),
{
    if 'A' <= c && c <= 'Z' {
        ((c as u8) + 32) as char
    } else {
        c
    }
}

} // verus!

verus! {

pub fn to_lower(s: &[char]) -> (r: Vec<char>)
    ensures
        r@ == lower(s@),
{
    let mut out: Vec<char> = Vec::new();
    let mut i: usize = 0;
    while i < s.len()
        invariant
            i <= s@.len(),
            out@ == lower(s@.subrange(0, i as int)),
        decreases s@.len() - i,
    {
        out.push(to_lower_char(s[i]));
        assert(lower(s@.subrange(0, i + 1)) =~= lower(s@.subrange(0, i as int)).push(lower_char(s@[i as int])));
        i += 1;
    }
    assert(s@.subrange(0, s@.len() as int) =~= s@);
    out
}

/// Each piece trimmed, and the pieces left empty by that dropped
/// (`.map(str::trim).filter(|s| !s.is_empty())`).
pub open spec fn trimmed_nonempty(pieces: Seq<Seq<char>>) -> Seq<Seq<char>>
    decreases pieces.len(),
{
    if pieces.len() == 0 {
        seq![]
    } else {
        let rest = trimmed_nonempty(pieces.drop_last());
        let t = trim(pieces.last());
        if t.len() > 0 {
            rest.push(t)
        } else {
            rest
        }
    }
}

/// Each piece trimmed (`.map(str::trim)`).
pub open spec fn trimmed_all(pieces: Seq<Seq<char>>) -> Seq<Seq<char>> {
    pieces.map_values(|p: Seq<char>| trim(p))
}

pub open spec fn strings_view(v: Seq<String>) -> Seq<Seq<char>> {
    v.map_values(|s: String| s@)
}

/// The non-empty trimmed pieces, as strings.
pub fn trimmed_strings<'a>(pieces: &Vec<&'a [char]>, Ghost(l): Ghost<Seq<Seq<char>>>) -> (r: Vec<String>)
    requires
        views_as(pieces@, l),
    ensures
        strings_view(r@) == trimmed_nonempty(l),
{
    let mut out: Vec<String> = Vec::new();
    let mut i: usize = 0;
    while i < pieces.len()
        invariant
            i <= pieces@.len(),
            views_as(pieces@, l),
            strings_view(out@) == trimmed_nonempty(l.take(i as int)),
        decreases pieces@.len() - i,
    {
        let t = trim_of(pieces[i]);
        let ghost before = out@;
        proof {
            assert(l.take(i + 1).drop_last() =~= l.take(i as int));
            assert(l.take(i + 1).last() == l[i as int]);
        }
        if t.len() > 0 {
            out.push(to_string(t));
            assert(strings_view(out@) =~= strings_view(before).push(t@));
        }
        i += 1;
    }
    assert(l.take(pieces@.len() as int) =~= l);
    out
}

/// The text before the first character from `set` (all of it if none).
pub open spec fn first_in_set(s: Seq<char>, set: Seq<char>, i: int) -> int
    decreases s.len() - i,
{
    if i < 0 || i >= s.len() {
        s.len() as int
    } else if set.contains(s[i]) {
        i
    } else {
        first_in_set(s, set, i + 1)
    }
}

pub proof fn lemma_first_in_set(s: Seq<char>, set: Seq<char>, i: int)
    requires
        0 <= i <= s.len(),
    ensures
        i <= first_in_set(s, set, i) <= s.len(),
    decreases s.len() - i,
{
    if i < s.len() && !set.contains(s[i]) {
        lemma_first_in_set(s, set, i + 1);
    }
}

pub open spec fn before_any(s: Seq<char>, set: Seq<char>) -> Seq<char> {
    s.subrange(0, first_in_set(s, set, 0))
}

pub fn before_any_of<'a>(s: &'a [char], set: &[char]) -> (r: &'a [char])
    ensures
        r@ == before_any(s@, set@),
{
    let mut i: usize = 0;
    while i < s.len()
        invariant
            i <= s@.len(),
            first_in_set(s@, set@, 0) == first_in_set(s@, set@, i as int),
        decreases s@.len() - i,
    {
        let mut j: usize = 0;
        let mut hit = false;
        while j < set.len()
            invariant
                j <= set@.len(),
                i < s@.len(),
                hit == (exists|k: int| 0 <= k < j && set@[k] == s@[i as int]),
            decreases set@.len() - j,
        {
            if set[j] == s[i] {
                hit = true;
            }
            j += 1;
        }
        proof {
            if hit {
                let k = choose|k: int| 0 <= k < j && set@[k] == s@[i as int];
                assert(set@.contains(s@[i as int]));
            } else {
                assert(!set@.contains(s@[i as int]));
            }
        }
        if hit {
            return slice_subrange(s, 0, i);
        }
        i += 1;
    }
    slice_subrange(s, 0, s.len())
}

} // verus!

verus! {

/// Appends the characters of `s` to `v`.
pub fn append_vec(v: &mut Vec<char>, s: &[char])
    ensures
        final(v)@ == old(v)@ + s@,
{
    let mut i: usize = 0;
    while i < s.len()
        invariant
            i <= s@.len(),
            v@ == old(v)@ + s@.subrange(0, i as int),
        decreases s@.len() - i,
    {
        v.push(s[i]);
        assert(s@.subrange(0, i + 1) =~= s@.subrange(0, i as int).push(s@[i as int]));
        i += 1;
    }
    assert(s@.subrange(0, s@.len() as int) =~= s@);
}

} // verus!

verus! {

/// The non-empty trimmed pieces, as slices.
pub fn trimmed_pieces<'a>(pieces: &Vec<&'a [char]>, Ghost(l): Ghost<Seq<Seq<char>>>) -> (r: Vec<&'a [char]>)
    requires
        views_as(pieces@, l),
    ensures
        views_as(r@, trimmed_nonempty(l)),
{
    let mut out: Vec<&'a [char]> = Vec::new();
    let mut i: usize = 0;
    while i < pieces.len()
        invariant
            i <= pieces@.len(),
            views_as(pieces@, l),
            views_as(out@, trimmed_nonempty(l.take(i as int))),
        decreases pieces@.len() - i,
    {
        let t = trim_of(pieces[i]);
        proof {
            assert(l.take(i + 1).drop_last() =~= l.take(i as int));
            assert(l.take(i + 1).last() == l[i as int]);
        }
        if t.len() > 0 {
            out.push(t);
        }
        i += 1;
    }
    assert(l.take(pieces@.len() as int) =~= l);
    out
}

/// Every piece trimmed, as slices.
pub fn trimmed_each<'a>(pieces: &Vec<&'a [char]>, Ghost(l): Ghost<Seq<Seq<char>>>) -> (r: Vec<&'a [char]>)
    requires
        views_as(pieces@, l),
    ensures
        views_as(r@, trimmed_all(l)),
{
    let mut out: Vec<&'a [char]> = Vec::new();
    let mut i: usize = 0;
    while i < pieces.len()
        invariant
            i <= pieces@.len(),
            views_as(pieces@, l),
            views_as(out@, trimmed_all(l.take(i as int))),
        decreases pieces@.len() - i,
    {
        let t = trim_of(pieces[i]);
        out.push(t);
        assert(trimmed_all(l.take(i + 1)) =~= trimmed_all(l.take(i as int)).push(trim(l[i as int])));
        i += 1;
    }
    assert(l.take(pieces@.len() as int) =~= l);
    out
}

} // verus!

verus! {

/// The number of bytes UTF-8 takes for `c`.
pub open spec fn utf8_width(c: char) -> nat {
    if (c as u32) < 0x80 {
        1
    } else if (c as u32) < 0x800 {
        2
    } else if (c as u32) < 0x10000 {
        3
    } else {
        4
    }
}

/// The number of bytes UTF-8 takes for `s`: the length `str::len` reports.
pub open spec fn utf8_len(s: Seq<char>) -> nat
    decreases s.len(),
{
    if s.len() == 0 {
        0
    } else {
        utf8_len(s.drop_last()) + utf8_width(s.last())
    }
}

/// Byte offset `n` of `s` falls between two characters, so slicing there is
/// allowed.
pub open spec fn is_char_boundary(s: Seq<char>, n: nat) -> bool {
    exists|k: int| 0 <= k <= s.len() && utf8_len(s.take(k)) == n
}

/// The words of `s`, and the first of them if any.
pub open spec fn first_word(s: Seq<char>) -> Option<Seq<char>> {
    if words(s).len() > 0 {
        Some(words(s)[0])
    } else {
        None
    }
}

/// The non-empty sequences of `l`, in order.
pub open spec fn nonempty_only(l: Seq<Seq<char>>) -> Seq<Seq<char>>
    decreases l.len(),
{
    if l.len() == 0 {
        seq![]
    } else if l.last().len() > 0 {
        nonempty_only(l.drop_last()).push(l.last())
    } else {
        nonempty_only(l.drop_last())
    }
}

} // verus!

verus! {

/// What `str::to_lowercase` gives for `s`: Unicode's lower-case mapping,
/// which can change a string's length.
pub uninterp spec fn unicode_lower(s: Seq<char>) -> Seq<char>;

/// An ASCII capital letter's small letter; any other character unchanged.
pub open spec fn ascii_lower(c: char) -> char {
    if 'A' <= c && c <= 'Z' { ((c as u32) + 32) as char } else { c }
}

/// Whether every character of `s` is ASCII.
pub open spec fn all_ascii(s: Seq<char>) -> bool {
    forall|i: int| 0 <= i < s.len() ==> (#[trigger] s[i] as u32) < 128
}

/// `str::to_lowercase`. Its result is named, not stated: Unicode's case
/// tables decide it, and nothing here restates them. The contract adds only
/// what the standard library documents for ASCII text: there the result is
/// the ASCII mapping, capital letters to small ones and nothing else changed.
#[verifier::external_body]
pub(crate) fn to_lowercase(s: &str) -> (r: String)
    ensures
        r@ == unicode_lower(s@),
        all_ascii(s@) ==> r@ == s@.map_values(|c: char| ascii_lower(c)),
{
    s.to_lowercase()
}

/// Lexicographic order on characters, the order `str`'s comparison gives.
pub open spec fn text_le(a: Seq<char>, b: Seq<char>) -> bool
    decreases a.len(),
{
    if a.len() == 0 {
        true
    } else if b.len() == 0 {
        false
    } else if a[0] != b[0] {
        a[0] < b[0]
    } else {
        text_le(a.skip(1), b.skip(1))
    }
}

pub proof fn lemma_text_le_total(a: Seq<char>, b: Seq<char>)
    ensures
        text_le(a, b) || text_le(b, a),
    decreases a.len(),
{
    if a.len() > 0 && b.len() > 0 && a[0] == b[0] {
        lemma_text_le_total(a.skip(1), b.skip(1));
    }
}

pub proof fn lemma_text_le_trans(a: Seq<char>, b: Seq<char>, c: Seq<char>)
    requires
        text_le(a, b),
        text_le(b, c),
    ensures
        text_le(a, c),
    decreases a.len(),
{
    if a.len() > 0 && b.len() > 0 && c.len() > 0 && a[0] == b[0] && b[0] == c[0] {
        lemma_text_le_trans(a.skip(1), b.skip(1), c.skip(1));
    }
}

/// Whether `a` comes no later than `b` (`a <= b` on strings).
pub fn text_le_exec(a: &[char], b: &[char]) -> (r: bool)
    ensures
        r == text_le(a@, b@),
{
    let mut i: usize = 0;
    assert(a@.skip(0) =~= a@);
    assert(b@.skip(0) =~= b@);
    while i < a.len() && i < b.len()
        invariant
            i <= a@.len(),
            i <= b@.len(),
            a@.subrange(0, i as int) == b@.subrange(0, i as int),
            text_le(a@, b@) == text_le(a@.skip(i as int), b@.skip(i as int)),
        decreases a@.len() - i,
    {
        if a[i] != b[i] {
            assert(a@.skip(i as int)[0] == a@[i as int]);
            assert(b@.skip(i as int)[0] == b@[i as int]);
            return a[i] < b[i];
        }
        assert(a@.skip(i as int).skip(1) =~= a@.skip(i + 1));
        assert(b@.skip(i as int).skip(1) =~= b@.skip(i + 1));
        assert(a@.subrange(0, i + 1) =~= a@.subrange(0, i as int).push(a@[i as int]));
        assert(b@.subrange(0, i + 1) =~= b@.subrange(0, i as int).push(b@[i as int]));
        i += 1;
    }
    i == a.len()
}

// ---------------------------------------------------------------------------
// Decimal numerals
// ---------------------------------------------------------------------------

pub open spec fn digit_char(d: int) -> char {
    if d == 0 { '0' } else if d == 1 { '1' } else if d == 2 { '2' } else if d == 3 { '3' }
    else if d == 4 { '4' } else if d == 5 { '5' } else if d == 6 { '6' } else if d == 7 { '7' }
    else if d == 8 { '8' } else { '9' }
}

pub open spec fn digit_value(c: char) -> int {
    if c == '0' { 0 } else if c == '1' { 1 } else if c == '2' { 2 } else if c == '3' { 3 }
    else if c == '4' { 4 } else if c == '5' { 5 } else if c == '6' { 6 } else if c == '7' { 7 }
    else if c == '8' { 8 } else { 9 }
}

/// `n` written in decimal, without leading zeros.
pub open spec fn decimal_of(n: nat) -> Seq<char>
    decreases n,
{
    if n < 10 {
        seq![digit_char(n as int)]
    } else {
        decimal_of(n / 10).push(digit_char((n % 10) as int))
    }
}

/// The number a string of decimal digits stands for.
pub open spec fn decimal_value(s: Seq<char>) -> int
    decreases s.len(),
{
    if s.len() == 0 {
        0
    } else {
        decimal_value(s.drop_last()) * 10 + digit_value(s.last())
    }
}

pub proof fn lemma_decimal_value(n: nat)
    ensures
        decimal_value(decimal_of(n)) == n,
    decreases n,
{
    if n < 10 {
        assert(seq![digit_char(n as int)].drop_last() =~= Seq::<char>::empty());
        assert(digit_value(digit_char(n as int)) == n);
        assert(decimal_value(Seq::<char>::empty()) == 0);
    } else {
        lemma_decimal_value(n / 10);
        assert(decimal_of(n).drop_last() =~= decimal_of(n / 10));
        let d = (n % 10) as int;
        assert(digit_value(digit_char(d)) == d);
        assert((n / 10) * 10 + n % 10 == n);
        assert(decimal_of(n).last() == digit_char(d));
    }
}

/// Distinct numbers are written differently.
pub proof fn lemma_decimal_injective(a: nat, b: nat)
    ensures
        decimal_of(a) == decimal_of(b) ==> a == b,
{
    lemma_decimal_value(a);
    lemma_decimal_value(b);
}

fn digit(d: usize) -> (r: char)
    requires
        d < 10,
    ensures
        r == digit_char(d as int),
{
    if d == 0 { '0' } else if d == 1 { '1' } else if d == 2 { '2' } else if d == 3 { '3' }
    else if d == 4 { '4' } else if d == 5 { '5' } else if d == 6 { '6' } else if d == 7 { '7' }
    else if d == 8 { '8' } else { '9' }
}

/// `n` in decimal (`usize::to_string`).
pub fn decimal(n: usize) -> (r: String)
    ensures
        r@ == decimal_of(n as nat),
    decreases n,
{
    if n < 10 {
        let c = digit(n);
        let r = to_string(&[c]);
        assert([c]@ =~= seq![c]);
        r
    } else {
        let mut s = decimal(n / 10);
        push_char(&mut s, digit(n % 10));
        s
    }
}

/// `std::str::from_utf8`: the text `bytes` encode, for bytes that are valid
/// UTF-8 (no overlong form, no surrogate), and nothing for any others.
#[verifier::external_body]
pub(crate) fn utf8_text(bytes: &[u8]) -> (r: Option<String>)
    ensures
        r is Some <==> valid_utf8(bytes@),
        r matches Some(s) ==> s@ == decode_utf8(bytes@),
{
    std::str::from_utf8(bytes).ok().map(|s| s.to_string())
}

} // verus!
