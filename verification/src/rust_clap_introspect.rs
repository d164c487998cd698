//! Recovering the clap version a Rust binary was built with. Rust binaries
//! carry no dependency manifest, but clap leaves cargo registry source paths
//! (`.../clap_builder-4.6.0/src/builder/command.rs`) in read-only data; they
//! name clap and its exact version and survive symbol stripping.

use vstd::prelude::*;
use crate::text::push_char;

verus! {

pub open spec fn version_byte(b: u8) -> bool {
    (48 <= b && b <= 57) || b == 46
}

/// Where the run of digits and dots starting at `j` ends.
pub open spec fn run_end(data: Seq<u8>, j: int) -> int
    decreases data.len() - j,
{
    if 0 <= j < data.len() && version_byte(data[j]) {
        run_end(data, j + 1)
    } else {
        j
    }
}

pub open spec fn needle_at(data: Seq<u8>, needle: Seq<u8>, i: int) -> bool {
    0 <= i && i + needle.len() <= data.len() && data.subrange(i, i + needle.len()) == needle
}

/// The version following the needle at `i`: the run of digits and dots
/// after it, when that run starts with a digit and holds a dot.
pub open spec fn version_at(data: Seq<u8>, needle: Seq<u8>, i: int) -> Option<Seq<u8>> {
    if needle_at(data, needle, i) {
        let s = i + needle.len();
        let ver = data.subrange(s, run_end(data, s));
        if ver.len() > 0 && 48 <= ver[0] <= 57 && ver.contains(46u8) {
            Some(ver)
        } else {
            None
        }
    } else {
        None
    }
}

/// The first version found scanning from `i` on.
pub open spec fn version_from(data: Seq<u8>, needle: Seq<u8>, i: int) -> Option<Seq<u8>>
    decreases data.len() + 1 - i,
{
    if i < 0 || i + needle.len() > data.len() {
        None
    } else {
        match version_at(data, needle, i) {
            Some(v) => Some(v),
            None => version_from(data, needle, i + 1),
        }
    }
}

pub open spec fn ascii_text(v: Seq<u8>) -> Seq<char> {
    v.map_values(|b: u8| b as char)
}

proof fn lemma_run_end(data: Seq<u8>, j: int)
    requires
        0 <= j <= data.len(),
    ensures
        j <= run_end(data, j) <= data.len(),
        forall|k: int| j <= k < run_end(data, j) ==> version_byte(#[trigger] data[k]),
    decreases data.len() - j,
{
    if j < data.len() && version_byte(data[j]) {
        lemma_run_end(data, j + 1);
    }
}

/// Scan `data` for `<needle><version>` and return the version: the run of
/// digits and dots after the needle, which must start with a digit and hold
/// at least one dot.
pub fn find_crate_version(data: &[u8], needle: &[u8]) -> (r: Option<String>)
    ensures
        match r {
            Some(s) => version_from(data@, needle@, 0) matches Some(v) && s@ == ascii_text(v),
            None => version_from(data@, needle@, 0) is None,
        },
{
    let n = data.len();
    let m = needle.len();
    let mut i: usize = 0;
    while i <= n && m <= n - i
        invariant
            n == data@.len(),
            m == needle@.len(),
            version_from(data@, needle@, 0) == version_from(data@, needle@, i as int),
        decreases n + 1 - i,
    {
        let mut matched = true;
        let mut k: usize = 0;
        assert(data@.subrange(i as int, i as int) =~= needle@.subrange(0, 0));
        while k < m
            invariant
                i + m <= n,
                m == needle@.len(),
                n == data@.len(),
                k <= m,
                matched == (data@.subrange(i as int, i + k) == needle@.subrange(0, k as int)),
            decreases m - k,
        {
            if data[i + k] != needle[k] {
                if matched {
                    assert(data@.subrange(i as int, i + k + 1)[k as int] != needle@.subrange(0, k + 1)[k as int]);
                }
                matched = false;
            } else if matched {
                assert(data@.subrange(i as int, i + k + 1) =~= needle@.subrange(0, k + 1));
            }
            if !matched {
                proof {
                    if data@.subrange(i as int, i + k + 1) == needle@.subrange(0, k + 1) {
                        assert(data@.subrange(i as int, i + k) =~= data@.subrange(i as int, i + k + 1).subrange(0, k as int));
                        assert(needle@.subrange(0, k as int) =~= needle@.subrange(0, k + 1).subrange(0, k as int));
                        assert(data@.subrange(i as int, i + k + 1)[k as int] == data@[i + k]);
                        assert(needle@.subrange(0, k + 1)[k as int] == needle@[k as int]);
                    }
                }
            }
            k += 1;
        }
        assert(needle@.subrange(0, m as int) =~= needle@);
        if matched {
            let start = i + m;
            let mut end = start;
            proof { lemma_run_end(data@, start as int); }
            while end < n && ((48 <= data[end] && data[end] <= 57) || data[end] == 46)
                invariant
                    start <= end <= n,
                    n == data@.len(),
                    run_end(data@, start as int) == run_end(data@, end as int),
                decreases n - end,
            {
                end += 1;
            }
            let ghost ver = data@.subrange(start as int, end as int);
            let mut has_dot = false;
            let mut j: usize = start;
            while j < end
                invariant
                    start <= j <= end <= n,
                    n == data@.len(),
                    has_dot == data@.subrange(start as int, j as int).contains(46u8),
                decreases end - j,
            {
                proof {
                    let a = data@.subrange(start as int, j as int);
                    let b = data@.subrange(start as int, j + 1);
                    assert(b =~= a.push(data@[j as int]));
                    if b.contains(46u8) && !a.contains(46u8) {
                        let w = choose|x: int| 0 <= x < b.len() && b[x] == 46u8;
                        if w < a.len() {
                            assert(a[w] == 46u8);
                        }
                    }
                    if a.contains(46u8) {
                        let w = choose|x: int| 0 <= x < a.len() && a[x] == 46u8;
                        assert(b[w] == 46u8);
                    }
                    if data@[j as int] == 46u8 {
                        assert(b[b.len() - 1] == 46u8);
                    }
                }
                if data[j] == 46 {
                    has_dot = true;
                }
                j += 1;
            }
            if start < end && 48 <= data[start] && data[start] <= 57 && has_dot {
                let mut out = String::new();
                let mut q: usize = start;
                while q < end
                    invariant
                        start <= q <= end <= n,
                        n == data@.len(),
                        out@ == ascii_text(data@.subrange(start as int, q as int)),
                    decreases end - q,
                {
                    push_char(&mut out, data[q] as char);
                    assert(ascii_text(data@.subrange(start as int, q + 1)) =~= ascii_text(
                        data@.subrange(start as int, q as int),
                    ).push(data@[q as int] as char));
                    q += 1;
                }
                assert(version_at(data@, needle@, i as int) == Some(ver));
                return Some(out);
            }
            assert(version_at(data@, needle@, i as int) is None);
        } else {
            assert(!needle_at(data@, needle@, i as int));
        }
        assert(version_from(data@, needle@, i as int) == version_from(data@, needle@, i + 1));
        if i == n {
            return None;
        }
        i += 1;
    }
    None
}

/// The marker clap's builder crate leaves in a Rust binary: its registry
/// path, `clap_builder-<version>`.
pub open spec fn clap_marker() -> Seq<u8> {
    seq![0x63u8, 0x6cu8, 0x61u8, 0x70u8, 0x5fu8, 0x62u8, 0x75u8, 0x69u8, 0x6cu8, 0x64u8, 0x65u8, 0x72u8, 0x2du8]
}

/// The clap version a program's bytes were built with, if they carry clap's
/// marker.
pub fn clap_version(data: &[u8]) -> (r: Option<String>)
    ensures
        match r {
            Some(s) => version_from(data@, clap_marker(), 0) matches Some(v) && s@ == ascii_text(v),
            None => version_from(data@, clap_marker(), 0) is None,
        },
{
    let needle: [u8; 13] = [0x63, 0x6c, 0x61, 0x70, 0x5f, 0x62, 0x75, 0x69, 0x6c, 0x64, 0x65, 0x72, 0x2d];
    assert(needle@ =~= clap_marker());
    find_crate_version(data, &needle)
}

} // verus!
