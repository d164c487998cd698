//! What a `--help` run is taken to have said. Some tools print their whole
//! help and then exit with a failure status; that help is kept. A run that
//! printed nothing is a failure, reported with what it wrote to stderr, its
//! terminal colour codes removed so they never reach the screen as raw
//! escapes.

use vstd::prelude::*;
use crate::text::{chars_of, push_char, trim, trim_of};

verus! {

pub open spec fn escape_char() -> char {
    '\u{1b}'
}

/// A character that ends a control sequence.
pub open spec fn is_final(c: char) -> bool {
    '@' <= c && c <= '~'
}

/// Where the control sequence whose body starts at `i` ends: just past its
/// final character, or at the end of `s` when it has none.
pub open spec fn sequence_end(s: Seq<char>, i: int) -> int
    decreases s.len() - i,
{
    if i < 0 || i >= s.len() {
        s.len() as int
    } else if is_final(s[i]) {
        i + 1
    } else {
        sequence_end(s, i + 1)
    }
}

/// A control sequence ends no earlier than its body starts, and within the
/// text.
pub proof fn lemma_sequence_end_bounds(s: Seq<char>, i: int)
    requires
        0 <= i,
    ensures
        i <= sequence_end(s, i) <= s.len() || (i > s.len() && sequence_end(s, i) == s.len()),
    decreases s.len() - i,
{
    if i < s.len() && !is_final(s[i]) {
        lemma_sequence_end_bounds(s, i + 1);
    }
}

/// `s` with every control sequence introduced by `ESC [` removed.
pub open spec fn without_escapes(s: Seq<char>) -> Seq<char>
    decreases s.len(),
{
    if s.len() == 0 {
        seq![]
    } else if s.len() > 1 && s[0] == escape_char() && s[1] == '[' {
        proof {
            lemma_sequence_end_bounds(s, 2);
        }
        without_escapes(s.skip(sequence_end(s, 2)))
    } else {
        seq![s[0]] + without_escapes(s.skip(1))
    }
}

proof fn lemma_sequence_end_shift(s: Seq<char>, i: int, k: int)
    requires
        0 <= i <= s.len(),
        0 <= k,
    ensures
        sequence_end(s.skip(i), k) == sequence_end(s, i + k) - i,
    decreases s.len() - i - k,
{
    if i + k < s.len() && !is_final(s[i + k]) {
        lemma_sequence_end_shift(s, i, k + 1);
    }
}

/// Remove the terminal control sequences from `text`.
pub fn strip_escapes(text: &str) -> (r: String)
    ensures
        r@ == without_escapes(text@),
{
    let s = chars_of(text);
    let ghost sv = s@;
    let mut out = String::new();
    let mut i: usize = 0;
    assert(sv.skip(0) =~= sv);
    while i < s.len()
        invariant
            i <= sv.len(),
            sv == s@,
            sv == text@,
            without_escapes(sv) == out@ + without_escapes(sv.skip(i as int)),
        decreases sv.len() - i,
    {
        let ghost rest = sv.skip(i as int);
        if i + 1 < s.len() && s[i] == '\u{1b}' && s[i + 1] == '[' {
            let mut j: usize = i + 2;
            while j < s.len() && !('@' <= s[j] && s[j] <= '~')
                invariant
                    i + 2 <= j <= sv.len(),
                    sv == s@,
                    sequence_end(sv, i + 2) == sequence_end(sv, j as int),
                decreases sv.len() - j,
            {
                j += 1;
            }
            let end: usize = if j < s.len() { j + 1 } else { j };
            proof {
                assert(sequence_end(sv, j as int) == end);
                lemma_sequence_end_shift(sv, i as int, 2);
                assert(rest[0] == escape_char() && rest[1] == '[');
                assert(rest.skip(sequence_end(rest, 2)) =~= sv.skip(end as int));
            }
            i = end;
        } else {
            proof {
                assert(rest[0] == sv[i as int]);
                assert(rest.skip(1) =~= sv.skip(i + 1));
            }
            let ghost before = out@;
            push_char(&mut out, s[i]);
            assert(out@ + without_escapes(sv.skip(i + 1)) =~= before + (seq![sv[i as int]] + without_escapes(sv.skip(i + 1))));
            i += 1;
        }
    }
    assert(sv.skip(i as int) =~= Seq::<char>::empty());
    assert(out@ + Seq::<char>::empty() =~= out@);
    out
}

pub open spec fn help_failed_prefix() -> Seq<char> {
    "help failed: "@
}

/// What a `--help` run says: its output, when it succeeded or printed
/// something; else the failure, with what it wrote to stderr.
pub open spec fn help_result(success: bool, out: Seq<char>, err: Seq<char>) -> Result<Seq<char>, Seq<char>> {
    if success || trim(out).len() > 0 {
        Ok(out)
    } else {
        Err(help_failed_prefix() + without_escapes(err))
    }
}

/// Decide what a finished `--help` run gave: `stdout` as the help when the run
/// succeeded or printed any, else the failure with `stderr` cleaned up.
pub fn help_outcome(success: bool, stdout: String, stderr: &str) -> (r: Result<String, String>)
    ensures
        match r {
            Ok(h) => help_result(success, stdout@, stderr@) == Ok::<Seq<char>, Seq<char>>(h@),
            Err(e) => help_result(success, stdout@, stderr@) == Err::<Seq<char>, Seq<char>>(e@),
        },
{
    let printed = {
        let cs = chars_of(stdout.as_str());
        trim_of(cs.as_slice()).len() > 0
    };
    if success || printed {
        Ok(stdout)
    } else {
        let mut msg = crate::text::to_string(chars_of("help failed: ").as_slice());
        let cleaned = strip_escapes(stderr);
        crate::text::push_str(&mut msg, cleaned.as_str());
        proof {
            reveal_strlit("help failed: ");
        }
        Err(msg)
    }
}

} // verus!
