//! Rendering a built command's argv as one re-runnable shell line. Commands
//! run from argv directly, so the quoting only shapes what is shown and
//! copied; it uses POSIX single-quote escaping, which bash, zsh and fish read.

use vstd::prelude::*;
use crate::text::{is_ascii_alnum, is_ascii_alphanumeric, push_char, chars_of, join};

verus! {

/// Characters that never need quoting in a POSIX shell.
pub open spec fn safe_char(c: char) -> bool {
    is_ascii_alnum(c) || c == '-' || c == '_' || c == '.' || c == '/' || c == ':' || c == '='
        || c == '@' || c == '%' || c == '+' || c == ','
}

pub open spec fn all_safe(t: Seq<char>) -> bool {
    forall|i: int| 0 <= i < t.len() ==> safe_char(#[trigger] t[i])
}

/// A token's characters inside single quotes: a literal `'` is closed,
/// escaped and reopened (`'\''`).
pub open spec fn escaped(t: Seq<char>) -> Seq<char>
    decreases t.len(),
{
    if t.len() == 0 {
        seq![]
    } else if t.last() == '\'' {
        escaped(t.drop_last()) + seq!['\'', '\\', '\'', '\'']
    } else {
        escaped(t.drop_last()).push(t.last())
    }
}

/// One token as the shell should see it.
pub open spec fn quoted_token(t: Seq<char>) -> Seq<char> {
    if t.len() > 0 && all_safe(t) {
        t
    } else {
        seq!['\''] + escaped(t) + seq!['\'']
    }
}

/// The whole line: each token quoted, joined by single spaces.
pub open spec fn quoted_line(tokens: Seq<Seq<char>>) -> Seq<char> {
    join(tokens.map_values(|t: Seq<char>| quoted_token(t)), seq![' '])
}

fn is_safe(c: char) -> (r: bool)
    ensures
        r == safe_char(c),
{
    is_ascii_alphanumeric(c) || c == '-' || c == '_' || c == '.' || c == '/' || c == ':' || c
        == '=' || c == '@' || c == '%' || c == '+' || c == ','
}

fn quote_token(token: &str) -> (r: String)
    ensures
        r@ == quoted_token(token@),
{
    let t = chars_of(token);
    let mut safe = t.len() > 0;
    let mut i: usize = 0;
    while i < t.len()
        invariant
            i <= t@.len(),
            safe == (t@.len() > 0 && forall|k: int| 0 <= k < i ==> safe_char(#[trigger] t@[k])),
        decreases t@.len() - i,
    {
        if !is_safe(t[i]) {
            safe = false;
        }
        i += 1;
    }
    if safe {
        let mut out = String::new();
        let mut j: usize = 0;
        while j < t.len()
            invariant
                j <= t@.len(),
                out@ == t@.subrange(0, j as int),
            decreases t@.len() - j,
        {
            push_char(&mut out, t[j]);
            assert(t@.subrange(0, j + 1) =~= t@.subrange(0, j as int).push(t@[j as int]));
            j += 1;
        }
        assert(t@.subrange(0, t@.len() as int) =~= t@);
        return out;
    }
    let mut out = String::new();
    push_char(&mut out, '\'');
    let mut j: usize = 0;
    while j < t.len()
        invariant
            j <= t@.len(),
            out@ == seq!['\''] + escaped(t@.subrange(0, j as int)),
        decreases t@.len() - j,
    {
        let c = t[j];
        let ghost before = out@;
        if c == '\'' {
            push_char(&mut out, '\'');
            push_char(&mut out, '\\');
            push_char(&mut out, '\'');
            push_char(&mut out, '\'');
        } else {
            push_char(&mut out, c);
        }
        proof {
            let p = t@.subrange(0, j + 1);
            assert(p.drop_last() =~= t@.subrange(0, j as int));
            assert(p.last() == c);
            assert(out@ =~= seq!['\''] + escaped(p));
        }
        j += 1;
    }
    push_char(&mut out, '\'');
    assert(t@.subrange(0, t@.len() as int) =~= t@);
    out
}

/// Join `tokens` (program first, then arguments) into one shell-safe line.
pub fn quote_command(tokens: &[String]) -> (r: String)
    ensures
        r@ == quoted_line(tokens@.map_values(|s: String| s@)),
        shell_words(r@) == tokens@.map_values(|s: String| s@),
{
    let ghost tv = tokens@.map_values(|s: String| s@);
    let ghost qv = tv.map_values(|t: Seq<char>| quoted_token(t));
    let mut out = String::new();
    let mut i: usize = 0;
    while i < tokens.len()
        invariant
            i <= tokens@.len(),
            tv == tokens@.map_values(|s: String| s@),
            qv == tv.map_values(|t: Seq<char>| quoted_token(t)),
            out@ == join(qv.take(i as int), seq![' ']),
        decreases tokens@.len() - i,
    {
        let q = quote_token(tokens[i].as_str());
        let qc = chars_of(q.as_str());
        if i > 0 {
            push_char(&mut out, ' ');
        }
        let mut j: usize = 0;
        let ghost before = out@;
        while j < qc.len()
            invariant
                j <= qc@.len(),
                out@ == before + qc@.subrange(0, j as int),
            decreases qc@.len() - j,
        {
            push_char(&mut out, qc[j]);
            assert(qc@.subrange(0, j + 1) =~= qc@.subrange(0, j as int).push(qc@[j as int]));
            j += 1;
        }
        proof {
            assert(qc@.subrange(0, qc@.len() as int) =~= qc@);
            assert(qv.take(i + 1).drop_last() =~= qv.take(i as int));
            assert(qv.take(i + 1).last() == quoted_token(tokens@[i as int]@));
            if i == 0 {
                assert(qv.take(1) =~= seq![qv[0]]);
                assert(out@ =~= qv[0]);
            } else {
                assert(out@ =~= join(qv.take(i as int), seq![' ']) + seq![' '] + qv[i as int]);
            }
        }
        i += 1;
    }
    assert(qv.take(tokens@.len() as int) =~= qv);
    proof {
        lemma_quoted_line_reads_back(tokens@.map_values(|s: String| s@));
    }
    out
}

/// How a POSIX shell reads one word: outside quotes a backslash takes the
/// next character literally and `'` opens a quoted run; inside, every
/// character is literal until the closing `'`.
pub open spec fn shell_read(s: Seq<char>, in_quotes: bool) -> Seq<char>
    decreases s.len(),
{
    if s.len() == 0 {
        seq![]
    } else if in_quotes {
        if s[0] == '\'' {
            shell_read(s.skip(1), false)
        } else {
            seq![s[0]] + shell_read(s.skip(1), true)
        }
    } else if s[0] == '\'' {
        shell_read(s.skip(1), true)
    } else if s[0] == '\\' && s.len() >= 2 {
        seq![s[1]] + shell_read(s.skip(2), false)
    } else {
        seq![s[0]] + shell_read(s.skip(1), false)
    }
}

proof fn lemma_escaped_append(a: Seq<char>, b: Seq<char>)
    ensures
        escaped(a + b) == escaped(a) + escaped(b),
    decreases b.len(),
{
    if b.len() == 0 {
        assert(a + b =~= a);
        assert(escaped(a) + escaped(b) =~= escaped(a));
    } else {
        lemma_escaped_append(a, b.drop_last());
        assert((a + b).drop_last() =~= a + b.drop_last());
        assert((a + b).last() == b.last());
    }
}

proof fn lemma_read_escaped(t: Seq<char>, rest: Seq<char>)
    ensures
        shell_read(escaped(t) + rest, true) == t + shell_read(rest, true),
    decreases t.len(),
{
    if t.len() == 0 {
        assert(escaped(t) + rest =~= rest);
        assert(t + shell_read(rest, true) =~= shell_read(rest, true));
    } else {
        let head = seq![t[0]];
        let tail = t.skip(1);
        assert(t =~= head + tail);
        lemma_escaped_append(head, tail);
        assert(head.drop_last() =~= Seq::<char>::empty());
        assert(head.last() == t[0]);
        assert(escaped(Seq::<char>::empty()) == Seq::<char>::empty());
        if t[0] == '\'' {
            assert(escaped(head) =~= seq!['\'', '\\', '\'', '\'']);
        } else {
            assert(escaped(head) =~= seq![t[0]]);
        }
        lemma_read_escaped(tail, rest);
        let x = escaped(tail) + rest;
        if t[0] == '\'' {
            let e = seq!['\'', '\\', '\'', '\''] + x;
            assert(escaped(t) + rest =~= e);
            assert(e.skip(1) =~= seq!['\\', '\'', '\''] + x);
            assert(e.skip(1).skip(2) =~= seq!['\''] + x);
            assert((seq!['\''] + x).skip(1) =~= x);
            assert(shell_read(e.skip(1), false) == seq!['\''] + shell_read(e.skip(1).skip(2), false));
        } else {
            let e = seq![t[0]] + x;
            assert(escaped(t) + rest =~= e);
            assert(e.skip(1) =~= x);
        }
        assert(t + shell_read(rest, true) =~= head + (tail + shell_read(rest, true)));
    }
}

proof fn lemma_read_safe(t: Seq<char>)
    requires
        all_safe(t),
    ensures
        shell_read(t, false) == t,
    decreases t.len(),
{
    if t.len() > 0 {
        assert(safe_char(t[0]));
        assert forall|i: int| 0 <= i < t.skip(1).len() implies safe_char(#[trigger] t.skip(1)[i]) by {
            assert(t.skip(1)[i] == t[i + 1]);
        }
        lemma_read_safe(t.skip(1));
        assert(t =~= seq![t[0]] + t.skip(1));
    }
}

/// A quoted token reads back, in a POSIX shell, as exactly the token.
pub proof fn lemma_quoted_token_reads_back(t: Seq<char>)
    ensures
        shell_read(quoted_token(t), false) == t,
{
    if t.len() > 0 && all_safe(t) {
        lemma_read_safe(t);
    } else {
        let q = seq!['\''] + escaped(t) + seq!['\''];
        assert(q.skip(1) =~= escaped(t) + seq!['\'']);
        lemma_read_escaped(t, seq!['\'']);
        assert(seq!['\''].skip(1) =~= Seq::<char>::empty());
        assert(shell_read(seq!['\''].skip(1), false) == Seq::<char>::empty());
        assert(t + shell_read(seq!['\''], true) =~= t);
    }
}

} // verus!

verus! {

/// How a POSIX shell cuts a line into raw words at unquoted spaces; `cur`
/// is the raw text of the word being read. A space inside quotes, or after
/// a backslash, stays in its word.
pub open spec fn raw_words(s: Seq<char>, in_quotes: bool, cur: Seq<char>) -> Seq<Seq<char>>
    decreases s.len(),
{
    if s.len() == 0 {
        seq![cur]
    } else if in_quotes {
        raw_words(s.skip(1), s[0] != '\'', cur.push(s[0]))
    } else if s[0] == ' ' {
        seq![cur] + raw_words(s.skip(1), false, seq![])
    } else if s[0] == '\'' {
        raw_words(s.skip(1), true, cur.push(s[0]))
    } else if s[0] == '\\' && s.len() >= 2 {
        raw_words(s.skip(2), false, cur.push(s[0]).push(s[1]))
    } else {
        raw_words(s.skip(1), false, cur.push(s[0]))
    }
}

/// The words a POSIX shell reads from a line whose words are separated by
/// single spaces: none from an empty line.
pub open spec fn shell_words(line: Seq<char>) -> Seq<Seq<char>> {
    if line.len() == 0 {
        seq![]
    } else {
        raw_words(line, false, seq![]).map_values(|w: Seq<char>| shell_read(w, false))
    }
}

proof fn lemma_scan_safe(t: Seq<char>, rest: Seq<char>, cur: Seq<char>)
    requires
        all_safe(t),
    ensures
        raw_words(t + rest, false, cur) == raw_words(rest, false, cur + t),
    decreases t.len(),
{
    if t.len() == 0 {
        assert(t + rest =~= rest);
        assert(cur + t =~= cur);
    } else {
        assert(safe_char(t[0]));
        assert((t + rest)[0] == t[0]);
        assert((t + rest).skip(1) =~= t.skip(1) + rest);
        assert forall|i: int| 0 <= i < t.skip(1).len() implies safe_char(#[trigger] t.skip(1)[i]) by {
            assert(t.skip(1)[i] == t[i + 1]);
        }
        lemma_scan_safe(t.skip(1), rest, cur.push(t[0]));
        assert(cur.push(t[0]) + t.skip(1) =~= cur + t);
    }
}

proof fn lemma_scan_escaped(t: Seq<char>, rest: Seq<char>, cur: Seq<char>)
    ensures
        raw_words(escaped(t) + rest, true, cur) == raw_words(rest, true, cur + escaped(t)),
    decreases t.len(),
{
    if t.len() == 0 {
        assert(escaped(t) + rest =~= rest);
        assert(cur + escaped(t) =~= cur);
    } else {
        let head = seq![t[0]];
        let tail = t.skip(1);
        assert(t =~= head + tail);
        lemma_escaped_append(head, tail);
        assert(head.drop_last() =~= Seq::<char>::empty());
        assert(head.last() == t[0]);
        assert(escaped(Seq::<char>::empty()) == Seq::<char>::empty());
        let x = escaped(tail) + rest;
        if t[0] == '\'' {
            let h = seq!['\'', '\\', '\'', '\''];
            assert(escaped(head) =~= h);
            let e = h + x;
            assert(escaped(t) + rest =~= e);
            assert(e.skip(1) =~= seq!['\\', '\'', '\''] + x);
            assert(e.skip(1).skip(2) =~= seq!['\''] + x);
            assert((seq!['\''] + x).skip(1) =~= x);
            lemma_scan_escaped(tail, rest, cur + h);
            assert(e[0] == '\'');
            assert(raw_words(e, true, cur) == raw_words(e.skip(1), false, cur.push('\'')));
            assert(e.skip(1)[0] == '\\' && e.skip(1).len() >= 2 && e.skip(1)[1] == '\'');
            assert(raw_words(e.skip(1), false, cur.push('\'')) == raw_words(e.skip(1).skip(2), false,
                cur.push('\'').push('\\').push('\'')));
            assert((seq!['\''] + x)[0] == '\'');
            assert(raw_words(seq!['\''] + x, false, cur.push('\'').push('\\').push('\'')) == raw_words(x, true,
                cur.push('\'').push('\\').push('\'').push('\'')));
            assert(cur.push('\'').push('\\').push('\'').push('\'') =~= cur + h);
            assert(cur + h + escaped(tail) =~= cur + escaped(t));
        } else {
            assert(escaped(head) =~= seq![t[0]]);
            let e = seq![t[0]] + x;
            assert(escaped(t) + rest =~= e);
            assert(e.skip(1) =~= x);
            lemma_scan_escaped(tail, rest, cur.push(t[0]));
            assert(e[0] == t[0]);
            assert(raw_words(e, true, cur) == raw_words(e.skip(1), true, cur.push(t[0])));
            assert(cur.push(t[0]) + escaped(tail) =~= cur + escaped(t));
        }
    }
}

proof fn lemma_scan_token(t: Seq<char>, rest: Seq<char>, cur: Seq<char>)
    ensures
        raw_words(quoted_token(t) + rest, false, cur) == raw_words(rest, false, cur + quoted_token(t)),
{
    if t.len() > 0 && all_safe(t) {
        lemma_scan_safe(t, rest, cur);
    } else {
        let q = quoted_token(t);
        let x = seq!['\''] + rest;
        assert(q + rest =~= seq!['\''] + (escaped(t) + x));
        assert((q + rest).skip(1) =~= escaped(t) + x);
        assert((q + rest)[0] == '\'');
        assert(raw_words(q + rest, false, cur) == raw_words((q + rest).skip(1), true, cur.push('\'')));
        lemma_scan_escaped(t, x, cur.push('\''));
        assert(x[0] == '\'');
        assert(raw_words(x, true, cur.push('\'') + escaped(t)) == raw_words(x.skip(1), false,
            (cur.push('\'') + escaped(t)).push('\'')));
        assert(x.skip(1) =~= rest);
        assert((cur.push('\'') + escaped(t)).push('\'') =~= cur + q);
    }
}

proof fn lemma_join_front(l: Seq<Seq<char>>, sep: Seq<char>)
    requires
        l.len() >= 2,
    ensures
        join(l, sep) == l[0] + sep + join(l.skip(1), sep),
    decreases l.len(),
{
    if l.len() == 2 {
        assert(l.drop_last() =~= seq![l[0]]);
        assert(join(l.drop_last(), sep) == l[0]);
        assert(l.skip(1) =~= seq![l[1]]);
        assert(join(l.skip(1), sep) == l[1]);
        assert(join(l, sep) == join(l.drop_last(), sep) + sep + l.last());
    } else {
        lemma_join_front(l.drop_last(), sep);
        assert(l.drop_last().skip(1) =~= l.skip(1).drop_last());
        assert(l.skip(1).last() == l.last());
        assert(l.drop_last()[0] == l[0]);
        assert(join(l, sep) == join(l.drop_last(), sep) + sep + l.last());
        assert(join(l.skip(1), sep) == join(l.skip(1).drop_last(), sep) + sep + l.skip(1).last());
        assert(join(l, sep) =~= l[0] + sep + join(l.skip(1), sep));
    }
}

proof fn lemma_split_quoted(ts: Seq<Seq<char>>)
    requires
        ts.len() >= 1,
    ensures
        raw_words(join(ts.map_values(|t: Seq<char>| quoted_token(t)), seq![' ']), false, seq![])
            == ts.map_values(|t: Seq<char>| quoted_token(t)),
    decreases ts.len(),
{
    let qs = ts.map_values(|t: Seq<char>| quoted_token(t));
    if ts.len() == 1 {
        lemma_scan_token(ts[0], seq![], seq![]);
        assert(quoted_token(ts[0]) + Seq::<char>::empty() =~= quoted_token(ts[0]));
        assert(Seq::<char>::empty() + quoted_token(ts[0]) =~= quoted_token(ts[0]));
        assert(qs =~= seq![quoted_token(ts[0])]);
    } else {
        lemma_join_front(qs, seq![' ']);
        let tail = ts.skip(1);
        assert(qs.skip(1) =~= tail.map_values(|t: Seq<char>| quoted_token(t)));
        lemma_split_quoted(tail);
        let rest = seq![' '] + join(qs.skip(1), seq![' ']);
        assert(join(qs, seq![' ']) =~= quoted_token(ts[0]) + rest);
        lemma_scan_token(ts[0], rest, seq![]);
        assert(Seq::<char>::empty() + quoted_token(ts[0]) =~= quoted_token(ts[0]));
        assert(rest.skip(1) =~= join(qs.skip(1), seq![' ']));
        assert(qs =~= seq![quoted_token(ts[0])] + qs.skip(1));
    }
}

/// A quoted line reads back, in a POSIX shell, as exactly its tokens: the
/// command copied is the command built.
pub proof fn lemma_quoted_line_reads_back(tokens: Seq<Seq<char>>)
    ensures
        shell_words(quoted_line(tokens)) == tokens,
{
    let qs = tokens.map_values(|t: Seq<char>| quoted_token(t));
    if tokens.len() == 0 {
        assert(quoted_line(tokens) == Seq::<char>::empty());
    } else {
        lemma_split_quoted(tokens);
        if tokens.len() >= 2 {
            lemma_join_front(qs, seq![' ']);
        }
        assert(quoted_token(tokens[0]).len() > 0);
        assert(quoted_line(tokens)[0] == quoted_token(tokens[0])[0]);
        assert forall|i: int| 0 <= i < tokens.len() implies #[trigger] shell_read(qs[i], false) == tokens[i] by {
            lemma_quoted_token_reads_back(tokens[i]);
        }
        assert(shell_words(quoted_line(tokens)) =~= tokens);
    }
}

} // verus!
