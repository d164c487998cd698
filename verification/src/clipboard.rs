//! The clipboard payload: the OSC 52 "set clipboard" escape sequence, which
//! asks the terminal to set the clipboard (the way that reaches a local
//! terminal over SSH), and the outcome reported once a copy was tried.

use vstd::prelude::*;
use vstd::string::StringSliceAdditionalSpecFns;
use crate::text::push_char;

verus! {

/// What a copy could be confirmed to have done.
pub enum CopyOutcome {
    /// A native tool set the local clipboard.
    Confirmed,
    /// Only OSC 52 was emitted; it works if the terminal honors it.
    BestEffort,
    /// Copying was turned off.
    Disabled,
}

/// The outcome of a copy, given whether copying is enabled and whether a
/// native clipboard tool ran and exited cleanly.
pub fn copy_outcome(enabled: bool, native_confirmed: bool) -> (r: CopyOutcome)
    ensures
        !enabled ==> r is Disabled,
        enabled && native_confirmed ==> r is Confirmed,
        enabled && !native_confirmed ==> r is BestEffort,
{
    if !enabled {
        CopyOutcome::Disabled
    } else if native_confirmed {
        CopyOutcome::Confirmed
    } else {
        CopyOutcome::BestEffort
    }
}

// ---------------------------------------------------------------------------
// Base64 (RFC 4648, with `=` padding)
// ---------------------------------------------------------------------------

/// The RFC 4648 alphabet: `A`-`Z`, `a`-`z`, `0`-`9`, `+`, `/`.
pub open spec fn b64_char(i: int) -> char {
    if i < 26 {
        (65 + i) as char
    } else if i < 52 {
        (97 + (i - 26)) as char
    } else if i < 62 {
        (48 + (i - 52)) as char
    } else if i == 62 {
        '+'
    } else {
        '/'
    }
}

/// One group of up to three bytes as four characters, `=` standing for the
/// bytes a short final group lacks.
pub open spec fn b64_group(c: Seq<u8>) -> Seq<char> {
    let b0 = c[0] as int;
    let b1 = if c.len() > 1 { c[1] as int } else { 0 };
    let b2 = if c.len() > 2 { c[2] as int } else { 0 };
    seq![
        b64_char(b0 / 4),
        b64_char((b0 % 4) * 16 + b1 / 16),
        if c.len() > 1 { b64_char((b1 % 16) * 4 + b2 / 64) } else { '=' },
        if c.len() > 2 { b64_char(b2 % 64) } else { '=' },
    ]
}

/// Standard base64 of `input`, three bytes at a time.
pub open spec fn base64(input: Seq<u8>) -> Seq<char>
    decreases input.len(),
{
    if input.len() == 0 {
        seq![]
    } else if input.len() <= 3 {
        b64_group(input)
    } else {
        b64_group(input.take(3)) + base64(input.skip(3))
    }
}

fn b64_at(i: u32) -> (r: char)
    requires
        i < 64,
    ensures
        r == b64_char(i as int),
{
    if i < 26 {
        ((65 + i) as u8) as char
    } else if i < 52 {
        ((97 + (i - 26)) as u8) as char
    } else if i < 62 {
        ((48 + (i - 52)) as u8) as char
    } else if i == 62 {
        '+'
    } else {
        '/'
    }
}

proof fn lemma_base64_split(input: Seq<u8>, k: int)
    requires
        0 <= k <= input.len(),
        k % 3 == 0,
    ensures
        base64(input) == base64(input.take(k)) + base64(input.skip(k)),
    decreases k,
{
    if k == 0 {
        assert(input.take(0) =~= Seq::<u8>::empty());
        assert(input.skip(0) =~= input);
        assert(base64(input.take(0)) + base64(input) =~= base64(input));
    } else {
        let rest = input.skip(3);
        lemma_base64_split(rest, k - 3);
        assert(rest.skip(k - 3) =~= input.skip(k));
        assert(input.take(k).take(3) =~= input.take(3));
        assert(input.take(k).skip(3) =~= rest.take(k - 3));
        if k == 3 {
            assert(input.take(k) =~= input.take(3));
            if input.len() == 3 {
                assert(input.skip(3) =~= Seq::<u8>::empty());
                assert(input.take(3) =~= input);
                assert(base64(input.take(3)) + base64(input.skip(3)) =~= base64(input));
            }
            assert(base64(rest.take(0)) == Seq::<char>::empty()) by {
                assert(rest.take(0) =~= Seq::<u8>::empty());
            }
        }
        assert(base64(input.take(k)) == b64_group(input.take(3)) + base64(rest.take(k - 3)));
    }
}

/// Standard base64 (RFC 4648) with `=` padding.
pub fn base64_encode(input: &[u8]) -> (r: String)
    ensures
        r@ == base64(input@),
{
    let mut out = String::new();
    let mut i: usize = 0;
    let n = input.len();
    while i < n
        invariant
            n == input@.len(),
            i <= n,
            i % 3 == 0,
            out@ == base64(input@.take(i as int)),
        decreases n - i,
    {
        let rem = n - i;
        let b0 = input[i] as u32;
        let b1: u32 = if rem > 1 { input[i + 1] as u32 } else { 0 };
        let b2: u32 = if rem > 2 { input[i + 2] as u32 } else { 0 };
        let ghost before = out@;
        push_char(&mut out, b64_at(b0 / 4));
        push_char(&mut out, b64_at((b0 % 4) * 16 + b1 / 16));
        if rem > 1 {
            push_char(&mut out, b64_at((b1 % 16) * 4 + b2 / 64));
        } else {
            push_char(&mut out, '=');
        }
        if rem > 2 {
            push_char(&mut out, b64_at(b2 % 64));
        } else {
            push_char(&mut out, '=');
        }
        let next: usize = if rem >= 3 { i + 3 } else { n };
        proof {
            let g = input@.subrange(i as int, next as int);
            assert(out@ =~= before + b64_group(g));
            let t = input@.take(next as int);
            assert(t.take(i as int) =~= input@.take(i as int));
            assert(t.skip(i as int) =~= g);
            if next == n {
                assert(base64(g) == b64_group(g));
            } else {
                assert(g.len() == 3);
                assert(base64(g) == b64_group(g));
            }
            if i == 0 {
                assert(t.take(0) =~= Seq::<u8>::empty());
                assert(t.skip(0) =~= t);
                assert(t =~= g);
                assert(before =~= Seq::<char>::empty());
                assert(out@ =~= base64(t));
            } else {
                lemma_base64_split(t, i as int);
            }
        }
        i = next;
        assert(i % 3 == 0 || i == n);
        if i == n {
            assert(input@.take(i as int) =~= input@);
        }
        if i % 3 != 0 {
            assert(input@.take(n as int) =~= input@);
            return out;
        }
    }
    assert(input@.take(n as int) =~= input@);
    out
}

// ---------------------------------------------------------------------------
// OSC 52
// ---------------------------------------------------------------------------

/// `ESC ] 52 ; c ; <payload> BEL`.
pub open spec fn osc52_plain(payload: Seq<char>) -> Seq<char> {
    seq!['\x1b', ']', '5', '2', ';', 'c', ';'] + payload + seq!['\x07']
}

/// `s` with every ESC doubled.
pub open spec fn doubled_escapes(s: Seq<char>) -> Seq<char>
    decreases s.len(),
{
    if s.len() == 0 {
        seq![]
    } else if s.last() == '\x1b' {
        doubled_escapes(s.drop_last()) + seq!['\x1b', '\x1b']
    } else {
        doubled_escapes(s.drop_last()).push(s.last())
    }
}

/// The sequence for `text`; inside tmux it is wrapped in tmux's DCS
/// passthrough (`ESC P tmux ; <inner, ESCs doubled> ESC \`) so it reaches the
/// outer terminal.
pub open spec fn osc52(text: Seq<u8>, tmux: bool) -> Seq<char> {
    let inner = osc52_plain(base64(text));
    if tmux {
        seq!['\x1b', 'P', 't', 'm', 'u', 'x', ';'] + doubled_escapes(inner) + seq!['\x1b', '\\']
    } else {
        inner
    }
}

fn push_all(out: &mut Vec<char>, s: &[char])
    ensures
        final(out)@ == old(out)@ + s@,
{
    let mut j: usize = 0;
    while j < s.len()
        invariant
            j <= s@.len(),
            out@ == old(out)@ + s@.subrange(0, j as int),
        decreases s@.len() - j,
    {
        out.push(s[j]);
        assert(s@.subrange(0, j + 1) =~= s@.subrange(0, j as int).push(s@[j as int]));
        j += 1;
    }
    assert(s@.subrange(0, s@.len() as int) =~= s@);
}

/// Build the OSC 52 "set clipboard" sequence for `text`.
pub fn osc52_sequence(text: &str, tmux: bool) -> (r: String)
    ensures
        r@ == osc52(text.spec_bytes(), tmux),
{
    let payload = base64_encode(text.as_bytes());
    let pc = crate::text::chars_of(payload.as_str());
    let mut inner: Vec<char> = Vec::new();
    push_all(&mut inner, &['\x1b', ']', '5', '2', ';', 'c', ';']);
    push_all(&mut inner, pc.as_slice());
    inner.push('\x07');
    assert(['\x1b', ']', '5', '2', ';', 'c', ';']@ =~= seq!['\x1b', ']', '5', '2', ';', 'c', ';']);
    assert(inner@ =~= osc52_plain(base64(text.spec_bytes())));
    let mut out: Vec<char> = Vec::new();
    if tmux {
        push_all(&mut out, &['\x1b', 'P', 't', 'm', 'u', 'x', ';']);
        assert(['\x1b', 'P', 't', 'm', 'u', 'x', ';']@ =~= seq!['\x1b', 'P', 't', 'm', 'u', 'x', ';']);
        let ghost head = out@;
        let mut i: usize = 0;
        while i < inner.len()
            invariant
                i <= inner@.len(),
                out@ == head + doubled_escapes(inner@.subrange(0, i as int)),
            decreases inner@.len() - i,
        {
            let c = inner[i];
            if c == '\x1b' {
                out.push('\x1b');
                out.push('\x1b');
            } else {
                out.push(c);
            }
            proof {
                let p = inner@.subrange(0, i + 1);
                assert(p.drop_last() =~= inner@.subrange(0, i as int));
                assert(p.last() == c);
                assert(out@ =~= head + doubled_escapes(p));
            }
            i += 1;
        }
        assert(inner@.subrange(0, inner@.len() as int) =~= inner@);
        out.push('\x1b');
        out.push('\\');
    } else {
        push_all(&mut out, inner.as_slice());
    }
    let r = crate::text::to_string(out.as_slice());
    assert(r@ =~= osc52(text.spec_bytes(), tmux));
    r
}

// ---------------------------------------------------------------------------
// Laws
// ---------------------------------------------------------------------------

/// Base64 output is four characters for every started group of three bytes.
pub proof fn lemma_base64_len(input: Seq<u8>)
    ensures
        base64(input).len() == 4 * ((input.len() + 2) / 3),
    decreases input.len(),
{
    if input.len() > 3 {
        lemma_base64_len(input.skip(3));
    }
}

/// Encoding streams: input cut after a whole number of groups encodes as the
/// two parts' encodings, one after the other.
pub proof fn lemma_base64_concat(a: Seq<u8>, b: Seq<u8>)
    requires
        a.len() % 3 == 0,
    ensures
        base64(a + b) == base64(a) + base64(b),
{
    let ab = a + b;
    lemma_base64_split(ab, a.len() as int);
    assert(ab.take(a.len() as int) =~= a);
    assert(ab.skip(a.len() as int) =~= b);
}

} // verus!
