//! A cheap identity for a program file: its length and an FNV-1a hash of its
//! length and its first and last bytes. Reading a whole multi-megabyte binary
//! on every start would cost more than the help it saves; a rebuilt program
//! almost always changes length or its head or tail, so sampling those is
//! enough to tell a new build from the one whose help is cached.

use vstd::prelude::*;
use crate::text::{push_char, to_string};

verus! {

/// How many bytes are read from each end of the file.
pub const SAMPLE: usize = 65536;

pub const FNV_OFFSET: u64 = 0xcbf29ce484222325;

pub const FNV_PRIME: u64 = 0x100000001b3;

/// How many bytes of each end a file of `len` bytes gives.
pub open spec fn sample_of(len: u64) -> int {
    if len < SAMPLE { len as int } else { SAMPLE as int }
}

pub fn sample_size(len: u64) -> (r: usize)
    ensures
        r == sample_of(len),
{
    if len < SAMPLE as u64 { len as usize } else { SAMPLE }
}

pub open spec fn fnv_step(h: u64, b: u8) -> u64 {
    (((h ^ (b as u64)) as nat * FNV_PRIME as nat) % 0x1_0000_0000_0000_0000nat) as u64
}

/// FNV-1a over `bytes`, starting from `h`.
pub open spec fn fnv(h: u64, bytes: Seq<u8>) -> u64
    decreases bytes.len(),
{
    if bytes.len() == 0 {
        h
    } else {
        fnv_step(fnv(h, bytes.drop_last()), bytes.last())
    }
}

/// The first `k` bytes of `n` in little-endian order.
pub open spec fn le_bytes(n: nat, k: nat) -> Seq<u8>
    decreases k,
{
    if k == 0 {
        seq![]
    } else {
        seq![(n % 256) as u8] + le_bytes(n / 256, (k - 1) as nat)
    }
}

pub open spec fn hex_digit(d: int) -> char {
    if d < 10 { crate::text::digit_char(d) } else if d == 10 { 'a' } else if d == 11 { 'b' } else if d == 12 { 'c' }
    else if d == 13 { 'd' } else if d == 14 { 'e' } else { 'f' }
}

/// `n` in lower-case hexadecimal, without leading zeros.
pub open spec fn hex_of(n: nat) -> Seq<char>
    decreases n,
{
    if n < 16 {
        seq![hex_digit(n as int)]
    } else {
        hex_of(n / 16).push(hex_digit((n % 16) as int))
    }
}

/// `s` with zeros in front up to `width` characters.
pub open spec fn zero_pad(s: Seq<char>, width: nat) -> Seq<char> {
    if s.len() >= width { s } else { Seq::new((width - s.len()) as nat, |i: int| '0') + s }
}

/// The fingerprint of a file of `len` bytes that starts with `head` and ends
/// with `tail`: its length in hex, a dash, and the sixteen-digit hex hash.
pub open spec fn fingerprint_text(len: u64, head: Seq<u8>, tail: Seq<u8>) -> Seq<char> {
    hex_of(len as nat) + seq!['-'] + zero_pad(hex_of(fnv(FNV_OFFSET, le_bytes(len as nat, 8) + head + tail) as nat), 16)
}

fn hex_char(d: u64) -> (r: char)
    requires
        d < 16,
    ensures
        r == hex_digit(d as int),
{
    if d < 10 {
        if d == 0 { '0' } else if d == 1 { '1' } else if d == 2 { '2' } else if d == 3 { '3' }
        else if d == 4 { '4' } else if d == 5 { '5' } else if d == 6 { '6' } else if d == 7 { '7' }
        else if d == 8 { '8' } else { '9' }
    } else if d == 10 { 'a' } else if d == 11 { 'b' } else if d == 12 { 'c' }
    else if d == 13 { 'd' } else if d == 14 { 'e' } else { 'f' }
}

fn hex(n: u64) -> (r: String)
    ensures
        r@ == hex_of(n as nat),
    decreases n,
{
    if n < 16 {
        let c = hex_char(n);
        let r = to_string(&[c]);
        assert([c]@ =~= seq![c]);
        r
    } else {
        let mut s = hex(n / 16);
        push_char(&mut s, hex_char(n % 16));
        s
    }
}

fn fnv_over(h0: u64, bytes: &[u8]) -> (r: u64)
    ensures
        r == fnv(h0, bytes@),
{
    let mut h = h0;
    let mut i: usize = 0;
    while i < bytes.len()
        invariant
            i <= bytes@.len(),
            h == fnv(h0, bytes@.take(i as int)),
        decreases bytes@.len() - i,
    {
        assert(bytes@.take(i + 1).drop_last() =~= bytes@.take(i as int));
        h = (h ^ (bytes[i] as u64)).wrapping_mul(FNV_PRIME);
        i += 1;
    }
    assert(bytes@.take(bytes@.len() as int) =~= bytes@);
    h
}

proof fn lemma_fnv_concat(h: u64, a: Seq<u8>, b: Seq<u8>)
    ensures
        fnv(h, a + b) == fnv(fnv(h, a), b),
    decreases b.len(),
{
    if b.len() == 0 {
        assert(a + b =~= a);
    } else {
        lemma_fnv_concat(h, a, b.drop_last());
        assert((a + b).drop_last() =~= a + b.drop_last());
    }
}

/// The fingerprint of a file of `len` bytes that starts with `head` and ends
/// with `tail`.
pub fn fingerprint(len: u64, head: &[u8], tail: &[u8]) -> (r: String)
    ensures
        r@ == fingerprint_text(len, head@, tail@),
{
    let mut le: Vec<u8> = Vec::new();
    let mut v: u64 = len;
    let mut k: usize = 0;
    while k < 8
        invariant
            k <= 8,
            le@ + le_bytes(v as nat, (8 - k) as nat) == le_bytes(len as nat, 8),
        decreases 8 - k,
    {
        let ghost before = le@;
        assert(le_bytes(v as nat, (8 - k) as nat) == seq![(v % 256) as u8] + le_bytes((v / 256) as nat, (8 - k - 1) as nat));
        le.push((v % 256) as u8);
        assert(le@ + le_bytes((v / 256) as nat, (8 - k - 1) as nat) =~= before + (seq![(v % 256) as u8] + le_bytes((v / 256) as nat, (8 - k - 1) as nat)));
        v = v / 256;
        k += 1;
    }
    assert(le@ =~= le_bytes(len as nat, 8));
    let h1 = fnv_over(FNV_OFFSET, le.as_slice());
    let h2 = fnv_over(h1, head);
    let h3 = fnv_over(h2, tail);
    proof {
        lemma_fnv_concat(FNV_OFFSET, le@, head@);
        lemma_fnv_concat(FNV_OFFSET, le@ + head@, tail@);
    }
    let mut out = hex(len);
    push_char(&mut out, '-');
    let hs = hex(h3);
    let hc = crate::text::chars_of(hs.as_str());
    let mut pad: usize = 0;
    let n = hc.len();
    let ghost before = out@;
    if n < 16 {
        while pad < 16 - n
            invariant
                n < 16,
                pad <= 16 - n,
                out@ == before + Seq::new(pad as nat, |i: int| '0'),
            decreases 16 - n - pad,
        {
            push_char(&mut out, '0');
            assert(Seq::new((pad + 1) as nat, |i: int| '0') =~= Seq::new(pad as nat, |i: int| '0').push('0'));
            pad += 1;
        }
    }
    let ghost mid = out@;
    crate::text::push_chars(&mut out, hc.as_slice());
    proof {
        let hx = hex_of(h3 as nat);
        assert(hc@ == hx);
        if hx.len() >= 16 {
            assert(pad == 0);
            assert(Seq::new(0nat, |i: int| '0') =~= Seq::<char>::empty());
            assert(out@ =~= hex_of(len as nat) + seq!['-'] + zero_pad(hx, 16));
        } else {
            assert(out@ =~= hex_of(len as nat) + seq!['-'] + zero_pad(hx, 16));
        }
    }
    out
}

} // verus!

verus! {

proof fn lemma_hex_digit(a: int, b: int)
    requires
        0 <= a < 16,
        0 <= b < 16,
    ensures
        hex_digit(a) != '-',
        hex_digit(a) == hex_digit(b) ==> a == b,
{
}

proof fn lemma_hex_no_dash(n: nat)
    ensures
        forall|i: int| 0 <= i < hex_of(n).len() ==> #[trigger] hex_of(n)[i] != '-',
        hex_of(n).len() >= 1,
    decreases n,
{
    lemma_hex_digit((n % 16) as int, 0);
    if n >= 16 {
        lemma_hex_no_dash(n / 16);
        let h = hex_of(n / 16).push(hex_digit((n % 16) as int));
        assert forall|i: int| 0 <= i < h.len() implies #[trigger] h[i] != '-' by {
            if i < h.len() - 1 {
                assert(h[i] == hex_of(n / 16)[i]);
            }
        }
    }
}

proof fn lemma_hex_injective(a: nat, b: nat)
    requires
        hex_of(a) == hex_of(b),
    ensures
        a == b,
    decreases a,
{
    lemma_hex_no_dash(a / 16);
    lemma_hex_no_dash(b / 16);
    lemma_hex_digit((a % 16) as int, (b % 16) as int);
    if a < 16 && b < 16 {
        assert(hex_of(a) == seq![hex_digit(a as int)]);
        assert(hex_of(b) == seq![hex_digit(b as int)]);
        assert(hex_of(a)[0] == hex_of(b)[0]);
        assert(seq![hex_digit(a as int)][0] == hex_digit(a as int));
        assert(seq![hex_digit(b as int)][0] == hex_digit(b as int));
        assert(hex_digit(a as int) == hex_digit(b as int));
        lemma_hex_digit(a as int, b as int);
        assert(a == b);
    } else if a >= 16 && b >= 16 {
        let ha = hex_of(a);
        assert(ha.last() == hex_digit((a % 16) as int));
        assert(hex_of(b).last() == hex_digit((b % 16) as int));
        assert(ha.drop_last() =~= hex_of(a / 16));
        assert(hex_of(b).drop_last() =~= hex_of(b / 16));
        assert(ha.last() == hex_of(b).last());
        assert(hex_digit((a % 16) as int) == hex_digit((b % 16) as int));
        lemma_hex_injective(a / 16, b / 16);
        assert(a % 16 == b % 16);
        assert(a == 16 * (a / 16) + a % 16);
        assert(b == 16 * (b / 16) + b % 16);
        assert(a == b);
    } else if a < 16 {
        assert(hex_of(a).len() == 1);
        assert(hex_of(b).len() == hex_of(b / 16).len() + 1);
        assert(false);
    } else {
        assert(hex_of(b).len() == 1);
        assert(hex_of(a).len() == hex_of(a / 16).len() + 1);
        assert(false);
    }
}

/// Programs of different lengths never share a fingerprint, whatever their
/// bytes: the fingerprint starts with the length.
pub proof fn lemma_lengths_tell_apart(len1: u64, head1: Seq<u8>, tail1: Seq<u8>, len2: u64, head2: Seq<u8>, tail2: Seq<u8>)
    requires
        len1 != len2,
    ensures
        fingerprint_text(len1, head1, tail1) != fingerprint_text(len2, head2, tail2),
{
    let h1 = hex_of(len1 as nat);
    let h2 = hex_of(len2 as nat);
    let t1 = fingerprint_text(len1, head1, tail1);
    let t2 = fingerprint_text(len2, head2, tail2);
    lemma_hex_no_dash(len1 as nat);
    lemma_hex_no_dash(len2 as nat);
    if t1 == t2 {
        if h1.len() < h2.len() {
            assert(t1[h1.len() as int] == '-');
            assert(t2[h1.len() as int] == h2[h1.len() as int]);
        } else if h2.len() < h1.len() {
            assert(t2[h2.len() as int] == '-');
            assert(t1[h2.len() as int] == h1[h2.len() as int]);
        } else {
            assert forall|i: int| 0 <= i < h1.len() implies h1[i] == h2[i] by {
                assert(t1[i] == h1[i] && t2[i] == h2[i]);
            }
            assert(h1 =~= h2);
            lemma_hex_injective(len1 as nat, len2 as nat);
        }
    }
}

/// The same sampled bytes give the same fingerprint: a program left alone
/// keeps its cache.
pub proof fn lemma_same_bytes_same_fingerprint(len: u64, head: Seq<u8>, tail: Seq<u8>, len2: u64, head2: Seq<u8>, tail2: Seq<u8>)
    requires
        len == len2,
        head == head2,
        tail == tail2,
    ensures
        fingerprint_text(len, head, tail) == fingerprint_text(len2, head2, tail2),
{
}

} // verus!
