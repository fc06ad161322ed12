//! Byte-level encodings shared by the message and data formats:
//! big-endian integers of the control protocol and the hexadecimal dump
//! used to show a message on a console.
use vstd::prelude::*;

verus! {

// ---------------------------------------------------------------------------
// Big-endian integers
// ---------------------------------------------------------------------------

/// The two bytes of `x`, most significant first.
pub open spec fn be16(x: u16) -> Seq<u8> {
    seq![(x / 0x100) as u8, (x % 0x100) as u8]
}

/// The four bytes of `x`, most significant first.
pub open spec fn be32(x: u32) -> Seq<u8> {
    seq![
        (x / 0x100_0000) as u8,
        ((x / 0x1_0000) % 0x100) as u8,
        ((x / 0x100) % 0x100) as u8,
        (x % 0x100) as u8,
    ]
}

/// The big-endian 16-bit integer stored at `b[i..i + 2]`.
pub open spec fn be16_at(b: Seq<u8>, i: int) -> u16 {
    (b[i] as int * 0x100 + b[i + 1] as int) as u16
}

/// The big-endian 32-bit integer stored at `b[i..i + 4]`.
pub open spec fn be32_at(b: Seq<u8>, i: int) -> u32 {
    (b[i] as int * 0x100_0000 + b[i + 1] as int * 0x1_0000 + b[i + 2] as int * 0x100
        + b[i + 3] as int) as u32
}

/// The big-endian encoding of a sequence of 32-bit words, word after word.
pub open spec fn be32s(s: Seq<u32>) -> Seq<u8> {
    Seq::new(4 * s.len(), |k: int| be32(s[k / 4])[k % 4])
}

/// The `n` big-endian 32-bit words stored from `b[off]` on.
pub open spec fn be32s_at(b: Seq<u8>, off: int, n: nat) -> Seq<u32> {
    Seq::new(n, |i: int| be32_at(b, off + 4 * i))
}

/// Reading back the big-endian encoding of a 16-bit integer gives the integer.
pub proof fn lemma_be16_roundtrip(x: u16)
    ensures
        be16_at(be16(x), 0) == x,
{
    let b = be16(x);
    assert(b[0] as int * 0x100 + b[1] as int == x) by (nonlinear_arith)
        requires
            b[0] == (x / 0x100) as u8,
            b[1] == (x % 0x100) as u8,
            0 <= x < 0x1_0000,
    ;
}

/// Reading back the big-endian encoding of a 32-bit integer gives the integer.
pub proof fn lemma_be32_roundtrip(x: u32)
    ensures
        be32_at(be32(x), 0) == x,
{
    let b = be32(x);
    assert(b[0] as int * 0x100_0000 + b[1] as int * 0x1_0000 + b[2] as int * 0x100 + b[3] as int
        == x) by (nonlinear_arith)
        requires
            b[0] == (x / 0x100_0000) as u8,
            b[1] == ((x / 0x1_0000) % 0x100) as u8,
            b[2] == ((x / 0x100) % 0x100) as u8,
            b[3] == (x % 0x100) as u8,
            0 <= x < 0x1_0000_0000,
    ;
}

proof fn lemma_div_mod_4(i: int, j: int)
    requires
        0 <= i,
        0 <= j < 4,
    ensures
        (4 * i + j) / 4 == i,
        (4 * i + j) % 4 == j,
{
    assert((4 * i + j) / 4 == i) by (nonlinear_arith)
        requires
            0 <= i,
            0 <= j < 4,
    ;
    assert((4 * i + j) % 4 == j) by (nonlinear_arith)
        requires
            0 <= i,
            0 <= j < 4,
    ;
}

/// The bytes of `be32s(s)` that encode word `i`.
pub proof fn lemma_be32s_word(s: Seq<u32>, i: int)
    requires
        0 <= i < s.len(),
    ensures
        be32s(s).subrange(4 * i, 4 * i + 4) == be32(s[i]),
        be32s(s).len() == 4 * s.len(),
{
    let w = be32s(s).subrange(4 * i, 4 * i + 4);
    assert forall|j: int| 0 <= j < 4 implies w[j] == be32(s[i])[j] by {
        lemma_div_mod_4(i, j);
    }
    assert(w =~= be32(s[i]));
}

/// A big-endian 16-bit integer read where its encoding stands.
pub proof fn lemma_be16_at_sub(b: Seq<u8>, k: int, x: u16)
    requires
        0 <= k,
        k + 2 <= b.len(),
        b.subrange(k, k + 2) == be16(x),
    ensures
        be16_at(b, k) == x,
{
    lemma_be16_roundtrip(x);
    assert(b[k] == be16(x)[0]);
    assert(b[k + 1] == be16(x)[1]);
}

/// A big-endian 32-bit integer read where its encoding stands.
pub proof fn lemma_be32_at_sub(b: Seq<u8>, k: int, x: u32)
    requires
        0 <= k,
        k + 4 <= b.len(),
        b.subrange(k, k + 4) == be32(x),
    ensures
        be32_at(b, k) == x,
{
    lemma_be32_roundtrip(x);
    assert(b[k] == be32(x)[0]);
    assert(b[k + 1] == be32(x)[1]);
    assert(b[k + 2] == be32(x)[2]);
    assert(b[k + 3] == be32(x)[3]);
    lemma_be32_at_same(b, k, be32(x), 0);
}

/// Byte `j` of word `i` in `be32s(s)`.
pub proof fn lemma_be32s_byte(s: Seq<u32>, i: int, j: int)
    requires
        0 <= i < s.len(),
        0 <= j < 4,
    ensures
        be32s(s)[4 * i + j] == be32(s[i])[j],
{
    lemma_div_mod_4(i, j);
}

proof fn lemma_be32_at_same(b1: Seq<u8>, i1: int, b2: Seq<u8>, i2: int)
    requires
        b1[i1] == b2[i2],
        b1[i1 + 1] == b2[i2 + 1],
        b1[i1 + 2] == b2[i2 + 2],
        b1[i1 + 3] == b2[i2 + 3],
    ensures
        be32_at(b1, i1) == be32_at(b2, i2),
{
}

proof fn lemma_be32s_word_at(pre: Seq<u8>, s: Seq<u32>, post: Seq<u8>, i: int)
    requires
        0 <= i < s.len(),
    ensures
        be32_at(pre + be32s(s) + post, pre.len() + 4 * i) == s[i],
{
    let e = be32s(s);
    let b = pre + e + post;
    let off = pre.len() + 4 * i;
    lemma_be32s_byte(s, i, 0);
    lemma_be32s_byte(s, i, 1);
    lemma_be32s_byte(s, i, 2);
    lemma_be32s_byte(s, i, 3);
    assert(b[off] == e[4 * i]);
    assert(b[off + 1] == e[4 * i + 1]);
    assert(b[off + 2] == e[4 * i + 2]);
    assert(b[off + 3] == e[4 * i + 3]);
    lemma_be32_at_same(b, off, be32(s[i]), 0);
    lemma_be32_roundtrip(s[i]);
}

/// Reading back the words of `be32s(s)`, wherever they stand in a buffer, gives `s`.
pub proof fn lemma_be32s_roundtrip(pre: Seq<u8>, s: Seq<u32>, post: Seq<u8>)
    ensures
        be32s_at(pre + be32s(s) + post, pre.len() as int, s.len()) == s,
{
    let r = be32s_at(pre + be32s(s) + post, pre.len() as int, s.len());
    assert forall|i: int| 0 <= i < s.len() implies r[i] == s[i] by {
        lemma_be32s_word_at(pre, s, post, i);
    }
    assert(r =~= s);
}

/// Appends the big-endian bytes of `x`.
pub fn push_be16(out: &mut Vec<u8>, x: u16)
    ensures
        final(out)@ == old(out)@ + be16(x),
{
    out.push((x / 0x100) as u8);
    out.push((x % 0x100) as u8);
    assert(final(out)@ =~= old(out)@ + be16(x));
}

/// Appends the big-endian bytes of `x`.
pub fn push_be32(out: &mut Vec<u8>, x: u32)
    ensures
        final(out)@ == old(out)@ + be32(x),
{
    out.push((x / 0x100_0000) as u8);
    out.push(((x / 0x1_0000) % 0x100) as u8);
    out.push(((x / 0x100) % 0x100) as u8);
    out.push((x % 0x100) as u8);
    assert(final(out)@ =~= old(out)@ + be32(x));
}

/// Appends the big-endian bytes of each word of `s`, in order.
pub fn push_be32s(out: &mut Vec<u8>, s: &[u32])
    ensures
        final(out)@ == old(out)@ + be32s(s@),
{
    let ghost start = out@;
    let n = s.len();
    let mut i: usize = 0;
    while i < n
        invariant
            n == s@.len(),
            i <= n,
            out@ == start + be32s(s@.take(i as int)),
        decreases n - i,
    {
        let ghost before = out@;
        push_be32(out, s[i]);
        proof {
            let t = s@.take(i as int + 1);
            assert(t.take(i as int) =~= s@.take(i as int));
            assert forall|k: int| 0 <= k < 4 * (i + 1) implies be32s(t)[k] == (be32s(
                s@.take(i as int),
            ) + be32(s@[i as int]))[k] by {
                if k < 4 * i {
                    assert(k / 4 < i) by (nonlinear_arith)
                        requires
                            0 <= k < 4 * i,
                    ;
                    assert(0 <= k / 4) by (nonlinear_arith)
                        requires
                            0 <= k,
                    ;
                } else {
                    lemma_div_mod_4(i as int, k - 4 * i);
                }
            }
            assert(be32s(t) =~= be32s(s@.take(i as int)) + be32(s@[i as int]));
        }
        i = i + 1;
    }
    assert(s@.take(n as int) =~= s@);
}

/// Appends all of `s`.
pub fn push_bytes(out: &mut Vec<u8>, s: &[u8])
    ensures
        final(out)@ == old(out)@ + s@,
{
    let ghost start = out@;
    let n = s.len();
    let mut i: usize = 0;
    while i < n
        invariant
            n == s@.len(),
            i <= n,
            out@ == start + s@.take(i as int),
        decreases n - i,
    {
        out.push(s[i]);
        assert(s@.take(i as int + 1) =~= s@.take(i as int).push(s@[i as int]));
        i = i + 1;
    }
    assert(s@.take(n as int) =~= s@);
}

/// The big-endian 16-bit integer at `b[i..i + 2]`.
pub fn read_be16(b: &[u8], i: usize) -> (r: u16)
    requires
        i + 2 <= b@.len(),
    ensures
        r == be16_at(b@, i as int),
{
    let hi = b[i] as u16;
    let lo = b[i + 1] as u16;
    hi * 0x100 + lo
}

/// The big-endian 32-bit integer at `b[i..i + 4]`.
pub fn read_be32(b: &[u8], i: usize) -> (r: u32)
    requires
        i + 4 <= b@.len(),
    ensures
        r == be32_at(b@, i as int),
{
    let b0 = b[i] as u32;
    let b1 = b[i + 1] as u32;
    let b2 = b[i + 2] as u32;
    let b3 = b[i + 3] as u32;
    b0 * 0x100_0000 + b1 * 0x1_0000 + b2 * 0x100 + b3
}

/// The `n` big-endian 32-bit words stored from `b[off]` on.
pub fn read_be32s(b: &[u8], off: usize, n: usize) -> (r: Vec<u32>)
    requires
        off + 4 * n <= b@.len(),
    ensures
        r@ == be32s_at(b@, off as int, n as nat),
{
    let blen = b.len();
    let mut r: Vec<u32> = Vec::new();
    let mut i: usize = 0;
    while i < n
        invariant
            i <= n,
            blen == b@.len(),
            off + 4 * n <= b@.len(),
            r@ == be32s_at(b@, off as int, i as nat),
        decreases n - i,
    {
        let w = read_be32(b, off + 4 * i);
        r.push(w);
        assert(r@ =~= be32s_at(b@, off as int, (i + 1) as nat));
        i = i + 1;
    }
    r
}

/// A copy of `b[start..end]`.
pub fn copy_range(b: &[u8], start: usize, end: usize) -> (r: Vec<u8>)
    requires
        start <= end <= b@.len(),
    ensures
        r@ == b@.subrange(start as int, end as int),
{
    let mut r: Vec<u8> = Vec::new();
    let mut i: usize = start;
    while i < end
        invariant
            start <= i <= end,
            end <= b@.len(),
            r@ == b@.subrange(start as int, i as int),
        decreases end - i,
    {
        r.push(b[i]);
        assert(r@ =~= b@.subrange(start as int, i + 1));
        i = i + 1;
    }
    r
}

// ---------------------------------------------------------------------------
// Little-endian 16-bit integers
// ---------------------------------------------------------------------------

/// The little-endian 16-bit integer stored at `b[i..i + 2]`.
pub open spec fn le16_at(b: Seq<u8>, i: int) -> u16 {
    (b[i] as int + b[i + 1] as int * 0x100) as u16
}

/// The two bytes of `x`, least significant first.
pub open spec fn le16(x: u16) -> Seq<u8> {
    seq![(x % 0x100) as u8, (x / 0x100) as u8]
}

/// Each word of `s` as two little-endian bytes, word after word.
pub open spec fn u16s_le(s: Seq<u16>) -> Seq<u8> {
    Seq::new(2 * s.len(), |k: int| le16(s[k / 2])[k % 2])
}

/// The `n` little-endian 16-bit words stored from `b[off]` on.
pub open spec fn le_u16s_at(b: Seq<u8>, off: int, n: nat) -> Seq<u16> {
    Seq::new(n, |k: int| le16_at(b, off + 2 * k))
}

proof fn lemma_div_mod_2(k: int)
    requires
        0 <= k,
    ensures
        (2 * k) / 2 == k,
        (2 * k) % 2 == 0,
        (2 * k + 1) / 2 == k,
        (2 * k + 1) % 2 == 1,
{
    assert((2 * k) / 2 == k && (2 * k) % 2 == 0 && (2 * k + 1) / 2 == k && (2 * k + 1) % 2 == 1)
        by (nonlinear_arith)
        requires
            0 <= k,
    ;
}

/// Reading back the words of `u16s_le(s)` gives `s`.
pub proof fn lemma_u16s_le_roundtrip(s: Seq<u16>)
    ensures
        le_u16s_at(u16s_le(s), 0, s.len()) == s,
{
    let b = u16s_le(s);
    let r = le_u16s_at(b, 0, s.len());
    assert forall|k: int| 0 <= k < s.len() implies r[k] == s[k] by {
        lemma_div_mod_2(k);
        let u = s[k];
        assert(b[2 * k] == (u % 0x100) as u8);
        assert(b[2 * k + 1] == (u / 0x100) as u8);
        assert((u % 0x100) as u8 as int + (u / 0x100) as u8 as int * 0x100 == u) by (
        nonlinear_arith)
            requires
                0 <= u < 0x1_0000,
        ;
    }
    assert(r =~= s);
}

/// Writing out the words read from an even number of bytes gives those bytes.
pub proof fn lemma_le_u16s_roundtrip(b: Seq<u8>, n: nat)
    requires
        b.len() == 2 * n,
    ensures
        u16s_le(le_u16s_at(b, 0, n)) == b,
{
    let w = le_u16s_at(b, 0, n);
    let e = u16s_le(w);
    assert forall|k: int| 0 <= k < b.len() implies e[k] == b[k] by {
        let i = k / 2;
        assert(0 <= i < n && (k == 2 * i || k == 2 * i + 1)) by (nonlinear_arith)
            requires
                0 <= k < 2 * n,
                i == k / 2,
        ;
        lemma_div_mod_2(i);
        let x = b[2 * i] as int + b[2 * i + 1] as int * 0x100;
        assert(0 <= x < 0x1_0000);
        assert(w[i] == x);
        assert((x % 0x100) == b[2 * i] && (x / 0x100) == b[2 * i + 1]) by (nonlinear_arith)
            requires
                x == b[2 * i] as int + b[2 * i + 1] as int * 0x100,
                0 <= b[2 * i] < 0x100,
                0 <= b[2 * i + 1] < 0x100,
        ;
    }
    assert(e =~= b);
}

/// Appends each word as two little-endian bytes.
pub fn push_u16s_le(out: &mut Vec<u8>, s: &[u16])
    ensures
        final(out)@ == old(out)@ + u16s_le(s@),
{
    let ghost start = out@;
    let n = s.len();
    let mut i: usize = 0;
    while i < n
        invariant
            n == s@.len(),
            i <= n,
            out@ == start + u16s_le(s@.take(i as int)),
        decreases n - i,
    {
        let x = s[i];
        out.push((x % 0x100) as u8);
        out.push((x / 0x100) as u8);
        proof {
            let t = s@.take(i as int + 1);
            let e = u16s_le(s@.take(i as int)) + le16(s@[i as int]);
            assert forall|k: int| 0 <= k < 2 * (i + 1) implies u16s_le(t)[k] == e[k] by {
                if k < 2 * i {
                    assert(k / 2 < i && 0 <= k / 2) by (nonlinear_arith)
                        requires
                            0 <= k < 2 * i,
                    ;
                } else {
                    assert(k / 2 == i && k % 2 == k - 2 * i) by (nonlinear_arith)
                        requires
                            2 * i <= k < 2 * i + 2,
                    ;
                }
            }
            assert(u16s_le(t) =~= e);
        }
        i = i + 1;
    }
    assert(s@.take(n as int) =~= s@);
}

/// The little-endian 16-bit integer at `b[i..i + 2]`.
pub fn read_le16(b: &[u8], i: usize) -> (r: u16)
    requires
        i + 2 <= b@.len(),
    ensures
        r == le16_at(b@, i as int),
{
    let lo = b[i] as u16;
    let hi = b[i + 1] as u16;
    lo + hi * 0x100
}

/// The `n` little-endian 16-bit words stored from `b[off]` on.
pub fn read_le16s(b: &[u8], off: usize, n: usize) -> (r: Vec<u16>)
    requires
        off + 2 * n <= b@.len(),
    ensures
        r@ == le_u16s_at(b@, off as int, n as nat),
{
    let blen = b.len();
    let mut r: Vec<u16> = Vec::new();
    let mut i: usize = 0;
    while i < n
        invariant
            i <= n,
            blen == b@.len(),
            off + 2 * n <= b@.len(),
            r@ == le_u16s_at(b@, off as int, i as nat),
        decreases n - i,
    {
        let w = read_le16(b, off + 2 * i);
        r.push(w);
        assert(r@ =~= le_u16s_at(b@, off as int, (i + 1) as nat));
        i = i + 1;
    }
    r
}

/// The `n` little-endian signed 16-bit integers stored from `b[off]` on.
pub open spec fn le_i16s_at(b: Seq<u8>, off: int, n: nat) -> Seq<i16> {
    Seq::new(n, |k: int| le16_at(b, off + 2 * k) as i16)
}

/// Each sample of `s` as two little-endian bytes, sample after sample.
pub open spec fn i16s_le(s: Seq<i16>) -> Seq<u8> {
    Seq::new(2 * s.len(), |k: int| le16(s[k / 2] as u16)[k % 2])
}

/// Appends each sample as two little-endian bytes.
pub fn push_i16s_le(out: &mut Vec<u8>, s: &[i16])
    ensures
        final(out)@ == old(out)@ + i16s_le(s@),
{
    let ghost start = out@;
    let n = s.len();
    let mut i: usize = 0;
    while i < n
        invariant
            n == s@.len(),
            i <= n,
            out@ == start + i16s_le(s@.take(i as int)),
        decreases n - i,
    {
        let x = s[i] as u16;
        out.push((x % 0x100) as u8);
        out.push((x / 0x100) as u8);
        proof {
            let t = s@.take(i as int + 1);
            let e = i16s_le(s@.take(i as int)) + le16(s@[i as int] as u16);
            assert forall|k: int| 0 <= k < 2 * (i + 1) implies i16s_le(t)[k] == e[k] by {
                if k < 2 * i {
                    assert(k / 2 < i && 0 <= k / 2) by (nonlinear_arith)
                        requires
                            0 <= k < 2 * i,
                    ;
                } else {
                    assert(k / 2 == i && k % 2 == k - 2 * i) by (nonlinear_arith)
                        requires
                            2 * i <= k < 2 * i + 2,
                    ;
                }
            }
            assert(i16s_le(t) =~= e);
        }
        i = i + 1;
    }
    assert(s@.take(n as int) =~= s@);
}

/// Reading back the samples of `i16s_le(s)` gives `s`.
pub proof fn lemma_i16s_le_roundtrip(s: Seq<i16>)
    ensures
        le_i16s_at(i16s_le(s), 0, s.len()) == s,
{
    let b = i16s_le(s);
    let r = le_i16s_at(b, 0, s.len());
    assert forall|k: int| 0 <= k < s.len() implies r[k] == s[k] by {
        assert((2 * k) / 2 == k && (2 * k) % 2 == 0 && (2 * k + 1) / 2 == k && (2 * k + 1) % 2
            == 1) by (nonlinear_arith)
            requires
                0 <= k,
        ;
        let x = s[k];
        let u = x as u16;
        assert(b[2 * k] == (u % 0x100) as u8);
        assert(b[2 * k + 1] == (u / 0x100) as u8);
        assert((u % 0x100) as u8 as int + (u / 0x100) as u8 as int * 0x100 == u) by (
        nonlinear_arith)
            requires
                0 <= u < 0x1_0000,
        ;
        assert((u as i16) == x) by (bit_vector)
            requires
                u == x as u16,
        ;
    }
    assert(r =~= s);
}

/// Writing out the samples read from `b[off..off + 2 * n]` gives those bytes.
pub proof fn lemma_le_i16s_bytes(b: Seq<u8>, off: int, n: nat)
    requires
        0 <= off,
        off + 2 * n <= b.len(),
    ensures
        i16s_le(le_i16s_at(b, off, n)) == b.subrange(off, off + 2 * n),
{
    let w = le_i16s_at(b, off, n);
    let e = i16s_le(w);
    let t = b.subrange(off, off + 2 * n);
    assert forall|k: int| 0 <= k < t.len() implies e[k] == t[k] by {
        let i = k / 2;
        assert(0 <= i < n && (k == 2 * i || k == 2 * i + 1)) by (nonlinear_arith)
            requires
                0 <= k < 2 * n,
                i == k / 2,
        ;
        lemma_div_mod_2(i);
        let x = b[off + 2 * i] as int + b[off + 2 * i + 1] as int * 0x100;
        assert(0 <= x < 0x1_0000);
        let u = le16_at(b, off + 2 * i);
        assert(u == x);
        assert(w[i] == u as i16);
        assert((u as i16) as u16 == u) by (bit_vector);
        assert((x % 0x100) == b[off + 2 * i] && (x / 0x100) == b[off + 2 * i + 1]) by (
        nonlinear_arith)
            requires
                x == b[off + 2 * i] as int + b[off + 2 * i + 1] as int * 0x100,
                0 <= b[off + 2 * i] < 0x100,
                0 <= b[off + 2 * i + 1] < 0x100,
        ;
    }
    assert(e =~= t);
}

/// The `n` little-endian signed 16-bit integers stored from `b[off]` on.
pub fn read_le_i16s(b: &[u8], off: usize, n: usize) -> (r: Vec<i16>)
    requires
        off + 2 * n <= b@.len(),
    ensures
        r@ == le_i16s_at(b@, off as int, n as nat),
{
    let blen = b.len();
    let mut r: Vec<i16> = Vec::new();
    let mut i: usize = 0;
    while i < n
        invariant
            i <= n,
            blen == b@.len(),
            off + 2 * n <= b@.len(),
            r@ == le_i16s_at(b@, off as int, i as nat),
        decreases n - i,
    {
        let w = read_le16(b, off + 2 * i);
        r.push(w as i16);
        assert(r@ =~= le_i16s_at(b@, off as int, (i + 1) as nat));
        i = i + 1;
    }
    r
}

// ---------------------------------------------------------------------------
// Hexadecimal dump
// ---------------------------------------------------------------------------

/// The ASCII character of the hexadecimal digit `d` (lower case).
pub open spec fn hex_digit(d: nat) -> u8 {
    if d < 10 {
        (0x30 + d) as u8
    } else {
        (0x61 + d - 10) as u8
    }
}

/// The ASCII character of the decimal digit `d`.
pub open spec fn dec_digit(d: nat) -> u8 {
    (0x30 + d) as u8
}

/// A byte written as two lower-case hexadecimal digits (`{:02x}`).
pub open spec fn hex2(b: u8) -> Seq<u8> {
    seq![hex_digit((b / 16) as nat), hex_digit((b % 16) as nat)]
}

/// The decimal digits of `n`, without leading zeros (`{}`).
pub open spec fn dec_digits(n: nat) -> Seq<u8>
    decreases n,
{
    if n < 10 {
        seq![dec_digit(n)]
    } else {
        dec_digits(n / 10).push(dec_digit(n % 10))
    }
}

/// `n` in decimal, padded with zeros to at least four digits (`{:04}`).
pub open spec fn dec4(n: nat) -> Seq<u8> {
    let d = dec_digits(n);
    if d.len() < 4 {
        Seq::new((4 - d.len()) as nat, |i: int| 0x30u8) + d
    } else {
        d
    }
}

/// Each byte as two hexadecimal digits followed by a space.
pub open spec fn hex_bytes(s: Seq<u8>) -> Seq<u8>
    decreases s.len(),
{
    if s.len() == 0 {
        Seq::empty()
    } else {
        hex_bytes(s.drop_last()) + hex2(s.last()) + seq![0x20u8]
    }
}

/// One line of the dump: the chunk number, a space, the bytes of the chunk, a newline.
pub open spec fn dump_line(i: nat, chunk: Seq<u8>) -> Seq<u8> {
    dec4(i) + seq![0x20u8] + hex_bytes(chunk) + seq![0x0au8]
}

/// The dump of `s` in chunks of four bytes (the last one may be shorter),
/// the chunks numbered from `i` on.
pub open spec fn dump_chunks(s: Seq<u8>, i: nat) -> Seq<u8>
    decreases s.len(),
{
    if s.len() == 0 {
        Seq::empty()
    } else if s.len() <= 4 {
        dump_line(i, s)
    } else {
        dump_line(i, s.take(4)) + dump_chunks(s.skip(4), i + 1)
    }
}

/// The dump of `s`, its chunks numbered from zero.
pub open spec fn hex_dump(s: Seq<u8>) -> Seq<u8> {
    dump_chunks(s, 0)
}

fn hex_char(d: u8) -> (c: u8)
    requires
        d < 16,
    ensures
        c == hex_digit(d as nat),
{
    if d < 10 {
        0x30 + d
    } else {
        0x61 + d - 10
    }
}

/// Appends `b` as two hexadecimal digits.
pub fn push_hex2(out: &mut Vec<u8>, b: u8)
    ensures
        final(out)@ == old(out)@ + hex2(b),
{
    out.push(hex_char(b / 16));
    out.push(hex_char(b % 16));
    assert(final(out)@ =~= old(out)@ + hex2(b));
}

fn push_dec(out: &mut Vec<u8>, n: usize)
    ensures
        final(out)@ == old(out)@ + dec_digits(n as nat),
    decreases n,
{
    if n >= 10 {
        push_dec(out, n / 10);
    }
    out.push(0x30 + (n % 10) as u8);
    assert(final(out)@ =~= old(out)@ + dec_digits(n as nat));
}

/// Appends `n` in decimal, padded with zeros to at least four digits.
pub fn push_dec4(out: &mut Vec<u8>, n: usize)
    ensures
        final(out)@ == old(out)@ + dec4(n as nat),
{
    let mut digits: Vec<u8> = Vec::new();
    push_dec(&mut digits, n);
    assert(digits@ =~= dec_digits(n as nat));
    let ghost start = out@;
    let len = digits.len();
    if len < 4 {
        let mut k: usize = 0;
        while k < 4 - len
            invariant
                len < 4,
                k <= 4 - len,
                out@ == start + Seq::new(k as nat, |i: int| 0x30u8),
            decreases 4 - len - k,
        {
            out.push(0x30);
            assert(out@ =~= start + Seq::new((k + 1) as nat, |i: int| 0x30u8));
            k = k + 1;
        }
    }
    push_bytes(out, digits.as_slice());
    assert(final(out)@ =~= old(out)@ + dec4(n as nat));
}

fn push_hex_bytes(out: &mut Vec<u8>, s: &[u8], start: usize, end: usize)
    requires
        start <= end <= s@.len(),
    ensures
        final(out)@ == old(out)@ + hex_bytes(s@.subrange(start as int, end as int)),
{
    let ghost out0 = out@;
    let mut i: usize = start;
    assert(s@.subrange(start as int, start as int) =~= Seq::<u8>::empty());
    while i < end
        invariant
            start <= i <= end,
            end <= s@.len(),
            out@ == out0 + hex_bytes(s@.subrange(start as int, i as int)),
        decreases end - i,
    {
        push_hex2(out, s[i]);
        out.push(0x20);
        let ghost t = s@.subrange(start as int, i + 1);
        assert(t.drop_last() =~= s@.subrange(start as int, i as int));
        assert(out@ =~= out0 + hex_bytes(t));
        i = i + 1;
    }
}

/// Appends the dump of `s`: for each chunk of four bytes, its number in
/// four decimal digits, then each byte in hexadecimal followed by a space,
/// then a newline.
pub fn push_hex_dump(out: &mut Vec<u8>, s: &[u8])
    ensures
        final(out)@ == old(out)@ + hex_dump(s@),
{
    let ghost out0 = out@;
    let n = s.len();
    let mut pos: usize = 0;
    let mut k: usize = 0;
    assert(s@.skip(0) =~= s@);
    while pos < n
        invariant
            n == s@.len(),
            pos <= n,
            k <= pos,
            out@ + dump_chunks(s@.skip(pos as int), k as nat) == out0 + hex_dump(s@),
        decreases n - pos,
    {
        let ghost rest = s@.skip(pos as int);
        let ghost before = out@;
        let end = if n - pos <= 4 {
            n
        } else {
            pos + 4
        };
        push_dec4(out, k);
        out.push(0x20);
        push_hex_bytes(out, s, pos, end);
        out.push(0x0a);
        proof {
            let line = dump_line(k as nat, s@.subrange(pos as int, end as int));
            assert(out@ =~= before + line);
            if n - pos <= 4 {
                assert(rest =~= s@.subrange(pos as int, end as int));
                assert(s@.skip(end as int) =~= Seq::<u8>::empty());
                assert(dump_chunks(rest, k as nat) == line);
            } else {
                assert(rest.take(4) =~= s@.subrange(pos as int, end as int));
                assert(rest.skip(4) =~= s@.skip(end as int));
            }
            assert(out@ + dump_chunks(s@.skip(end as int), (k + 1) as nat) =~= before
                + dump_chunks(rest, k as nat));
        }
        pos = end;
        k = k + 1;
    }
    assert(s@.skip(n as int) =~= Seq::<u8>::empty());
    assert(out@ =~= out0 + hex_dump(s@));
}

} // verus!
