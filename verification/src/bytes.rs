//! Little-endian byte sequences and the editing of byte images.
//!
//! An image is described as an *overlay*: a list of parts, each a byte string
//! with the offset at which it is written, applied in order to a zeroed
//! buffer. Where two parts meet, the later one wins.
use vstd::prelude::*;

verus! {

/// The two little-endian bytes of `x`.
pub open spec fn le16(x: u16) -> Seq<u8> {
    seq![(x % 0x100) as u8, (x / 0x100) as u8]
}

/// The four little-endian bytes of `x`.
pub open spec fn le32(x: u32) -> Seq<u8> {
    seq![
        (x % 0x100) as u8,
        (x / 0x100 % 0x100) as u8,
        (x / 0x1_0000 % 0x100) as u8,
        (x / 0x100_0000) as u8,
    ]
}

/// The eight little-endian bytes of `x`: its low half, then its high half.
pub open spec fn le64(x: u64) -> Seq<u8> {
    le32((x % 0x1_0000_0000) as u32) + le32((x / 0x1_0000_0000) as u32)
}

/// The value whose little-endian bytes are the four bytes of `b` at `at`.
pub open spec fn u32_at(b: Seq<u8>, at: int) -> u32 {
    (b[at] + 0x100 * b[at + 1] + 0x1_0000 * b[at + 2] + 0x100_0000 * b[at + 3]) as u32
}

/// The value whose little-endian bytes are the eight bytes of `b` at `at`.
pub open spec fn u64_at(b: Seq<u8>, at: int) -> u64 {
    (u32_at(b, at) + 0x1_0000_0000 * u32_at(b, at + 4)) as u64
}

/// The 32-bit pattern that stands for `v`: `v` modulo `2^32`.
pub open spec fn wrap32(v: int) -> u32 {
    (v % 0x1_0000_0000) as u32
}

/// Reading four bytes back gives the value that they were written from.
pub proof fn lemma_u32_at(b: Seq<u8>, at: int, x: u32)
    requires
        0 <= at,
        at + 4 <= b.len(),
        b.subrange(at, at + 4) == le32(x),
    ensures
        u32_at(b, at) == x,
{
    let s = b.subrange(at, at + 4);
    assert(s[0] == b[at] && s[1] == b[at + 1] && s[2] == b[at + 2] && s[3] == b[at + 3]);
}

/// Reading eight bytes back gives the value that they were written from.
pub proof fn lemma_u64_at(b: Seq<u8>, at: int, x: u64)
    requires
        0 <= at,
        at + 8 <= b.len(),
        b.subrange(at, at + 8) == le64(x),
    ensures
        u64_at(b, at) == x,
{
    let lo = (x % 0x1_0000_0000) as u32;
    let hi = (x / 0x1_0000_0000) as u32;
    assert(b.subrange(at, at + 8).subrange(0, 4) =~= b.subrange(at, at + 4));
    assert(b.subrange(at, at + 8).subrange(4, 8) =~= b.subrange(at + 4, at + 8));
    assert(le64(x).subrange(0, 4) =~= le32(lo));
    assert(le64(x).subrange(4, 8) =~= le32(hi));
    lemma_u32_at(b, at, lo);
    lemma_u32_at(b, at + 4, hi);
}

/// Append the two little-endian bytes of `x`.
pub fn push_u16(v: &mut Vec<u8>, x: u16)
    ensures
        final(v)@ == old(v)@ + le16(x),
{
    v.push((x % 0x100) as u8);
    v.push((x / 0x100) as u8);
    assert(v@ =~= old(v)@ + le16(x));
}

/// Append the four little-endian bytes of `x`.
pub fn push_u32(v: &mut Vec<u8>, x: u32)
    ensures
        final(v)@ == old(v)@ + le32(x),
{
    v.push((x % 0x100) as u8);
    v.push((x / 0x100 % 0x100) as u8);
    v.push((x / 0x1_0000 % 0x100) as u8);
    v.push((x / 0x100_0000) as u8);
    assert(v@ =~= old(v)@ + le32(x));
}

/// Append the eight little-endian bytes of `x`.
pub fn push_u64(v: &mut Vec<u8>, x: u64)
    ensures
        final(v)@ == old(v)@ + le64(x),
{
    push_u32(v, (x % 0x1_0000_0000) as u32);
    push_u32(v, (x / 0x1_0000_0000) as u32);
    assert(v@ =~= old(v)@ + le64(x));
}

/// Append a byte string.
pub fn push_bytes(v: &mut Vec<u8>, b: &[u8])
    ensures
        final(v)@ == old(v)@ + b@,
{
    v.extend_from_slice(b);
    assert(v@ =~= old(v)@ + b@);
}

/// The four-byte little-endian number at `at`.
pub fn get_u32(b: &[u8], at: usize) -> (x: u32)
    requires
        at + 4 <= b.len(),
    ensures
        x == u32_at(b@, at as int),
{
    b[at] as u32 + 0x100 * b[at + 1] as u32 + 0x1_0000 * b[at + 2] as u32 + 0x100_0000 * b[at
        + 3] as u32
}

/// The eight-byte little-endian number at `at`.
pub fn get_u64(b: &[u8], at: usize) -> (x: u64)
    requires
        at + 8 <= b.len(),
    ensures
        x == u64_at(b@, at as int),
{
    let lo: u32 = get_u32(b, at);
    let hi: u32 = get_u32(b, at + 4);
    lo as u64 + 0x1_0000_0000 * hi as u64
}

/// The 32-bit pattern of a signed 32-bit number.
pub fn bits_i32(v: i32) -> (x: u32)
    ensures
        x == wrap32(v as int),
{
    if v >= 0 {
        v as u32
    } else {
        (v as i64 + 0x1_0000_0000i64) as u32
    }
}

/// The low 32 bits of `a - b`.
pub fn distance32(a: usize, b: usize) -> (x: u32)
    ensures
        x == wrap32(a - b),
{
    difference32(a as u64, b as u64)
}

/// `b` with `part` written over it from `at` on.
pub open spec fn put_at(b: Seq<u8>, at: int, part: Seq<u8>) -> Seq<u8> {
    Seq::new(
        b.len(),
        |i: int|
            if at <= i < at + part.len() {
                part[i - at]
            } else {
                b[i]
            },
    )
}

/// Write `part` over `b` from `at` on.
pub fn write_at(b: &mut Vec<u8>, at: usize, part: &[u8])
    requires
        at + part@.len() <= old(b)@.len(),
    ensures
        final(b)@ == put_at(old(b)@, at as int, part@),
{
    let mut k: usize = 0;
    proof {
        assert(b@ =~= put_at(old(b)@, at as int, part@.take(0)));
    }
    while k < part.len()
        invariant
            k <= part@.len(),
            at + part@.len() <= b.len(),
            b@ == put_at(old(b)@, at as int, part@.take(k as int)),
        decreases part.len() - k,
    {
        b.set(at + k, part[k]);
        proof {
            assert(b@ =~= put_at(old(b)@, at as int, part@.take(k + 1)));
        }
        k += 1;
    }
    proof {
        assert(part@.take(k as int) =~= part@);
    }
}

/// `n` zero bytes.
pub open spec fn zeros(n: int) -> Seq<u8> {
    Seq::new(n as nat, |i: int| 0u8)
}

/// The least multiple of `a` that is not below `v`.
pub open spec fn align_up(v: int, a: int) -> int {
    (v + a - 1) / a * a
}

/// `b` with zeros behind it up to length `n`.
pub open spec fn pad_to(b: Seq<u8>, n: int) -> Seq<u8> {
    b + zeros(n - b.len())
}

/// `n` more zero bytes.
pub fn push_zeros(v: &mut Vec<u8>, n: usize)
    ensures
        final(v)@ == old(v)@ + zeros(n as int),
{
    let mut k: usize = 0;
    proof {
        assert(v@ =~= old(v)@ + zeros(0));
    }
    while k < n
        invariant
            k <= n,
            v@ == old(v)@ + zeros(k as int),
        decreases n - k,
    {
        v.push(0);
        proof {
            assert(v@ =~= old(v)@ + zeros(k + 1));
        }
        k += 1;
    }
}

/// Append zeros up to length `n`.
pub fn push_pad(v: &mut Vec<u8>, n: usize)
    requires
        old(v)@.len() <= n,
    ensures
        final(v)@ == pad_to(old(v)@, n as int),
{
    push_zeros(v, n - v.len());
}

/// `align_up` as a step to the next multiple.
pub proof fn lemma_align_up(v: int, a: int)
    requires
        0 <= v,
        0 < a,
    ensures
        align_up(v, a) == if v % a == 0 {
            v
        } else {
            v - v % a + a
        },
        v <= align_up(v, a) < v + a,
        0 <= v % a <= v,
{
    assert(0 <= v % a <= v) by (nonlinear_arith)
        requires
            0 < a,
            0 <= v,
    ;
    let q = v / a;
    let r = v % a;
    assert(v == a * q + r && 0 <= r < a) by (nonlinear_arith)
        requires
            0 < a,
            0 <= v,
            q == v / a,
            r == v % a,
    ;
    if r == 0 {
        assert((v + a - 1) / a == q) by (nonlinear_arith)
            requires
                0 < a,
                v == a * q,
        ;
        assert(q * a == v) by (nonlinear_arith)
            requires
                v == a * q,
        ;
    } else {
        assert((v + a - 1) / a == q + 1) by (nonlinear_arith)
            requires
                0 < r < a,
                v == a * q + r,
        ;
        assert((q + 1) * a == v - r + a) by (nonlinear_arith)
            requires
                v == a * q + r,
        ;
    }
}

/// Concatenation is associative.
pub proof fn lemma_assoc(a: Seq<u8>, b: Seq<u8>, c: Seq<u8>)
    ensures
        (a + b) + c == a + (b + c),
{
    assert((a + b) + c =~= a + (b + c));
}

/// Nothing in front of `a` leaves `a`.
pub proof fn lemma_empty_front(a: Seq<u8>)
    ensures
        Seq::<u8>::empty() + a == a,
{
    assert(Seq::<u8>::empty() + a =~= a);
}

/// The low 32 bits of `a - b`.
pub fn difference32(a: u64, b: u64) -> (x: u32)
    ensures
        x == wrap32(a - b),
{
    let p: u64 = a % 0x1_0000_0000;
    let q: u64 = b % 0x1_0000_0000;
    let d: u64 = (p + 0x1_0000_0000 - q) % 0x1_0000_0000;
    proof {
        let k = a as int / 0x1_0000_0000 - b as int / 0x1_0000_0000 - 1;
        assert(a - b == k * 0x1_0000_0000 + (p + 0x1_0000_0000 - q));
    }
    d as u32
}

/// The least multiple of `a` that is not below `v`.
pub fn align_u128(v: u128, a: u128) -> (r: u128)
    requires
        0 < a,
        v + a <= u128::MAX,
    ensures
        r == align_up(v as int, a as int),
        v <= r < v + a,
{
    proof {
        lemma_align_up(v as int, a as int);
    }
    let m: u128 = v % a;
    if m == 0 {
        v
    } else {
        v - m + a
    }
}

/// What was written is read.
pub proof fn lemma_put_u64(b: Seq<u8>, at: int, x: u64)
    requires
        0 <= at,
        at + 8 <= b.len(),
    ensures
        u64_at(put_at(b, at, le64(x)), at) == x,
{
    let c = put_at(b, at, le64(x));
    assert(c.subrange(at, at + 8) =~= le64(x));
    lemma_u64_at(c, at, x);
}

/// What was written is read.
pub proof fn lemma_put_u32(b: Seq<u8>, at: int, x: u32)
    requires
        0 <= at,
        at + 4 <= b.len(),
    ensures
        u32_at(put_at(b, at, le32(x)), at) == x,
{
    let c = put_at(b, at, le32(x));
    assert(c.subrange(at, at + 4) =~= le32(x));
    lemma_u32_at(c, at, x);
}

/// What is written elsewhere is not read.
pub proof fn lemma_put_elsewhere(b: Seq<u8>, at: int, part: Seq<u8>, from: int)
    requires
        0 <= from,
    ensures
        from + 4 <= b.len() && (from + 4 <= at || at + part.len() <= from) ==> u32_at(
            put_at(b, at, part),
            from,
        ) == u32_at(b, from),
        from + 8 <= b.len() && (from + 8 <= at || at + part.len() <= from) ==> u64_at(
            put_at(b, at, part),
            from,
        ) == u64_at(b, from),
{
}

/// Numbers in a piece of `b` are those of `b` further on.
pub proof fn lemma_read_piece(b: Seq<u8>, from: int, to: int, at: int)
    requires
        0 <= from <= to <= b.len(),
        0 <= at,
    ensures
        at + 4 <= to - from ==> u32_at(b.subrange(from, to), at) == u32_at(b, from + at),
        at + 8 <= to - from ==> u64_at(b.subrange(from, to), at) == u64_at(b, from + at),
{
}

/// Five pieces behind `f`, each from its offset on: the front of the whole is
/// `f`, and each piece is where its offset says.
pub proof fn lemma_pieces(
    f: Seq<u8>,
    at: (int, int, int, int, int),
    p: (Seq<u8>, Seq<u8>, Seq<u8>, Seq<u8>, Seq<u8>),
)
    requires
        f.len() <= at.0,
        at.0 + p.0.len() <= at.1,
        at.1 + p.1.len() <= at.2,
        at.2 + p.2.len() <= at.3,
        at.3 + p.3.len() <= at.4,
    ensures
        ({
            let a = pad_to(f, at.0) + p.0;
            let b = pad_to(a, at.1) + p.1;
            let c = pad_to(b, at.2) + p.2;
            let d = pad_to(c, at.3) + p.3;
            let e = pad_to(d, at.4) + p.4;
            &&& e.len() == at.4 + p.4.len()
            &&& e.subrange(0, f.len() as int) == f
            &&& e.subrange(at.0, at.0 + p.0.len()) == p.0
            &&& e.subrange(at.1, at.1 + p.1.len()) == p.1
            &&& e.subrange(at.2, at.2 + p.2.len()) == p.2
            &&& e.subrange(at.3, at.3 + p.3.len()) == p.3
            &&& e.subrange(at.4, at.4 + p.4.len()) == p.4
        }),
{
    let a = pad_to(f, at.0) + p.0;
    let b = pad_to(a, at.1) + p.1;
    let c = pad_to(b, at.2) + p.2;
    let d = pad_to(c, at.3) + p.3;
    let e = pad_to(d, at.4) + p.4;
    assert(e.subrange(0, d.len() as int) =~= d);
    assert(d.subrange(0, c.len() as int) =~= c);
    assert(c.subrange(0, b.len() as int) =~= b);
    assert(b.subrange(0, a.len() as int) =~= a);
    assert(e.subrange(0, c.len() as int) =~= c);
    assert(e.subrange(0, b.len() as int) =~= b);
    assert(e.subrange(0, a.len() as int) =~= a);
    assert(e.subrange(0, f.len() as int) =~= f);
    assert(a.subrange(at.0, at.0 + p.0.len()) =~= p.0);
    assert(e.subrange(at.0, at.0 + p.0.len()) =~= e.subrange(0, a.len() as int).subrange(
        at.0,
        at.0 + p.0.len(),
    ));
    assert(b.subrange(at.1, at.1 + p.1.len()) =~= p.1);
    assert(e.subrange(at.1, at.1 + p.1.len()) =~= e.subrange(0, b.len() as int).subrange(
        at.1,
        at.1 + p.1.len(),
    ));
    assert(c.subrange(at.2, at.2 + p.2.len()) =~= p.2);
    assert(e.subrange(at.2, at.2 + p.2.len()) =~= e.subrange(0, c.len() as int).subrange(
        at.2,
        at.2 + p.2.len(),
    ));
    assert(d.subrange(at.3, at.3 + p.3.len()) =~= p.3);
    assert(e.subrange(at.3, at.3 + p.3.len()) =~= e.subrange(0, d.len() as int).subrange(
        at.3,
        at.3 + p.3.len(),
    ));
    assert(e.subrange(at.4, at.4 + p.4.len()) =~= p.4);
}

/// A byte string and the offset that it is written to.
#[verifier::ext_equal]
pub struct Part {
    pub at: int,
    pub bytes: Seq<u8>,
}

/// `n` zero bytes with `parts` written over them in order.
pub open spec fn overlay(n: int, parts: Seq<Part>) -> Seq<u8>
    decreases parts.len(),
{
    if parts.len() == 0 {
        zeros(n)
    } else {
        put_at(overlay(n, parts.drop_last()), parts.last().at, parts.last().bytes)
    }
}

pub proof fn lemma_overlay_len(n: int, parts: Seq<Part>)
    requires
        0 <= n,
    ensures
        overlay(n, parts).len() == n,
    decreases parts.len(),
{
    if parts.len() > 0 {
        lemma_overlay_len(n, parts.drop_last());
    }
}

/// One part more is written over the others.
pub proof fn lemma_overlay_push(n: int, parts: Seq<Part>, p: Part)
    ensures
        overlay(n, parts.push(p)) == put_at(overlay(n, parts), p.at, p.bytes),
{
    assert(parts.push(p).drop_last() =~= parts);
}

/// A part that no later one touches is in the image as it was written.
pub proof fn lemma_overlay_reads(n: int, parts: Seq<Part>, k: int)
    requires
        0 <= k < parts.len(),
        0 <= parts[k].at,
        parts[k].at + parts[k].bytes.len() <= n,
        forall|j: int|
            k < j < parts.len() ==> (#[trigger] parts[j]).at + parts[j].bytes.len() <= parts[k].at
                || parts[k].at + parts[k].bytes.len() <= parts[j].at,
    ensures
        overlay(n, parts).subrange(parts[k].at, parts[k].at + parts[k].bytes.len())
            == parts[k].bytes,
    decreases parts.len(),
{
    let m = parts.len() - 1;
    let p = parts[k];
    lemma_overlay_len(n, parts);
    lemma_overlay_len(n, parts.drop_last());
    let img = overlay(n, parts);
    if k == m {
        assert(img.subrange(p.at, p.at + p.bytes.len()) =~= p.bytes);
    } else {
        let before = parts.drop_last();
        assert forall|j: int| k < j < before.len() implies (#[trigger] before[j]).at
            + before[j].bytes.len() <= p.at || p.at + p.bytes.len() <= before[j].at by {
            assert(before[j] == parts[j]);
        }
        lemma_overlay_reads(n, before, k);
        let q = parts[m];
        assert(q.at + q.bytes.len() <= p.at || p.at + p.bytes.len() <= q.at);
        let old_img = overlay(n, before);
        assert forall|i: int| p.at <= i < p.at + p.bytes.len() implies #[trigger] img[i]
            == old_img[i] by {}
        assert(img.subrange(p.at, p.at + p.bytes.len()) =~= old_img.subrange(
            p.at,
            p.at + p.bytes.len(),
        ));
    }
}

/// What parts behind others leave alone.
pub proof fn lemma_overlay_keeps(n: int, x: Seq<Part>, c: Seq<Part>, from: int, to: int)
    requires
        0 <= from <= to <= n,
        forall|j: int|
            0 <= j < c.len() ==> (#[trigger] c[j]).at + c[j].bytes.len() <= from || to <= c[j].at,
    ensures
        overlay(n, x + c).subrange(from, to) == overlay(n, x).subrange(from, to),
    decreases c.len(),
{
    lemma_overlay_len(n, x);
    if c.len() == 0 {
        assert(x + c =~= x);
    } else {
        let d = c.drop_last();
        let p = c.last();
        assert forall|j: int| 0 <= j < d.len() implies (#[trigger] d[j]).at + d[j].bytes.len()
            <= from || to <= d[j].at by {
            assert(d[j] == c[j]);
        }
        assert(c[c.len() - 1] == p);
        lemma_overlay_keeps(n, x, d, from, to);
        assert(x + c =~= (x + d).push(p));
        lemma_overlay_push(n, x + d, p);
        lemma_overlay_len(n, x + d);
        assert(overlay(n, x + c).subrange(from, to) =~= overlay(n, x + d).subrange(from, to));
    }
}

/// A part is read where it was written last.
pub proof fn lemma_overlay_last(n: int, x: Seq<Part>, p: Part)
    requires
        0 <= p.at,
        p.at + p.bytes.len() <= n,
    ensures
        overlay(n, x.push(p)).subrange(p.at, p.at + p.bytes.len()) == p.bytes,
{
    lemma_overlay_len(n, x);
    lemma_overlay_push(n, x, p);
    assert(overlay(n, x.push(p)).subrange(p.at, p.at + p.bytes.len()) =~= p.bytes);
}

} // verus!
