//! Big-endian encodings of the integer types used throughout OpenType.
use vstd::prelude::*;

verus! {

/// The two bytes of a `uint16`, most significant first.
pub open spec fn be16(v: u16) -> Seq<u8> {
    seq![(v / 256) as u8, (v % 256) as u8]
}

/// The four bytes of a `uint32`, most significant first.
pub open spec fn be32(v: u32) -> Seq<u8> {
    seq![(v / 0x1000000) as u8, ((v / 0x10000) % 256) as u8, ((v / 256) % 256) as u8, (v % 256) as u8]
}

/// The two's-complement bit pattern of an `int16`.
pub open spec fn i16_bits(v: i16) -> u16 {
    if v < 0 { (v + 65536) as u16 } else { v as u16 }
}

/// The signed value whose two's-complement bit pattern is `u`.
pub open spec fn i16_of_bits(u: u16) -> i16 {
    if u >= 32768 { (u - 65536) as i16 } else { u as i16 }
}

/// The two's-complement bit pattern of an `int32`.
pub open spec fn i32_bits(v: i32) -> u32 {
    if v < 0 { (v + 0x1_0000_0000) as u32 } else { v as u32 }
}

/// The signed value whose two's-complement bit pattern is `u`.
pub open spec fn i32_of_bits(u: u32) -> i32 {
    if u >= 0x8000_0000 { (u - 0x1_0000_0000) as i32 } else { u as i32 }
}

/// The signed value of a byte read as `int8`.
pub open spec fn i8_of_byte(b: u8) -> i16 {
    if b >= 128 { (b - 256) as i16 } else { b as i16 }
}

pub open spec fn bei16(v: i16) -> Seq<u8> {
    be16(i16_bits(v))
}

pub open spec fn bei32(v: i32) -> Seq<u8> {
    be32(i32_bits(v))
}

/// The `uint16` stored at byte `i` of `s`.
pub open spec fn u16_at(s: Seq<u8>, i: int) -> u16 {
    (s[i] as int * 256 + s[i + 1] as int) as u16
}

/// The `uint32` stored at byte `i` of `s`.
pub open spec fn u32_at(s: Seq<u8>, i: int) -> u32 {
    (s[i] as int * 0x1000000 + s[i + 1] as int * 0x10000 + s[i + 2] as int * 256 + s[i + 3] as int) as u32
}

pub open spec fn i16_at(s: Seq<u8>, i: int) -> i16 {
    i16_of_bits(u16_at(s, i))
}

pub open spec fn i32_at(s: Seq<u8>, i: int) -> i32 {
    i32_of_bits(u32_at(s, i))
}

/// The concatenation of the big-endian encodings of a sequence of `uint16`s.
pub open spec fn be16_seq(v: Seq<u16>) -> Seq<u8>
    decreases v.len(),
{
    if v.len() == 0 { Seq::empty() } else { be16_seq(v.drop_last()) + be16(v.last()) }
}

/// The concatenation of the big-endian encodings of a sequence of `int16`s.
pub open spec fn bei16_seq(v: Seq<i16>) -> Seq<u8>
    decreases v.len(),
{
    if v.len() == 0 { Seq::empty() } else { bei16_seq(v.drop_last()) + bei16(v.last()) }
}

/// The concatenation of the big-endian encodings of a sequence of `int32`s.
pub open spec fn bei32_seq(v: Seq<i32>) -> Seq<u8>
    decreases v.len(),
{
    if v.len() == 0 { Seq::empty() } else { bei32_seq(v.drop_last()) + bei32(v.last()) }
}

/// The concatenation of the big-endian encodings of a sequence of `uint32`s.
pub open spec fn be32_seq(v: Seq<u32>) -> Seq<u8>
    decreases v.len(),
{
    if v.len() == 0 { Seq::empty() } else { be32_seq(v.drop_last()) + be32(v.last()) }
}

pub proof fn lemma_be16_read(s: Seq<u8>, i: int, v: u16)
    requires
        0 <= i,
        i + 2 <= s.len(),
        s.subrange(i, i + 2) == be16(v),
    ensures
        u16_at(s, i) == v,
{
    assert(s[i] == s.subrange(i, i + 2)[0]);
    assert(s[i + 1] == s.subrange(i, i + 2)[1]);
}

pub proof fn lemma_be32_read(s: Seq<u8>, i: int, v: u32)
    requires
        0 <= i,
        i + 4 <= s.len(),
        s.subrange(i, i + 4) == be32(v),
    ensures
        u32_at(s, i) == v,
{
    assert(s[i] == s.subrange(i, i + 4)[0]);
    assert(s[i + 1] == s.subrange(i, i + 4)[1]);
    assert(s[i + 2] == s.subrange(i, i + 4)[2]);
    assert(s[i + 3] == s.subrange(i, i + 4)[3]);
}

pub proof fn lemma_i16_bits_roundtrip(v: i16)
    ensures
        i16_of_bits(i16_bits(v)) == v,
{
}

pub proof fn lemma_i32_bits_roundtrip(v: i32)
    ensures
        i32_of_bits(i32_bits(v)) == v,
{
}

pub proof fn lemma_be16_seq_len(v: Seq<u16>)
    ensures
        be16_seq(v).len() == 2 * v.len(),
    decreases v.len(),
{
    if v.len() > 0 {
        lemma_be16_seq_len(v.drop_last());
    }
}

pub proof fn lemma_bei16_seq_len(v: Seq<i16>)
    ensures
        bei16_seq(v).len() == 2 * v.len(),
    decreases v.len(),
{
    if v.len() > 0 {
        lemma_bei16_seq_len(v.drop_last());
    }
}

pub proof fn lemma_be32_seq_len(v: Seq<u32>)
    ensures
        be32_seq(v).len() == 4 * v.len(),
    decreases v.len(),
{
    if v.len() > 0 {
        lemma_be32_seq_len(v.drop_last());
    }
}

/// Element `k` of a sequence of `uint16`s can be read back from its encoding.
pub proof fn lemma_be16_seq_index(v: Seq<u16>, k: int)
    requires
        0 <= k < v.len(),
    ensures
        be16_seq(v).len() == 2 * v.len(),
        u16_at(be16_seq(v), 2 * k) == v[k],
    decreases v.len(),
{
    lemma_be16_seq_len(v);
    let s = be16_seq(v);
    if k == v.len() - 1 {
        lemma_be16_seq_len(v.drop_last());
        assert(s.subrange(2 * k, 2 * k + 2) == be16(v[k]));
        lemma_be16_read(s, 2 * k, v[k]);
    } else {
        lemma_be16_seq_index(v.drop_last(), k);
        let p = be16_seq(v.drop_last());
        assert(s[2 * k] == p[2 * k]);
        assert(s[2 * k + 1] == p[2 * k + 1]);
    }
}

pub proof fn lemma_bei16_seq_index(v: Seq<i16>, k: int)
    requires
        0 <= k < v.len(),
    ensures
        bei16_seq(v).len() == 2 * v.len(),
        i16_at(bei16_seq(v), 2 * k) == v[k],
    decreases v.len(),
{
    lemma_bei16_seq_len(v);
    let s = bei16_seq(v);
    if k == v.len() - 1 {
        lemma_bei16_seq_len(v.drop_last());
        assert(s.subrange(2 * k, 2 * k + 2) == be16(i16_bits(v[k])));
        lemma_be16_read(s, 2 * k, i16_bits(v[k]));
    } else {
        lemma_bei16_seq_index(v.drop_last(), k);
        let p = bei16_seq(v.drop_last());
        assert(s[2 * k] == p[2 * k]);
        assert(s[2 * k + 1] == p[2 * k + 1]);
    }
}

pub proof fn lemma_be32_seq_index(v: Seq<u32>, k: int)
    requires
        0 <= k < v.len(),
    ensures
        be32_seq(v).len() == 4 * v.len(),
        u32_at(be32_seq(v), 4 * k) == v[k],
    decreases v.len(),
{
    lemma_be32_seq_len(v);
    let s = be32_seq(v);
    if k == v.len() - 1 {
        lemma_be32_seq_len(v.drop_last());
        assert(s.subrange(4 * k, 4 * k + 4) == be32(v[k]));
        lemma_be32_read(s, 4 * k, v[k]);
    } else {
        lemma_be32_seq_index(v.drop_last(), k);
        let p = be32_seq(v.drop_last());
        assert(s[4 * k] == p[4 * k]);
        assert(s[4 * k + 1] == p[4 * k + 1]);
        assert(s[4 * k + 2] == p[4 * k + 2]);
        assert(s[4 * k + 3] == p[4 * k + 3]);
    }
}

/// Reading at an offset into a longer buffer sees the same bytes.
pub proof fn lemma_u16_at_shift(a: Seq<u8>, b: Seq<u8>, i: int)
    requires
        0 <= i,
        i + 2 <= b.len(),
    ensures
        u16_at(a + b, a.len() + i) == u16_at(b, i),
        u16_at(b + a, i) == u16_at(b, i),
{
    assert((a + b)[a.len() + i] == b[i]);
    assert((a + b)[a.len() + i + 1] == b[i + 1]);
    assert((b + a)[i] == b[i]);
    assert((b + a)[i + 1] == b[i + 1]);
}

pub proof fn lemma_u32_at_shift(a: Seq<u8>, b: Seq<u8>, i: int)
    requires
        0 <= i,
        i + 4 <= b.len(),
    ensures
        u32_at(a + b, a.len() + i) == u32_at(b, i),
        u32_at(b + a, i) == u32_at(b, i),
{
    assert((a + b)[a.len() + i] == b[i]);
    assert((a + b)[a.len() + i + 1] == b[i + 1]);
    assert((a + b)[a.len() + i + 2] == b[i + 2]);
    assert((a + b)[a.len() + i + 3] == b[i + 3]);
    assert((b + a)[i] == b[i]);
    assert((b + a)[i + 1] == b[i + 1]);
    assert((b + a)[i + 2] == b[i + 2]);
    assert((b + a)[i + 3] == b[i + 3]);
}

/// A `uint16` written between two byte strings reads back.
pub proof fn lemma_read_be16(a: Seq<u8>, v: u16, b: Seq<u8>)
    ensures
        u16_at(a + be16(v) + b, a.len() as int) == v,
        (a + be16(v) + b).len() == a.len() + 2 + b.len(),
{
    let s = a + be16(v) + b;
    assert(s[a.len() as int] == be16(v)[0]);
    assert(s[a.len() + 1 as int] == be16(v)[1]);
}

/// A `uint32` written between two byte strings reads back.
pub proof fn lemma_read_be32(a: Seq<u8>, v: u32, b: Seq<u8>)
    ensures
        u32_at(a + be32(v) + b, a.len() as int) == v,
        (a + be32(v) + b).len() == a.len() + 4 + b.len(),
{
    let s = a + be32(v) + b;
    assert(s[a.len() as int] == be32(v)[0]);
    assert(s[a.len() + 1 as int] == be32(v)[1]);
    assert(s[a.len() + 2 as int] == be32(v)[2]);
    assert(s[a.len() + 3 as int] == be32(v)[3]);
}

/// An `int16` written between two byte strings reads back.
pub proof fn lemma_read_bei16(a: Seq<u8>, v: i16, b: Seq<u8>)
    ensures
        i16_at(a + bei16(v) + b, a.len() as int) == v,
        (a + bei16(v) + b).len() == a.len() + 2 + b.len(),
{
    lemma_read_be16(a, i16_bits(v), b);
}

/// An `int32` written between two byte strings reads back.
pub proof fn lemma_read_bei32(a: Seq<u8>, v: i32, b: Seq<u8>)
    ensures
        i32_at(a + bei32(v) + b, a.len() as int) == v,
        (a + bei32(v) + b).len() == a.len() + 4 + b.len(),
{
    lemma_read_be32(a, i32_bits(v), b);
}

/// Element `k` of a `uint16` array written between two byte strings reads back.
pub proof fn lemma_read_be16_seq(a: Seq<u8>, v: Seq<u16>, b: Seq<u8>, k: int)
    requires
        0 <= k < v.len(),
    ensures
        u16_at(a + be16_seq(v) + b, a.len() + 2 * k) == v[k],
        (a + be16_seq(v) + b).len() == a.len() + 2 * v.len() + b.len(),
{
    lemma_be16_seq_index(v, k);
    let e = be16_seq(v);
    let s = a + e + b;
    assert(s[a.len() + 2 * k] == e[2 * k]);
    assert(s[a.len() + 2 * k + 1] == e[2 * k + 1]);
}

/// Element `k` of an `int16` array written between two byte strings reads back.
pub proof fn lemma_read_bei16_seq(a: Seq<u8>, v: Seq<i16>, b: Seq<u8>, k: int)
    requires
        0 <= k < v.len(),
    ensures
        i16_at(a + bei16_seq(v) + b, a.len() + 2 * k) == v[k],
        (a + bei16_seq(v) + b).len() == a.len() + 2 * v.len() + b.len(),
{
    lemma_bei16_seq_index(v, k);
    let e = bei16_seq(v);
    let s = a + e + b;
    assert(s[a.len() + 2 * k] == e[2 * k]);
    assert(s[a.len() + 2 * k + 1] == e[2 * k + 1]);
}

/// Element `k` of a `uint32` array written between two byte strings reads back.
pub proof fn lemma_read_be32_seq(a: Seq<u8>, v: Seq<u32>, b: Seq<u8>, k: int)
    requires
        0 <= k < v.len(),
    ensures
        u32_at(a + be32_seq(v) + b, a.len() + 4 * k) == v[k],
        (a + be32_seq(v) + b).len() == a.len() + 4 * v.len() + b.len(),
{
    lemma_be32_seq_index(v, k);
    let e = be32_seq(v);
    let s = a + e + b;
    assert(s[a.len() + 4 * k] == e[4 * k]);
    assert(s[a.len() + 4 * k + 1] == e[4 * k + 1]);
    assert(s[a.len() + 4 * k + 2] == e[4 * k + 2]);
    assert(s[a.len() + 4 * k + 3] == e[4 * k + 3]);
}

/// Reading inside a byte string is unaffected by what surrounds it.
pub proof fn lemma_u16_at_embed(a: Seq<u8>, m: Seq<u8>, b: Seq<u8>, i: int)
    requires
        0 <= i,
        i + 2 <= m.len(),
    ensures
        u16_at(a + m + b, a.len() + i) == u16_at(m, i),
{
    let s = a + m + b;
    assert(s[a.len() + i] == m[i]);
    assert(s[a.len() + i + 1] == m[i + 1]);
}

/// The two's-complement bit pattern of an `int64`.
pub open spec fn i64_bits(v: i64) -> u64 {
    if v < 0 { (v + 0x1_0000_0000_0000_0000) as u64 } else { v as u64 }
}

/// The signed value whose two's-complement bit pattern is `u`.
pub open spec fn i64_of_bits(u: u64) -> i64 {
    if u >= 0x8000_0000_0000_0000 { (u - 0x1_0000_0000_0000_0000) as i64 } else { u as i64 }
}

/// The 32-bit value made of a high and a low 16-bit word.
pub open spec fn join32(hi: u16, lo: u16) -> u32 {
    (hi * 0x10000 + lo) as u32
}

/// The 64-bit value made of four 16-bit words, most significant first.
pub open spec fn join64(w0: u16, w1: u16, w2: u16, w3: u16) -> u64 {
    (w0 * 0x1_0000_0000_0000 + w1 * 0x1_0000_0000 + w2 * 0x10000 + w3) as u64
}

pub proof fn lemma_join32(v: u32)
    ensures
        join32((v / 0x10000) as u16, (v % 0x10000) as u16) == v,
{
}

pub proof fn lemma_join64(v: u64)
    ensures
        join64(
            (v / 0x1_0000_0000_0000) as u16,
            ((v / 0x1_0000_0000) % 0x10000) as u16,
            ((v / 0x10000) % 0x10000) as u16,
            (v % 0x10000) as u16,
        ) == v,
{
    assert(v == (v / 0x1_0000_0000_0000) * 0x1_0000_0000_0000 + ((v / 0x1_0000_0000) % 0x10000)
        * 0x1_0000_0000 + ((v / 0x10000) % 0x10000) * 0x10000 + v % 0x10000) by (nonlinear_arith);
}

pub fn i64_to_bits(v: i64) -> (r: u64)
    ensures
        r == i64_bits(v),
{
    if v < 0 {
        (v as i128 + 0x1_0000_0000_0000_0000) as u64
    } else {
        v as u64
    }
}

pub fn i64_from_bits(u: u64) -> (r: i64)
    ensures
        r == i64_of_bits(u),
{
    if u >= 0x8000_0000_0000_0000 {
        (u as i128 - 0x1_0000_0000_0000_0000) as i64
    } else {
        u as i64
    }
}

/// Appends the big-endian encoding of `v`.
pub fn push_u16(out: &mut Vec<u8>, v: u16)
    ensures
        final(out)@ == old(out)@ + be16(v),
{
    out.push((v / 256) as u8);
    out.push((v % 256) as u8);
}

pub fn push_u32(out: &mut Vec<u8>, v: u32)
    ensures
        final(out)@ == old(out)@ + be32(v),
{
    out.push((v / 0x1000000) as u8);
    out.push(((v / 0x10000) % 256) as u8);
    out.push(((v / 256) % 256) as u8);
    out.push((v % 256) as u8);
}

pub fn i16_to_bits(v: i16) -> (r: u16)
    ensures
        r == i16_bits(v),
{
    if v < 0 {
        (v as i32 + 65536) as u16
    } else {
        v as u16
    }
}

pub fn i16_from_bits(u: u16) -> (r: i16)
    ensures
        r == i16_of_bits(u),
{
    if u >= 32768 {
        (u as i32 - 65536) as i16
    } else {
        u as i16
    }
}

pub fn i32_to_bits(v: i32) -> (r: u32)
    ensures
        r == i32_bits(v),
{
    if v < 0 {
        (v as i64 + 0x1_0000_0000) as u32
    } else {
        v as u32
    }
}

pub fn i32_from_bits(u: u32) -> (r: i32)
    ensures
        r == i32_of_bits(u),
{
    if u >= 0x8000_0000 {
        (u as i64 - 0x1_0000_0000) as i32
    } else {
        u as i32
    }
}

pub fn push_i16(out: &mut Vec<u8>, v: i16)
    ensures
        final(out)@ == old(out)@ + bei16(v),
{
    push_u16(out, i16_to_bits(v));
}

pub fn push_i32(out: &mut Vec<u8>, v: i32)
    ensures
        final(out)@ == old(out)@ + bei32(v),
{
    push_u32(out, i32_to_bits(v));
}

pub fn push_u16_slice(out: &mut Vec<u8>, v: &[u16])
    ensures
        final(out)@ == old(out)@ + be16_seq(v@),
{
    let mut i: usize = 0;
    while i < v.len()
        invariant
            i <= v.len(),
            out@ == old(out)@ + be16_seq(v@.subrange(0, i as int)),
        decreases v.len() - i,
    {
        let ghost before = out@;
        push_u16(out, v[i]);
        proof {
            let s = v@.subrange(0, i + 1);
            assert(s.drop_last() == v@.subrange(0, i as int));
            assert(s.last() == v@[i as int]);
        }
        i = i + 1;
    }
    assert(v@.subrange(0, v.len() as int) == v@);
}

pub fn push_i16_slice(out: &mut Vec<u8>, v: &[i16])
    ensures
        final(out)@ == old(out)@ + bei16_seq(v@),
{
    let mut i: usize = 0;
    while i < v.len()
        invariant
            i <= v.len(),
            out@ == old(out)@ + bei16_seq(v@.subrange(0, i as int)),
        decreases v.len() - i,
    {
        push_i16(out, v[i]);
        proof {
            let s = v@.subrange(0, i + 1);
            assert(s.drop_last() == v@.subrange(0, i as int));
            assert(s.last() == v@[i as int]);
        }
        i = i + 1;
    }
    assert(v@.subrange(0, v.len() as int) == v@);
}

pub fn push_u32_slice(out: &mut Vec<u8>, v: &[u32])
    ensures
        final(out)@ == old(out)@ + be32_seq(v@),
{
    let mut i: usize = 0;
    while i < v.len()
        invariant
            i <= v.len(),
            out@ == old(out)@ + be32_seq(v@.subrange(0, i as int)),
        decreases v.len() - i,
    {
        push_u32(out, v[i]);
        proof {
            let s = v@.subrange(0, i + 1);
            assert(s.drop_last() == v@.subrange(0, i as int));
            assert(s.last() == v@[i as int]);
        }
        i = i + 1;
    }
    assert(v@.subrange(0, v.len() as int) == v@);
}

pub fn push_bytes(out: &mut Vec<u8>, v: &[u8])
    ensures
        final(out)@ == old(out)@ + v@,
{
    let mut i: usize = 0;
    while i < v.len()
        invariant
            i <= v.len(),
            out@ == old(out)@ + v@.subrange(0, i as int),
        decreases v.len() - i,
    {
        out.push(v[i]);
        assert(v@.subrange(0, i + 1) == v@.subrange(0, i as int).push(v@[i as int]));
        i = i + 1;
    }
    assert(v@.subrange(0, v.len() as int) == v@);
}

/// The `uint16` at `pos`, or `None` where fewer than two bytes remain.
pub fn read_u16(data: &[u8], pos: usize) -> (r: Option<u16>)
    ensures
        r == (if pos + 2 <= data@.len() { Some(u16_at(data@, pos as int)) } else { None::<u16> }),
{
    if pos <= data.len() && data.len() - pos >= 2 {
        Some((data[pos] as u16) * 256 + data[pos + 1] as u16)
    } else {
        None
    }
}

pub fn read_i16(data: &[u8], pos: usize) -> (r: Option<i16>)
    ensures
        r == (if pos + 2 <= data@.len() { Some(i16_at(data@, pos as int)) } else { None::<i16> }),
{
    match read_u16(data, pos) {
        Some(u) => Some(i16_from_bits(u)),
        None => None,
    }
}

pub fn read_u32(data: &[u8], pos: usize) -> (r: Option<u32>)
    ensures
        r == (if pos + 4 <= data@.len() { Some(u32_at(data@, pos as int)) } else { None::<u32> }),
{
    if pos <= data.len() && data.len() - pos >= 4 {
        Some((data[pos] as u32) * 0x1000000 + (data[pos + 1] as u32) * 0x10000 + (data[pos + 2] as u32)
            * 256 + data[pos + 3] as u32)
    } else {
        None
    }
}

pub fn read_i32(data: &[u8], pos: usize) -> (r: Option<i32>)
    ensures
        r == (if pos + 4 <= data@.len() { Some(i32_at(data@, pos as int)) } else { None::<i32> }),
{
    match read_u32(data, pos) {
        Some(u) => Some(i32_from_bits(u)),
        None => None,
    }
}

pub fn read_u8(data: &[u8], pos: usize) -> (r: Option<u8>)
    ensures
        r == (if pos < data@.len() { Some(data@[pos as int]) } else { None::<u8> }),
{
    if pos < data.len() {
        Some(data[pos])
    } else {
        None
    }
}


/// Why a table could not be read.
#[derive(Debug, Clone, Copy, PartialEq, Eq)]
pub enum DeserializationError {
    /// The data ended before the table did.
    UnexpectedEof,
    /// A field held a value that the table's format does not allow.
    BadFormat,
    /// A table that this one is read with is absent.
    Missing,
}

/// Why a table could not be written.
#[derive(Debug, PartialEq, Clone, Copy)]
pub enum SerializationError {
    /// An `fvar` table whose instances record PostScript name IDs only in part.
    InconsistentPostscriptNameIDs,
    /// A subtable lies further from its parent than a 16-bit offset reaches,
    /// or a count does not fit in 16 bits.
    OffsetOverflow,
    /// A `gvar` table in which no two delta sets share a peak, so that it has
    /// no shared tuples.
    NoSharedTuples,
}

/// `count` consecutive `uint16`s starting at byte `pos`.
pub fn read_u16_vec(data: &[u8], pos: usize, count: usize) -> (r: Option<Vec<u16>>)
    ensures
        match r {
            Some(v) => pos + 2 * count <= data@.len() && v@.len() == count && forall|k: int|
                0 <= k < count ==> #[trigger] v@[k] == u16_at(data@, pos + 2 * k),
            None => pos + 2 * count > data@.len(),
        },
{
    if pos > data.len() || count > (data.len() - pos) / 2 {
        return None;
    }
    let mut v: Vec<u16> = Vec::new();
    let mut i: usize = 0;
    while i < count
        invariant
            i <= count,
            pos + 2 * count <= data.len(),
            v@.len() == i,
            forall|k: int| 0 <= k < i ==> #[trigger] v@[k] == u16_at(data@, pos + 2 * k),
        decreases count - i,
    {
        let x = (data[pos + 2 * i] as u16) * 256 + data[pos + 2 * i + 1] as u16;
        v.push(x);
        i = i + 1;
    }
    Some(v)
}

/// `count` consecutive `int16`s starting at byte `pos`.
pub fn read_i16_vec(data: &[u8], pos: usize, count: usize) -> (r: Option<Vec<i16>>)
    ensures
        match r {
            Some(v) => pos + 2 * count <= data@.len() && v@.len() == count && forall|k: int|
                0 <= k < count ==> #[trigger] v@[k] == i16_at(data@, pos + 2 * k),
            None => pos + 2 * count > data@.len(),
        },
{
    if pos > data.len() || count > (data.len() - pos) / 2 {
        return None;
    }
    let mut v: Vec<i16> = Vec::new();
    let mut i: usize = 0;
    while i < count
        invariant
            i <= count,
            pos + 2 * count <= data.len(),
            v@.len() == i,
            forall|k: int| 0 <= k < i ==> #[trigger] v@[k] == i16_at(data@, pos + 2 * k),
        decreases count - i,
    {
        let x = (data[pos + 2 * i] as u16) * 256 + data[pos + 2 * i + 1] as u16;
        v.push(i16_from_bits(x));
        i = i + 1;
    }
    Some(v)
}

/// `count` consecutive `uint32`s starting at byte `pos`.
pub fn read_u32_vec(data: &[u8], pos: usize, count: usize) -> (r: Option<Vec<u32>>)
    ensures
        match r {
            Some(v) => pos + 4 * count <= data@.len() && v@.len() == count && forall|k: int|
                0 <= k < count ==> #[trigger] v@[k] == u32_at(data@, pos + 4 * k),
            None => pos + 4 * count > data@.len(),
        },
{
    if pos > data.len() || count > (data.len() - pos) / 4 {
        return None;
    }
    let mut v: Vec<u32> = Vec::new();
    let mut i: usize = 0;
    while i < count
        invariant
            i <= count,
            pos + 4 * count <= data.len(),
            v@.len() == i,
            forall|k: int| 0 <= k < i ==> #[trigger] v@[k] == u32_at(data@, pos + 4 * k),
        decreases count - i,
    {
        let x = read_u32(data, pos + 4 * i).unwrap();
        v.push(x);
        i = i + 1;
    }
    Some(v)
}

/// `count` consecutive bytes starting at `pos`.
pub fn read_bytes(data: &[u8], pos: usize, count: usize) -> (r: Option<Vec<u8>>)
    ensures
        match r {
            Some(v) => pos + count <= data@.len() && v@ == data@.subrange(pos as int, pos + count),
            None => pos + count > data@.len(),
        },
{
    if pos > data.len() || count > data.len() - pos {
        return None;
    }
    let mut v: Vec<u8> = Vec::new();
    let mut i: usize = 0;
    while i < count
        invariant
            i <= count,
            pos + count <= data.len(),
            v@ == data@.subrange(pos as int, pos + i),
        decreases count - i,
    {
        v.push(data[pos + i]);
        assert(data@.subrange(pos as int, pos + i + 1) == data@.subrange(pos as int, pos + i).push(data@[pos + i]));
        i = i + 1;
    }
    Some(v)
}

} // verus!
