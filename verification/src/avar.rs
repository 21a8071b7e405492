//! The `avar` (axis variations) table. Coordinates are F2DOT14 values held as
//! their 16-bit patterns (1.0 is 16384).
use crate::binary::{
    be16, bei16, i16_at, lemma_read_be16, lemma_read_bei16, push_i16, push_u16, read_i16, read_u16, u16_at,
    DeserializationError,
};
use vstd::prelude::*;

verus! {

/// The piecewise-linear mapping of one axis: (from, to) coordinate pairs.
#[derive(Debug, PartialEq, Clone)]
pub struct SegmentMap {
    pub axisValueMaps: Vec<(i16, i16)>,
}

#[derive(Debug, PartialEq, Clone)]
pub struct avar {
    pub majorVersion: u16,
    pub minorVersion: u16,
    pub reserved: u16,
    pub axisSegmentMaps: Vec<SegmentMap>,
}

/// The bytes of a list of coordinate pairs, without its count.
pub open spec fn pairs_bytes(p: Seq<(i16, i16)>) -> Seq<u8>
    decreases p.len(),
{
    if p.len() == 0 {
        Seq::empty()
    } else {
        pairs_bytes(p.drop_last()) + bei16(p.last().0) + bei16(p.last().1)
    }
}

/// The bytes of a list of segment maps, each a count and its pairs.
pub open spec fn maps_bytes(m: Seq<Seq<(i16, i16)>>) -> Seq<u8>
    decreases m.len(),
{
    if m.len() == 0 {
        Seq::empty()
    } else {
        maps_bytes(m.drop_last()) + be16(m.last().len() as u16) + pairs_bytes(m.last())
    }
}

pub open spec fn segment_maps_view(m: Seq<SegmentMap>) -> Seq<Seq<(i16, i16)>> {
    m.map_values(|x: SegmentMap| x.axisValueMaps@)
}

pub open spec fn avar_encoding(a: avar) -> Seq<u8> {
    be16(a.majorVersion) + be16(a.minorVersion) + be16(a.reserved) + be16(
        a.axisSegmentMaps@.len() as u16,
    ) + maps_bytes(segment_maps_view(a.axisSegmentMaps@))
}

/// The segment map whose count is at `pos`, and the position after it.
pub open spec fn segment_map_decoding(s: Seq<u8>, pos: int) -> Option<(Seq<(i16, i16)>, int)> {
    if pos < 0 || pos + 2 > s.len() || pos + 2 + 4 * u16_at(s, pos) > s.len() {
        None
    } else {
        Some(
            (
                Seq::new(
                    u16_at(s, pos) as nat,
                    |k: int| (i16_at(s, pos + 2 + 4 * k), i16_at(s, pos + 4 + 4 * k)),
                ),
                pos + 2 + 4 * u16_at(s, pos),
            ),
        )
    }
}

/// The first `n` segment maps from `pos`, and the position after them.
pub open spec fn segment_maps_decoding(s: Seq<u8>, pos: int, n: nat) -> Option<(Seq<Seq<(i16, i16)>>, int)>
    decreases n,
{
    if n == 0 {
        Some((Seq::empty(), pos))
    } else {
        match segment_maps_decoding(s, pos, (n - 1) as nat) {
            None => None,
            Some((maps, p)) => match segment_map_decoding(s, p) {
                None => None,
                Some((m, q)) => Some((maps.push(m), q)),
            },
        }
    }
}

/// The header fields and segment maps in `s`.
pub open spec fn avar_decoding(s: Seq<u8>) -> Option<(u16, u16, u16, Seq<Seq<(i16, i16)>>)> {
    if s.len() < 8 {
        None
    } else {
        match segment_maps_decoding(s, 8, u16_at(s, 6) as nat) {
            None => None,
            Some((maps, _)) => Some((u16_at(s, 0), u16_at(s, 2), u16_at(s, 4), maps)),
        }
    }
}

impl avar {
    pub fn to_bytes(&self) -> (r: Vec<u8>)
        requires
            self.axisSegmentMaps@.len() <= 65535,
            forall|i: int|
                0 <= i < self.axisSegmentMaps@.len() ==> #[trigger] self.axisSegmentMaps@[i].axisValueMaps@.len()
                    <= 65535,
        ensures
            r@ == avar_encoding(*self),
    {
        let mut out: Vec<u8> = Vec::new();
        push_u16(&mut out, self.majorVersion);
        push_u16(&mut out, self.minorVersion);
        push_u16(&mut out, self.reserved);
        push_u16(&mut out, self.axisSegmentMaps.len() as u16);
        let ghost head = out@;
        let ghost mv = segment_maps_view(self.axisSegmentMaps@);
        let mut i: usize = 0;
        while i < self.axisSegmentMaps.len()
            invariant
                i <= self.axisSegmentMaps@.len(),
                mv == segment_maps_view(self.axisSegmentMaps@),
                forall|j: int|
                    0 <= j < self.axisSegmentMaps@.len() ==> #[trigger] self.axisSegmentMaps@[j].axisValueMaps@.len()
                        <= 65535,
                out@ == head + maps_bytes(mv.subrange(0, i as int)),
            decreases self.axisSegmentMaps.len() - i,
        {
            let map = &self.axisSegmentMaps[i];
            let ghost before = out@;
            push_u16(&mut out, map.axisValueMaps.len() as u16);
            let ghost mid = out@;
            let mut j: usize = 0;
            while j < map.axisValueMaps.len()
                invariant
                    j <= map.axisValueMaps@.len(),
                    out@ == mid + pairs_bytes(map.axisValueMaps@.subrange(0, j as int)),
                decreases map.axisValueMaps.len() - j,
            {
                let (a, b) = map.axisValueMaps[j];
                push_i16(&mut out, a);
                push_i16(&mut out, b);
                assert(map.axisValueMaps@.subrange(0, j + 1).drop_last() == map.axisValueMaps@.subrange(
                    0,
                    j as int,
                ));
                j = j + 1;
            }
            assert(map.axisValueMaps@.subrange(0, j as int) == map.axisValueMaps@);
            assert(mv.subrange(0, i + 1).drop_last() == mv.subrange(0, i as int));
            assert(mv[i as int] == map.axisValueMaps@);
            i = i + 1;
        }
        assert(mv.subrange(0, i as int) == mv);
        out
    }

    pub fn from_bytes(data: &[u8]) -> (r: Result<avar, DeserializationError>)
        ensures
            match r {
                Ok(a) => avar_decoding(data@) == Some(
                    (a.majorVersion, a.minorVersion, a.reserved, segment_maps_view(a.axisSegmentMaps@)),
                ),
                Err(_) => avar_decoding(data@) is None,
            },
    {
        if data.len() < 8 {
            return Err(DeserializationError::UnexpectedEof);
        }
        let major = read_u16(data, 0).unwrap();
        let minor = read_u16(data, 2).unwrap();
        let reserved = read_u16(data, 4).unwrap();
        let n = read_u16(data, 6).unwrap();
        let mut maps: Vec<SegmentMap> = Vec::new();
        let mut pos: usize = 8;
        let mut i: u16 = 0;
        while i < n
            invariant
                i <= n,
                n == u16_at(data@, 6),
                data@.len() >= 8,
                segment_maps_decoding(data@, 8, i as nat) == Some((segment_maps_view(maps@), pos as int)),
            decreases n - i,
        {
            let count = match read_u16(data, pos) {
                Some(c) => c,
                None => {
                    proof { lemma_maps_decoding_fails(data@, i as nat, n as nat); }
                    return Err(DeserializationError::UnexpectedEof);
                },
            };
            if (data.len() - pos - 2) / 4 < count as usize {
                proof { lemma_maps_decoding_fails(data@, i as nat, n as nat); }
                return Err(DeserializationError::UnexpectedEof);
            }
            let mut pairs: Vec<(i16, i16)> = Vec::new();
            let mut k: usize = 0;
            while k < count as usize
                invariant
                    k <= count,
                    count == u16_at(data@, pos as int),
                    pos + 2 + 4 * count <= data.len(),
                    pairs@ == Seq::new(
                        k as nat,
                        |j: int| (i16_at(data@, pos + 2 + 4 * j), i16_at(data@, pos + 4 + 4 * j)),
                    ),
                decreases count - k,
            {
                let a = read_i16(data, pos + 2 + 4 * k).unwrap();
                let b = read_i16(data, pos + 4 + 4 * k).unwrap();
                pairs.push((a, b));
                k = k + 1;
            }
            let ghost old_maps = maps@;
            maps.push(SegmentMap { axisValueMaps: pairs });
            assert(segment_maps_view(maps@) == segment_maps_view(old_maps).push(pairs@));
            pos = pos + 2 + 4 * count as usize;
            i = i + 1;
        }
        Ok(avar { majorVersion: major, minorVersion: minor, reserved, axisSegmentMaps: maps })
    }
}

/// Once reading the first `i` maps has ended where map `i` cannot be read, no longer prefix reads.
proof fn lemma_maps_decoding_fails(s: Seq<u8>, i: nat, n: nat)
    requires
        i < n,
        segment_maps_decoding(s, 8, i) is Some,
        segment_map_decoding(s, segment_maps_decoding(s, 8, i).unwrap().1) is None,
    ensures
        segment_maps_decoding(s, 8, n) is None,
    decreases n - i,
{
    if i + 1 < n {
        lemma_maps_decoding_none_extends(s, i + 1, n);
    }
}

proof fn lemma_maps_decoding_none_extends(s: Seq<u8>, i: nat, n: nat)
    requires
        i <= n,
        segment_maps_decoding(s, 8, i) is None,
    ensures
        segment_maps_decoding(s, 8, n) is None,
    decreases n - i,
{
    if i < n {
        lemma_maps_decoding_none_extends(s, i + 1, n);
    }
}

proof fn lemma_pairs_bytes_len(p: Seq<(i16, i16)>)
    ensures
        pairs_bytes(p).len() == 4 * p.len(),
    decreases p.len(),
{
    if p.len() > 0 {
        lemma_pairs_bytes_len(p.drop_last());
    }
}

/// Pair `k` of a list of pairs written between two byte strings reads back.
proof fn lemma_pairs_bytes_read(a: Seq<u8>, p: Seq<(i16, i16)>, b: Seq<u8>, k: int)
    requires
        0 <= k < p.len(),
    ensures
        i16_at(a + pairs_bytes(p) + b, a.len() + 4 * k) == p[k].0,
        i16_at(a + pairs_bytes(p) + b, a.len() + 4 * k + 2) == p[k].1,
    decreases p.len(),
{
    let q = p.drop_last();
    lemma_pairs_bytes_len(q);
    if k == p.len() - 1 {
        let x = p.last();
        lemma_read_bei16(a + pairs_bytes(q), x.0, bei16(x.1) + b);
        lemma_read_bei16(a + pairs_bytes(q) + bei16(x.0), x.1, b);
        assert(a + pairs_bytes(p) + b == (a + pairs_bytes(q)) + bei16(x.0) + (bei16(x.1) + b));
        assert(a + pairs_bytes(p) + b == (a + pairs_bytes(q) + bei16(x.0)) + bei16(x.1) + b);
    } else {
        let x = p.last();
        lemma_pairs_bytes_read(a, q, bei16(x.0) + bei16(x.1) + b, k);
        assert(a + pairs_bytes(p) + b == a + pairs_bytes(q) + (bei16(x.0) + bei16(x.1) + b));
    }
}

/// Segment maps written after a prefix, with anything after them, read back in full.
proof fn lemma_maps_bytes_read(a: Seq<u8>, m: Seq<Seq<(i16, i16)>>, b: Seq<u8>)
    requires
        forall|i: int| 0 <= i < m.len() ==> (#[trigger] m[i]).len() <= 65535,
    ensures
        segment_maps_decoding(a + maps_bytes(m) + b, a.len() as int, m.len()) == Some(
            (m, (a.len() + maps_bytes(m).len()) as int),
        ),
    decreases m.len(),
{
    if m.len() > 0 {
        let q = m.drop_last();
        let last = m.last();
        let tail = be16(last.len() as u16) + pairs_bytes(last) + b;
        assert(forall|i: int| 0 <= i < q.len() ==> q[i] == m[i]);
        lemma_maps_bytes_read(a, q, tail);
        let s = a + maps_bytes(m) + b;
        assert(a + maps_bytes(q) + tail == s);
        let p: int = (a.len() + maps_bytes(q).len()) as int;
        lemma_read_be16(a + maps_bytes(q), last.len() as u16, pairs_bytes(last) + b);
        assert(s == (a + maps_bytes(q)) + be16(last.len() as u16) + (pairs_bytes(last) + b));
        lemma_pairs_bytes_len(last);
        let pre = a + maps_bytes(q) + be16(last.len() as u16);
        assert(s == pre + pairs_bytes(last) + b);
        assert forall|k: int| 0 <= k < last.len() implies #[trigger] last[k] == (
            i16_at(s, p + 2 + 4 * k),
            i16_at(s, p + 4 + 4 * k),
        ) by {
            lemma_pairs_bytes_read(pre, last, b, k);
        }
        let dec = segment_map_decoding(s, p);
        assert(dec == Some((last, p + 2 + 4 * last.len())));
        assert(q.push(last) =~= m);
    }
}

/// What `to_bytes` writes, `from_bytes` reads back: the same header fields and
/// segment maps.
pub proof fn lemma_avar_roundtrip(a: avar)
    requires
        a.axisSegmentMaps@.len() <= 65535,
        forall|i: int| 0 <= i < a.axisSegmentMaps@.len() ==> #[trigger] a.axisSegmentMaps@[i].axisValueMaps@.len()
            <= 65535,
    ensures
        avar_decoding(avar_encoding(a)) == Some(
            (a.majorVersion, a.minorVersion, a.reserved, segment_maps_view(a.axisSegmentMaps@)),
        ),
{
    let m = segment_maps_view(a.axisSegmentMaps@);
    let h = be16(a.majorVersion) + be16(a.minorVersion) + be16(a.reserved) + be16(
        a.axisSegmentMaps@.len() as u16,
    );
    let s = avar_encoding(a);
    assert(forall|i: int| 0 <= i < m.len() ==> (#[trigger] m[i]) == a.axisSegmentMaps@[i].axisValueMaps@);
    lemma_maps_bytes_read(h, m, Seq::empty());
    assert(h + maps_bytes(m) + Seq::empty() == s);
    lemma_read_be16(Seq::empty(), a.majorVersion, be16(a.minorVersion) + be16(a.reserved) + be16(a.axisSegmentMaps@.len() as u16) + maps_bytes(m));
    assert(s == Seq::<u8>::empty() + be16(a.majorVersion) + (be16(a.minorVersion) + be16(a.reserved) + be16(a.axisSegmentMaps@.len() as u16) + maps_bytes(m)));
    lemma_read_be16(be16(a.majorVersion), a.minorVersion, be16(a.reserved) + be16(a.axisSegmentMaps@.len() as u16) + maps_bytes(m));
    assert(s == be16(a.majorVersion) + be16(a.minorVersion) + (be16(a.reserved) + be16(a.axisSegmentMaps@.len() as u16) + maps_bytes(m)));
    lemma_read_be16(be16(a.majorVersion) + be16(a.minorVersion), a.reserved, be16(a.axisSegmentMaps@.len() as u16) + maps_bytes(m));
    assert(s == be16(a.majorVersion) + be16(a.minorVersion) + be16(a.reserved) + (be16(a.axisSegmentMaps@.len() as u16) + maps_bytes(m)));
    lemma_read_be16(be16(a.majorVersion) + be16(a.minorVersion) + be16(a.reserved), a.axisSegmentMaps@.len() as u16, maps_bytes(m));
    assert(m.len() == a.axisSegmentMaps@.len());
}

} // verus!
