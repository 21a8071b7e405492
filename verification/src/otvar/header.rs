//! Tuple variation headers, which locate a set of deltas in the design space.
//! Coordinates are F2DOT14 values held as their 16-bit patterns.
use crate::binary::{
    be16, bei16_seq, i16_at, lemma_bei16_seq_len, lemma_read_be16, lemma_read_bei16_seq, push_i16_slice,
    push_u16, read_i16_vec, read_u16, u16_at, DeserializationError,
};
use vstd::prelude::*;

verus! {

/// This header contains its own peak tuple (rather than a shared tuple).
pub const EMBEDDED_PEAK_TUPLE: u16 = 0x8000u16;

/// This header contains a start tuple and an end tuple.
pub const INTERMEDIATE_REGION: u16 = 0x4000u16;

/// This header has its own set of point numbers (rather than shared points).
pub const PRIVATE_POINT_NUMBERS: u16 = 0x2000u16;

/// Masks off the flags to reveal the shared tuple index.
pub const TUPLE_INDEX_MASK: u16 = 0x0FFFu16;

/// A tuple variation header.
#[derive(Debug, PartialEq, Clone)]
pub struct TupleVariationHeader {
    /// Size in bytes of the serialized data after the header and tuples,
    /// including the private points but not the shared points.
    pub size: u16,
    /// The flags word as stored, including the shared tuple index.
    pub flags: u16,
    /// The index into the store's shared tuples, used where the header does
    /// not hold its own peak tuple.
    pub sharedTupleIndex: u16,
    /// The location at which this set of deltas has maximum effect.
    pub peakTuple: Option<Vec<i16>>,
    /// The start location for this delta region.
    pub startTuple: Option<Vec<i16>>,
    /// The end location for this delta region.
    pub endTuple: Option<Vec<i16>>,
}

/// What a tuple variation header holds, in mathematical form.
pub struct TupleHeaderData {
    pub size: u16,
    pub flags: u16,
    pub shared_tuple_index: u16,
    pub peak: Option<Seq<i16>>,
    pub start: Option<Seq<i16>>,
    pub end: Option<Seq<i16>>,
}

pub open spec fn tuple_view(t: Option<Vec<i16>>) -> Option<Seq<i16>> {
    match t {
        Some(v) => Some(v@),
        None => None,
    }
}

impl View for TupleVariationHeader {
    type V = TupleHeaderData;

    open spec fn view(&self) -> TupleHeaderData {
        TupleHeaderData {
            size: self.size,
            flags: self.flags,
            shared_tuple_index: self.sharedTupleIndex,
            peak: tuple_view(self.peakTuple),
            start: tuple_view(self.startTuple),
            end: tuple_view(self.endTuple),
        }
    }
}

/// Whether the flags word `f` has the flag `bit`.
pub open spec fn has_flag(f: u16, bit: u16) -> bool {
    f & bit != 0
}

/// The `n` coordinates of a tuple stored at `pos`.
pub open spec fn tuple_at(s: Seq<u8>, pos: int, n: int) -> Seq<i16> {
    Seq::new(n as nat, |k: int| i16_at(s, pos + 2 * k))
}

/// The header stored at `pos` for `axis_count` axes, and the position after it.
pub open spec fn tvh_decoding(s: Seq<u8>, pos: int, axis_count: int) -> Option<(TupleHeaderData, int)> {
    if pos < 0 || pos + 4 > s.len() {
        None
    } else {
        let flags = u16_at(s, pos + 2);
        let peak_len = if has_flag(flags, EMBEDDED_PEAK_TUPLE) { 2 * axis_count } else { 0 };
        let region_len = if has_flag(flags, INTERMEDIATE_REGION) { 4 * axis_count } else { 0 };
        let p = pos + 4;
        if p + peak_len + region_len > s.len() {
            None
        } else {
            Some(
                (
                    TupleHeaderData {
                        size: u16_at(s, pos),
                        flags,
                        shared_tuple_index: flags & TUPLE_INDEX_MASK,
                        peak: if has_flag(flags, EMBEDDED_PEAK_TUPLE) {
                            Some(tuple_at(s, p, axis_count))
                        } else {
                            None
                        },
                        start: if has_flag(flags, INTERMEDIATE_REGION) {
                            Some(tuple_at(s, p + peak_len, axis_count))
                        } else {
                            None
                        },
                        end: if has_flag(flags, INTERMEDIATE_REGION) {
                            Some(tuple_at(s, p + peak_len + 2 * axis_count, axis_count))
                        } else {
                            None
                        },
                    },
                    p + peak_len + region_len,
                ),
            )
        }
    }
}

/// The bytes of a tuple that a header writes where its flag is set.
pub open spec fn tuple_bytes(t: Option<Seq<i16>>) -> Seq<u8> {
    match t {
        Some(v) => bei16_seq(v),
        None => Seq::empty(),
    }
}

/// The bytes of a header: its size, the shared tuple index merged into the
/// flags, the peak tuple if the header embeds one, and the start and end tuples
/// if it holds an intermediate region.
pub open spec fn tvh_encoding(h: TupleHeaderData) -> Seq<u8> {
    be16(h.size) + be16(h.shared_tuple_index | h.flags) + (if has_flag(h.flags, EMBEDDED_PEAK_TUPLE) {
        tuple_bytes(h.peak)
    } else {
        Seq::empty()
    }) + (if has_flag(h.flags, INTERMEDIATE_REGION) {
        tuple_bytes(h.start) + tuple_bytes(h.end)
    } else {
        Seq::empty()
    })
}

/// A header that can be written: the tuples its flags announce are present.
pub open spec fn tvh_writable(h: TupleHeaderData) -> bool {
    &&& has_flag(h.flags, EMBEDDED_PEAK_TUPLE) ==> h.peak is Some
    &&& has_flag(h.flags, INTERMEDIATE_REGION) ==> h.start is Some && h.end is Some
}

fn read_tuple(data: &[u8], pos: usize, n: u16) -> (r: Option<Vec<i16>>)
    ensures
        match r {
            Some(v) => pos + 2 * n <= data@.len() && v@ == tuple_at(data@, pos as int, n as int),
            None => pos + 2 * n > data@.len(),
        },
{
    match read_i16_vec(data, pos, n as usize) {
        Some(v) => {
            assert(v@ =~= tuple_at(data@, pos as int, n as int));
            Some(v)
        },
        None => None,
    }
}

impl TupleVariationHeader {
    /// Reads a header for `axis_count` axes starting at `pos`; returns it and the
    /// position after it.
    pub fn from_bytes(data: &[u8], pos: usize, axis_count: u16) -> (r: Result<
        (TupleVariationHeader, usize),
        DeserializationError,
    >)
        ensures
            match r {
                Ok((h, next)) => tvh_decoding(data@, pos as int, axis_count as int) == Some((h@, next as int)),
                Err(_) => tvh_decoding(data@, pos as int, axis_count as int) is None,
            },
    {
        let size = match read_u16(data, pos) {
            Some(v) => v,
            None => return Err(DeserializationError::UnexpectedEof),
        };
        assert(pos + 2 <= data.len());
        let flags = match read_u16(data, pos + 2) {
            Some(v) => v,
            None => return Err(DeserializationError::UnexpectedEof),
        };
        assert(pos + 4 <= data.len());
        let mut p = pos + 4;
        let peakTuple = if flags & EMBEDDED_PEAK_TUPLE != 0 {
            match read_tuple(data, p, axis_count) {
                Some(t) => {
                    p = p + 2 * axis_count as usize;
                    Some(t)
                },
                None => return Err(DeserializationError::UnexpectedEof),
            }
        } else {
            None
        };
        let (startTuple, endTuple) = if flags & INTERMEDIATE_REGION != 0 {
            let start = match read_tuple(data, p, axis_count) {
                Some(t) => t,
                None => return Err(DeserializationError::UnexpectedEof),
            };
            let end = match read_tuple(data, p + 2 * axis_count as usize, axis_count) {
                Some(t) => t,
                None => return Err(DeserializationError::UnexpectedEof),
            };
            p = p + 4 * axis_count as usize;
            (Some(start), Some(end))
        } else {
            (None, None)
        };
        let h = TupleVariationHeader {
            size,
            flags,
            sharedTupleIndex: flags & TUPLE_INDEX_MASK,
            peakTuple,
            startTuple,
            endTuple,
        };
        Ok((h, p))
    }

    /// The header in binary form.
    pub fn to_bytes(&self) -> (r: Vec<u8>)
        requires
            tvh_writable(self@),
        ensures
            r@ == tvh_encoding(self@),
    {
        let mut out: Vec<u8> = Vec::new();
        push_u16(&mut out, self.size);
        push_u16(&mut out, self.sharedTupleIndex | self.flags);
        let ghost head = out@;
        if self.flags & EMBEDDED_PEAK_TUPLE != 0 {
            match &self.peakTuple {
                Some(t) => push_i16_slice(&mut out, t.as_slice()),
                None => {},
            }
        }
        let ghost mid = out@;
        if self.flags & INTERMEDIATE_REGION != 0 {
            match &self.startTuple {
                Some(t) => push_i16_slice(&mut out, t.as_slice()),
                None => {},
            }
            match &self.endTuple {
                Some(t) => push_i16_slice(&mut out, t.as_slice()),
                None => {},
            }
        }
        proof {
            let h = self@;
            let peak_part = if has_flag(h.flags, EMBEDDED_PEAK_TUPLE) { tuple_bytes(h.peak) } else { Seq::empty() };
            let region_part = if has_flag(h.flags, INTERMEDIATE_REGION) {
                tuple_bytes(h.start) + tuple_bytes(h.end)
            } else {
                Seq::empty()
            };
            assert(mid == head + peak_part);
            assert(out@ == mid + region_part);
            assert(out@ =~= tvh_encoding(h));
        }
        out
    }
}

/// A tuple of `n` coordinates written between two byte strings reads back.
proof fn lemma_tuple_read(a: Seq<u8>, t: Seq<i16>, b: Seq<u8>)
    ensures
        tuple_at(a + bei16_seq(t) + b, a.len() as int, t.len() as int) == t,
        (a + bei16_seq(t) + b).len() == a.len() + 2 * t.len() + b.len(),
{
    lemma_bei16_seq_len(t);
    let s = a + bei16_seq(t) + b;
    assert forall|k: int| 0 <= k < t.len() implies #[trigger] tuple_at(s, a.len() as int, t.len() as int)[k]
        == t[k] by {
        lemma_read_bei16_seq(a, t, b, k);
    }
    assert(tuple_at(s, a.len() as int, t.len() as int) =~= t);
}

/// A header whose shared tuple index is the index in its flags, and whose tuples
/// are present exactly as its flags announce, each with one coordinate per axis.
pub open spec fn tvh_canonical(h: TupleHeaderData, axis_count: int) -> bool {
    &&& h.shared_tuple_index == h.flags & TUPLE_INDEX_MASK
    &&& (h.peak is Some) == has_flag(h.flags, EMBEDDED_PEAK_TUPLE)
    &&& (h.start is Some) == has_flag(h.flags, INTERMEDIATE_REGION)
    &&& (h.end is Some) == has_flag(h.flags, INTERMEDIATE_REGION)
    &&& h.peak matches Some(t) ==> t.len() == axis_count
    &&& h.start matches Some(t) ==> t.len() == axis_count
    &&& h.end matches Some(t) ==> t.len() == axis_count
}

/// What `to_bytes` writes, `from_bytes` reads back, whatever follows it.
#[verifier::spinoff_prover]
#[verifier::rlimit(60)]
pub proof fn lemma_tvh_roundtrip(h: TupleHeaderData, axis_count: u16, rest: Seq<u8>)
    requires
        tvh_canonical(h, axis_count as int),
    ensures
        tvh_decoding(tvh_encoding(h) + rest, 0, axis_count as int) == Some((h, tvh_encoding(h).len() as int)),
{
    let f = h.flags;
    let i = h.shared_tuple_index;
    assert((f & 0x0FFFu16) | f == f) by (bit_vector);
    let n = axis_count as int;
    let peak_part = if has_flag(f, EMBEDDED_PEAK_TUPLE) { tuple_bytes(h.peak) } else { Seq::empty() };
    let start_part = if has_flag(f, INTERMEDIATE_REGION) { tuple_bytes(h.start) } else { Seq::empty() };
    let end_part = if has_flag(f, INTERMEDIATE_REGION) { tuple_bytes(h.end) } else { Seq::empty() };
    let enc = tvh_encoding(h);
    let s = enc + rest;
    assert(enc =~= be16(h.size) + be16(f) + peak_part + start_part + end_part);
    lemma_read_be16(Seq::empty(), h.size, be16(f) + peak_part + start_part + end_part + rest);
    assert(s =~= Seq::<u8>::empty() + be16(h.size) + (be16(f) + peak_part + start_part + end_part + rest));
    lemma_read_be16(be16(h.size), f, peak_part + start_part + end_part + rest);
    assert(s =~= be16(h.size) + be16(f) + (peak_part + start_part + end_part + rest));
    let hd = be16(h.size) + be16(f);
    if let Some(t) = h.peak {
        lemma_tuple_read(hd, t, start_part + end_part + rest);
        assert(s =~= hd + bei16_seq(t) + (start_part + end_part + rest));
    }
    lemma_bei16_seq_len(if let Some(t) = h.peak { t } else { Seq::empty() });
    let hp = hd + peak_part;
    if let Some(t) = h.start {
        lemma_tuple_read(hp, t, end_part + rest);
        assert(s =~= hp + bei16_seq(t) + (end_part + rest));
    }
    lemma_bei16_seq_len(if let Some(t) = h.start { t } else { Seq::empty() });
    let hs = hp + start_part;
    if let Some(t) = h.end {
        lemma_tuple_read(hs, t, rest);
        assert(s =~= hs + bei16_seq(t) + rest);
    }
    lemma_bei16_seq_len(if let Some(t) = h.end { t } else { Seq::empty() });
    let d = tvh_decoding(s, 0, n);
    assert(d is Some);
    let (dh, dp) = d.unwrap();
    assert(dh == h);
}

} // verus!
