//! The `loca` (index to location) table.
use crate::binary::{
    be16_seq, be32_seq, push_u16, push_u32, read_u16_vec, read_u32_vec, u16_at, u32_at,
};
use vstd::prelude::*;

verus! {

/// Where each glyph's data starts in `glyf`; `None` for a glyph with no data.
#[derive(Debug, PartialEq, Clone)]
pub struct loca {
    pub indices: Vec<Option<u32>>,
}

/// The raw offsets in `s`: every whole 32-bit word, or every whole 16-bit word doubled.
pub open spec fn loca_raw_offsets(s: Seq<u8>, is_32bit: bool) -> Seq<u32> {
    if is_32bit {
        Seq::new(s.len() / 4, |k: int| u32_at(s, 4 * k))
    } else {
        Seq::new(s.len() / 2, |k: int| (u16_at(s, 2 * k) * 2) as u32)
    }
}

/// The glyph locations given raw offsets: a glyph whose offset equals the next
/// one has no data.
pub open spec fn loca_indices(raw: Seq<u32>) -> Seq<Option<u32>> {
    Seq::new(
        if raw.len() == 0 { 0 } else { (raw.len() - 1) as nat },
        |i: int| if raw[i] == raw[i + 1] { None } else { Some(raw[i]) },
    )
}

/// The bytes of a `loca` table holding `offsets`: 32-bit words, or halved 16-bit words.
pub open spec fn loca_encoding(offsets: Seq<u32>, is_32bit: bool) -> Seq<u8> {
    if is_32bit {
        be32_seq(offsets)
    } else {
        be16_seq(offsets.map_values(|x: u32| (x / 2) as u16))
    }
}

/// Reads a `loca` table; a trailing partial word is ignored.
pub fn from_bytes(data: &[u8], loca_is_32bit: bool) -> (r: loca)
    ensures
        r.indices@ == loca_indices(loca_raw_offsets(data@, loca_is_32bit)),
{
    let ghost raw_spec = loca_raw_offsets(data@, loca_is_32bit);
    let mut raw: Vec<u32> = Vec::new();
    if loca_is_32bit {
        raw = read_u32_vec(data, 0, data.len() / 4).unwrap();
    } else {
        let words = read_u16_vec(data, 0, data.len() / 2).unwrap();
        let mut k: usize = 0;
        while k < words.len()
            invariant
                !loca_is_32bit,
                raw_spec == loca_raw_offsets(data@, loca_is_32bit),
                words@.len() == data@.len() / 2,
                forall|j: int| 0 <= j < words@.len() ==> #[trigger] words@[j] == u16_at(data@, 2 * j),
                k <= words@.len(),
                raw@ == raw_spec.subrange(0, k as int),
            decreases words.len() - k,
        {
            raw.push((words[k] as u32) * 2);
            assert(raw_spec.subrange(0, k + 1) == raw_spec.subrange(0, k as int).push(raw_spec[k as int]));
            k = k + 1;
        }
    }
    assert(raw@ == raw_spec);
    let mut res = loca { indices: Vec::new() };
    if raw.len() == 0 {
        assert(loca_indices(raw@) == Seq::<Option<u32>>::empty());
        return res;
    }
    let mut i: usize = 0;
    while i + 1 < raw.len()
        invariant
            raw@ == raw_spec,
            raw@.len() >= 1,
            i + 1 <= raw@.len(),
            res.indices@ == loca_indices(raw_spec).subrange(0, i as int),
        decreases raw.len() - i,
    {
        if raw[i] == raw[i + 1] {
            res.indices.push(None);
        } else {
            res.indices.push(Some(raw[i]));
        }
        assert(loca_indices(raw_spec).subrange(0, i + 1) == loca_indices(raw_spec).subrange(0, i as int).push(
            loca_indices(raw_spec)[i as int],
        ));
        i = i + 1;
    }
    assert(loca_indices(raw_spec).subrange(0, i as int) == loca_indices(raw_spec));
    res
}

/// Writes glyph offsets as a `loca` table: 32-bit words, or 16-bit halves.
pub fn compile_loca(offsets: &[u32], is_32bit: bool) -> (r: Vec<u8>)
    ensures
        r@ == loca_encoding(offsets@, is_32bit),
{
    let mut data: Vec<u8> = Vec::new();
    let mut i: usize = 0;
    let ghost halves = offsets@.map_values(|x: u32| (x / 2) as u16);
    while i < offsets.len()
        invariant
            i <= offsets@.len(),
            halves == offsets@.map_values(|x: u32| (x / 2) as u16),
            data@ == (if is_32bit {
                be32_seq(offsets@.subrange(0, i as int))
            } else {
                be16_seq(halves.subrange(0, i as int))
            }),
        decreases offsets.len() - i,
    {
        if is_32bit {
            push_u32(&mut data, offsets[i]);
            assert(offsets@.subrange(0, i + 1).drop_last() == offsets@.subrange(0, i as int));
        } else {
            push_u16(&mut data, (offsets[i] / 2) as u16);
            assert(halves.subrange(0, i + 1).drop_last() == halves.subrange(0, i as int));
        }
        i = i + 1;
    }
    assert(offsets@.subrange(0, offsets@.len() as int) == offsets@);
    assert(halves.subrange(0, halves.len() as int) == halves);
    data
}

/// Offsets written to a `loca` table read back, in 32-bit form always and in
/// 16-bit form when they are even and below 131072.
pub proof fn lemma_loca_roundtrip(offsets: Seq<u32>, is_32bit: bool)
    requires
        !is_32bit ==> forall|i: int| 0 <= i < offsets.len() ==> #[trigger] offsets[i] % 2 == 0 && offsets[i] < 131072,
    ensures
        loca_raw_offsets(loca_encoding(offsets, is_32bit), is_32bit) == offsets,
{
    let s = loca_encoding(offsets, is_32bit);
    if is_32bit {
        crate::binary::lemma_be32_seq_len(offsets);
        assert forall|k: int| 0 <= k < offsets.len() implies #[trigger] u32_at(s, 4 * k) == offsets[k] by {
            crate::binary::lemma_be32_seq_index(offsets, k);
        }
    } else {
        let h = offsets.map_values(|x: u32| (x / 2) as u16);
        crate::binary::lemma_be16_seq_len(h);
        assert forall|k: int| 0 <= k < offsets.len() implies #[trigger] (u16_at(s, 2 * k) * 2) as u32 == offsets[k] by {
            crate::binary::lemma_be16_seq_index(h, k);
        }
    }
    assert(loca_raw_offsets(s, is_32bit) == offsets);
}

} // verus!
