//! The `gasp` (grid-fitting and scan-conversion procedure) table.
use crate::binary::{
    be16, be16_seq, lemma_read_be16, lemma_read_be16_seq, push_u16, push_u16_slice, read_u16,
    read_u16_vec, u16_at, DeserializationError,
};
use vstd::prelude::*;

verus! {

/// Use gridfitting
pub const GASP_GRIDFIT: u16 = 0x0001u16;

/// Use grayscale rendering
pub const GASP_DOGRAY: u16 = 0x0002u16;

/// Use gridfitting with ClearType symmetric smoothing
pub const GASP_SYMMETRIC_GRIDFIT: u16 = 0x0004u16;

/// Use smoothing along multiple axes with ClearType®
pub const GASP_SYMMETRIC_SMOOTHING: u16 = 0x0008u16;

/// How to render glyphs up to a given size.
#[derive(Debug, PartialEq, Clone, Copy)]
pub struct GaspRecord {
    pub rangeMaxPPEM: u16,
    /// A set of the `GASP_` flags.
    pub rangeGaspBehavior: u16,
}

#[derive(Debug, PartialEq, Clone)]
pub struct gasp {
    pub version: u16,
    pub gaspRanges: Vec<GaspRecord>,
}

/// The two words of each record, in order.
pub open spec fn gasp_record_words(r: Seq<GaspRecord>) -> Seq<u16> {
    Seq::new(
        2 * r.len(),
        |k: int| if k % 2 == 0 { r[k / 2].rangeMaxPPEM } else { r[k / 2].rangeGaspBehavior },
    )
}

pub open spec fn gasp_encoding(g: gasp) -> Seq<u8> {
    be16(g.version) + be16(g.gaspRanges@.len() as u16) + be16_seq(gasp_record_words(g.gaspRanges@))
}

pub open spec fn gasp_decoding(s: Seq<u8>) -> Option<(u16, Seq<GaspRecord>)> {
    if s.len() < 4 || s.len() < 4 + 4 * u16_at(s, 2) {
        None
    } else {
        Some(
            (
                u16_at(s, 0),
                Seq::new(
                    u16_at(s, 2) as nat,
                    |k: int| GaspRecord { rangeMaxPPEM: u16_at(s, 4 + 4 * k), rangeGaspBehavior: u16_at(s, 6 + 4 * k) },
                ),
            ),
        )
    }
}

impl gasp {
    pub fn to_bytes(&self) -> (r: Vec<u8>)
        requires
            self.gaspRanges@.len() <= 65535,
        ensures
            r@ == gasp_encoding(*self),
    {
        let mut out: Vec<u8> = Vec::new();
        push_u16(&mut out, self.version);
        push_u16(&mut out, self.gaspRanges.len() as u16);
        let mut words: Vec<u16> = Vec::new();
        let mut i: usize = 0;
        while i < self.gaspRanges.len()
            invariant
                i <= self.gaspRanges@.len(),
                self.gaspRanges@.len() <= 65535,
                words@ == gasp_record_words(self.gaspRanges@.subrange(0, i as int)),
            decreases self.gaspRanges.len() - i,
        {
            words.push(self.gaspRanges[i].rangeMaxPPEM);
            words.push(self.gaspRanges[i].rangeGaspBehavior);
            assert(words@ == gasp_record_words(self.gaspRanges@.subrange(0, i + 1)));
            i = i + 1;
        }
        assert(self.gaspRanges@.subrange(0, i as int) == self.gaspRanges@);
        push_u16_slice(&mut out, words.as_slice());
        out
    }

    pub fn from_bytes(data: &[u8]) -> (r: Result<gasp, DeserializationError>)
        ensures
            match r {
                Ok(g) => gasp_decoding(data@) == Some((g.version, g.gaspRanges@)),
                Err(_) => gasp_decoding(data@) is None,
            },
    {
        let version = match read_u16(data, 0) {
            Some(v) => v,
            None => return Err(DeserializationError::UnexpectedEof),
        };
        let count = match read_u16(data, 2) {
            Some(v) => v,
            None => return Err(DeserializationError::UnexpectedEof),
        };
        let words = match read_u16_vec(data, 4, 2 * count as usize) {
            Some(w) => w,
            None => return Err(DeserializationError::UnexpectedEof),
        };
        let ghost expected = gasp_decoding(data@).unwrap().1;
        let mut ranges: Vec<GaspRecord> = Vec::new();
        let mut k: usize = 0;
        while k < count as usize
            invariant
                k <= count,
                words@.len() == 2 * count,
                4 + 4 * count <= data@.len(),
                count == u16_at(data@, 2),
                forall|j: int| 0 <= j < 2 * count ==> #[trigger] words@[j] == u16_at(data@, 4 + 2 * j),
                expected == gasp_decoding(data@).unwrap().1,
                ranges@ == expected.subrange(0, k as int),
            decreases count - k,
        {
            ranges.push(GaspRecord { rangeMaxPPEM: words[2 * k], rangeGaspBehavior: words[2 * k + 1] });
            assert(expected.subrange(0, k + 1) == expected.subrange(0, k as int).push(expected[k as int]));
            k = k + 1;
        }
        assert(expected.subrange(0, k as int) == expected);
        Ok(gasp { version, gaspRanges: ranges })
    }
}

/// Reading back a written `gasp` table gives the same table.
pub proof fn lemma_gasp_roundtrip(g: gasp)
    requires
        g.gaspRanges@.len() <= 65535,
    ensures
        gasp_decoding(gasp_encoding(g)) == Some((g.version, g.gaspRanges@)),
{
    let r = g.gaspRanges@;
    let w = gasp_record_words(r);
    let s = gasp_encoding(g);
    let e = Seq::<u8>::empty();
    let c = be16(r.len() as u16);
    lemma_read_be16(e, g.version, c + be16_seq(w));
    assert(e + be16(g.version) + (c + be16_seq(w)) == s);
    lemma_read_be16(be16(g.version), r.len() as u16, be16_seq(w));
    assert forall|j: int| 0 <= j < w.len() implies #[trigger] u16_at(s, 4 + 2 * j) == w[j] by {
        lemma_read_be16_seq(be16(g.version) + c, w, e, j);
        assert(be16(g.version) + c + be16_seq(w) + e == s);
    }
    crate::binary::lemma_be16_seq_len(w);
    assert(s.len() == 4 + 4 * r.len());
    assert(u16_at(s, 2) == r.len());
    let d = gasp_decoding(s).unwrap().1;
    assert forall|k: int| 0 <= k < r.len() implies #[trigger] d[k] == r[k] by {
        assert(u16_at(s, 4 + 2 * (2 * k)) == w[2 * k]);
        assert(u16_at(s, 4 + 2 * (2 * k + 1)) == w[2 * k + 1]);
        assert(w[2 * k] == r[k].rangeMaxPPEM);
        assert(w[2 * k + 1] == r[k].rangeGaspBehavior);
    }
    assert(d == r);
}

} // verus!
