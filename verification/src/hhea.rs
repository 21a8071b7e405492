//! The `hhea` (horizontal header) table.
use crate::binary::{
    be16_seq, i16_bits, i16_from_bits, i16_of_bits, i16_to_bits, lemma_be16_seq_index,
    lemma_be16_seq_len, lemma_i16_bits_roundtrip, push_u16_slice, read_u16_vec, u16_at, DeserializationError,
};
use vstd::prelude::*;

verus! {

/// The horizontal header table.
#[derive(Debug, PartialEq, Clone, Copy)]
pub struct hhea {
    pub majorVersion: u16,
    pub minorVersion: u16,
    pub ascender: i16,
    pub descender: i16,
    pub lineGap: i16,
    pub advanceWidthMax: u16,
    pub minLeftSideBearing: i16,
    pub minRightSideBearing: i16,
    pub xMaxExtent: i16,
    pub caretSlopeRise: i16,
    pub caretSlopeRun: i16,
    pub caretOffset: i16,
    pub reserved0: i16,
    pub reserved1: i16,
    pub reserved2: i16,
    pub reserved3: i16,
    pub metricDataFormat: i16,
    pub numberOfHMetrics: u16,
}

/// The eighteen 16-bit fields of `h`, in table order.
pub open spec fn hhea_words(h: hhea) -> Seq<u16> {
    seq![
        h.majorVersion,
        h.minorVersion,
        i16_bits(h.ascender),
        i16_bits(h.descender),
        i16_bits(h.lineGap),
        h.advanceWidthMax,
        i16_bits(h.minLeftSideBearing),
        i16_bits(h.minRightSideBearing),
        i16_bits(h.xMaxExtent),
        i16_bits(h.caretSlopeRise),
        i16_bits(h.caretSlopeRun),
        i16_bits(h.caretOffset),
        i16_bits(h.reserved0),
        i16_bits(h.reserved1),
        i16_bits(h.reserved2),
        i16_bits(h.reserved3),
        i16_bits(h.metricDataFormat),
        h.numberOfHMetrics,
    ]
}

/// The table whose fields are the eighteen words `w`.
pub open spec fn hhea_from_words(w: Seq<u16>) -> hhea {
    hhea {
        majorVersion: w[0],
        minorVersion: w[1],
        ascender: i16_of_bits(w[2]),
        descender: i16_of_bits(w[3]),
        lineGap: i16_of_bits(w[4]),
        advanceWidthMax: w[5],
        minLeftSideBearing: i16_of_bits(w[6]),
        minRightSideBearing: i16_of_bits(w[7]),
        xMaxExtent: i16_of_bits(w[8]),
        caretSlopeRise: i16_of_bits(w[9]),
        caretSlopeRun: i16_of_bits(w[10]),
        caretOffset: i16_of_bits(w[11]),
        reserved0: i16_of_bits(w[12]),
        reserved1: i16_of_bits(w[13]),
        reserved2: i16_of_bits(w[14]),
        reserved3: i16_of_bits(w[15]),
        metricDataFormat: i16_of_bits(w[16]),
        numberOfHMetrics: w[17],
    }
}

/// The bytes of `h`.
pub open spec fn hhea_encoding(h: hhea) -> Seq<u8> {
    be16_seq(hhea_words(h))
}

/// The table stored in the first 36 bytes of `s`.
pub open spec fn hhea_decoding(s: Seq<u8>) -> Option<hhea> {
    if s.len() < 36 {
        None
    } else {
        Some(hhea_from_words(Seq::new(18, |k: int| u16_at(s, 2 * k))))
    }
}

impl hhea {
    pub fn to_bytes(&self) -> (r: Vec<u8>)
        ensures
            r@ == hhea_encoding(*self),
    {
        let words: Vec<u16> = vec![
            self.majorVersion,
            self.minorVersion,
            i16_to_bits(self.ascender),
            i16_to_bits(self.descender),
            i16_to_bits(self.lineGap),
            self.advanceWidthMax,
            i16_to_bits(self.minLeftSideBearing),
            i16_to_bits(self.minRightSideBearing),
            i16_to_bits(self.xMaxExtent),
            i16_to_bits(self.caretSlopeRise),
            i16_to_bits(self.caretSlopeRun),
            i16_to_bits(self.caretOffset),
            i16_to_bits(self.reserved0),
            i16_to_bits(self.reserved1),
            i16_to_bits(self.reserved2),
            i16_to_bits(self.reserved3),
            i16_to_bits(self.metricDataFormat),
            self.numberOfHMetrics,
        ];
        assert(words@ == hhea_words(*self));
        let mut out: Vec<u8> = Vec::new();
        push_u16_slice(&mut out, words.as_slice());
        assert(out@ == be16_seq(words@));
        out
    }

    pub fn from_bytes(data: &[u8]) -> (r: Result<hhea, DeserializationError>)
        ensures
            match r {
                Ok(h) => hhea_decoding(data@) == Some(h),
                Err(_) => hhea_decoding(data@) is None,
            },
    {
        let w = match read_u16_vec(data, 0, 18) {
            Some(w) => w,
            None => return Err(DeserializationError::UnexpectedEof),
        };
        assert(w@ == Seq::new(18, |k: int| u16_at(data@, 2 * k)));
        Ok(hhea {
            majorVersion: w[0],
            minorVersion: w[1],
            ascender: i16_from_bits(w[2]),
            descender: i16_from_bits(w[3]),
            lineGap: i16_from_bits(w[4]),
            advanceWidthMax: w[5],
            minLeftSideBearing: i16_from_bits(w[6]),
            minRightSideBearing: i16_from_bits(w[7]),
            xMaxExtent: i16_from_bits(w[8]),
            caretSlopeRise: i16_from_bits(w[9]),
            caretSlopeRun: i16_from_bits(w[10]),
            caretOffset: i16_from_bits(w[11]),
            reserved0: i16_from_bits(w[12]),
            reserved1: i16_from_bits(w[13]),
            reserved2: i16_from_bits(w[14]),
            reserved3: i16_from_bits(w[15]),
            metricDataFormat: i16_from_bits(w[16]),
            numberOfHMetrics: w[17],
        })
    }
}

/// Reading back a written `hhea` table gives the same table.
#[verifier::spinoff_prover]
pub proof fn lemma_hhea_roundtrip(h: hhea)
    ensures
        hhea_decoding(hhea_encoding(h)) == Some(h),
{
    let w = hhea_words(h);
    lemma_be16_seq_len(w);
    let s = hhea_encoding(h);
    assert forall|k: int| 0 <= k < 18 implies #[trigger] u16_at(s, 2 * k) == w[k] by {
        lemma_be16_seq_index(w, k);
    }
    assert(Seq::new(18, |k: int| u16_at(s, 2 * k)) =~= w);
    lemma_i16_bits_roundtrip(h.ascender);
    lemma_i16_bits_roundtrip(h.descender);
    lemma_i16_bits_roundtrip(h.lineGap);
    lemma_i16_bits_roundtrip(h.minLeftSideBearing);
    lemma_i16_bits_roundtrip(h.minRightSideBearing);
    lemma_i16_bits_roundtrip(h.xMaxExtent);
    lemma_i16_bits_roundtrip(h.caretSlopeRise);
    lemma_i16_bits_roundtrip(h.caretSlopeRun);
    lemma_i16_bits_roundtrip(h.caretOffset);
    lemma_i16_bits_roundtrip(h.reserved0);
    lemma_i16_bits_roundtrip(h.reserved1);
    lemma_i16_bits_roundtrip(h.reserved2);
    lemma_i16_bits_roundtrip(h.reserved3);
    lemma_i16_bits_roundtrip(h.metricDataFormat);
    assert(hhea_from_words(w) == h);
}

} // verus!
