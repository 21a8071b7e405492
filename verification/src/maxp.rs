//! The `maxp` (maximum profile) table.
use crate::binary::{
    be16_seq, be32, lemma_be16_seq_index, lemma_be16_seq_len, lemma_read_be32, push_u16_slice,
    push_u32, read_u16_vec, read_u32, u16_at, u32_at, DeserializationError,
};
use vstd::prelude::*;

verus! {

/// The version 0.5 maximum profile: only the glyph count.
#[derive(Debug, PartialEq, Clone, Copy)]
pub struct maxp05 {
    pub numGlyphs: u16,
}

/// The version 1.0 maximum profile.
#[derive(Debug, PartialEq, Clone, Copy)]
pub struct maxp10 {
    pub numGlyphs: u16,
    pub maxPoints: u16,
    pub maxContours: u16,
    pub maxCompositePoints: u16,
    pub maxCompositeContours: u16,
    pub maxZones: u16,
    pub maxTwilightPoints: u16,
    pub maxStorage: u16,
    pub maxFunctionDefs: u16,
    pub maxInstructionDefs: u16,
    pub maxStackElements: u16,
    pub maxSizeOfInstructions: u16,
    pub maxComponentElements: u16,
    pub maxComponentDepth: u16,
}

#[derive(Debug, PartialEq, Clone, Copy)]
pub enum MaxpVariant {
    Maxp05(maxp05),
    Maxp10(maxp10),
}

/// The maximum profile table. `version` is held as its 32-bit "Version16Dot16"
/// pattern: 0x00005000 for 0.5 and 0x00010000 for 1.0.
#[derive(Debug, PartialEq, Clone, Copy)]
pub struct maxp {
    pub version: u32,
    pub table: MaxpVariant,
}

pub const MAXP_VERSION_0_5: u32 = 0x00005000u32;

pub const MAXP_VERSION_1_0: u32 = 0x00010000u32;

pub open spec fn maxp10_words(t: maxp10) -> Seq<u16> {
    seq![
        t.numGlyphs,
        t.maxPoints,
        t.maxContours,
        t.maxCompositePoints,
        t.maxCompositeContours,
        t.maxZones,
        t.maxTwilightPoints,
        t.maxStorage,
        t.maxFunctionDefs,
        t.maxInstructionDefs,
        t.maxStackElements,
        t.maxSizeOfInstructions,
        t.maxComponentElements,
        t.maxComponentDepth,
    ]
}

pub open spec fn maxp10_from_words(w: Seq<u16>) -> maxp10 {
    maxp10 {
        numGlyphs: w[0],
        maxPoints: w[1],
        maxContours: w[2],
        maxCompositePoints: w[3],
        maxCompositeContours: w[4],
        maxZones: w[5],
        maxTwilightPoints: w[6],
        maxStorage: w[7],
        maxFunctionDefs: w[8],
        maxInstructionDefs: w[9],
        maxStackElements: w[10],
        maxSizeOfInstructions: w[11],
        maxComponentElements: w[12],
        maxComponentDepth: w[13],
    }
}

/// The bytes of `m`: the version, then the fields of its variant.
pub open spec fn maxp_encoding(m: maxp) -> Seq<u8> {
    be32(m.version) + match m.table {
        MaxpVariant::Maxp05(t) => be16_seq(seq![t.numGlyphs]),
        MaxpVariant::Maxp10(t) => be16_seq(maxp10_words(t)),
    }
}

/// The table in `s`: version 0.5 or 1.0, anything else refused.
pub open spec fn maxp_decoding(s: Seq<u8>) -> Option<maxp> {
    if s.len() < 4 {
        None
    } else if u32_at(s, 0) == MAXP_VERSION_0_5 {
        if s.len() < 6 {
            None
        } else {
            Some(maxp { version: MAXP_VERSION_0_5, table: MaxpVariant::Maxp05(maxp05 { numGlyphs: u16_at(s, 4) }) })
        }
    } else if u32_at(s, 0) == MAXP_VERSION_1_0 {
        if s.len() < 32 {
            None
        } else {
            Some(
                maxp {
                    version: MAXP_VERSION_1_0,
                    table: MaxpVariant::Maxp10(
                        maxp10_from_words(Seq::new(14, |k: int| u16_at(s, 4 + 2 * k))),
                    ),
                },
            )
        }
    } else {
        None
    }
}

impl maxp {
    /// The number of glyphs in the font.
    pub fn num_glyphs(&self) -> (r: u16)
        ensures
            r == match self.table {
                MaxpVariant::Maxp05(s) => s.numGlyphs,
                MaxpVariant::Maxp10(s) => s.numGlyphs,
            },
    {
        match &self.table {
            MaxpVariant::Maxp05(s) => s.numGlyphs,
            MaxpVariant::Maxp10(s) => s.numGlyphs,
        }
    }

    /// Sets the number of glyphs, keeping every other field.
    pub fn set_num_glyphs(&mut self, n: u16)
        ensures
            final(self).version == old(self).version,
            match (final(self).table, old(self).table) {
                (MaxpVariant::Maxp05(a), MaxpVariant::Maxp05(_)) => a.numGlyphs == n,
                (MaxpVariant::Maxp10(a), MaxpVariant::Maxp10(b)) => a == (maxp10 { numGlyphs: n, ..b }),
                _ => false,
            },
    {
        match &mut self.table {
            MaxpVariant::Maxp05(s) => s.numGlyphs = n,
            MaxpVariant::Maxp10(s) => s.numGlyphs = n,
        }
    }

    pub fn to_bytes(&self) -> (r: Vec<u8>)
        ensures
            r@ == maxp_encoding(*self),
    {
        let mut out: Vec<u8> = Vec::new();
        push_u32(&mut out, self.version);
        match &self.table {
            MaxpVariant::Maxp05(t) => {
                let words: Vec<u16> = vec![t.numGlyphs];
                assert(words@ == seq![t.numGlyphs]);
                push_u16_slice(&mut out, words.as_slice());
            },
            MaxpVariant::Maxp10(t) => {
                let words: Vec<u16> = vec![
                    t.numGlyphs,
                    t.maxPoints,
                    t.maxContours,
                    t.maxCompositePoints,
                    t.maxCompositeContours,
                    t.maxZones,
                    t.maxTwilightPoints,
                    t.maxStorage,
                    t.maxFunctionDefs,
                    t.maxInstructionDefs,
                    t.maxStackElements,
                    t.maxSizeOfInstructions,
                    t.maxComponentElements,
                    t.maxComponentDepth,
                ];
                assert(words@ == maxp10_words(*t));
                push_u16_slice(&mut out, words.as_slice());
            },
        }
        out
    }

    pub fn from_bytes(data: &[u8]) -> (r: Result<maxp, DeserializationError>)
        ensures
            match r {
                Ok(m) => maxp_decoding(data@) == Some(m),
                Err(_) => maxp_decoding(data@) is None,
            },
    {
        let version = match read_u32(data, 0) {
            Some(v) => v,
            None => return Err(DeserializationError::UnexpectedEof),
        };
        if version == MAXP_VERSION_0_5 {
            match read_u16_vec(data, 4, 1) {
                Some(w) => Ok(
                    maxp { version: MAXP_VERSION_0_5, table: MaxpVariant::Maxp05(maxp05 { numGlyphs: w[0] }) },
                ),
                None => Err(DeserializationError::UnexpectedEof),
            }
        } else if version == MAXP_VERSION_1_0 {
            let w = match read_u16_vec(data, 4, 14) {
                Some(w) => w,
                None => return Err(DeserializationError::UnexpectedEof),
            };
            assert(w@ == Seq::new(14, |k: int| u16_at(data@, 4 + 2 * k)));
            Ok(
                maxp {
                    version: MAXP_VERSION_1_0,
                    table: MaxpVariant::Maxp10(
                        maxp10 {
                            numGlyphs: w[0],
                            maxPoints: w[1],
                            maxContours: w[2],
                            maxCompositePoints: w[3],
                            maxCompositeContours: w[4],
                            maxZones: w[5],
                            maxTwilightPoints: w[6],
                            maxStorage: w[7],
                            maxFunctionDefs: w[8],
                            maxInstructionDefs: w[9],
                            maxStackElements: w[10],
                            maxSizeOfInstructions: w[11],
                            maxComponentElements: w[12],
                            maxComponentDepth: w[13],
                        },
                    ),
                },
            )
        } else {
            Err(DeserializationError::BadFormat)
        }
    }
}

/// A table whose version matches its variant (0.5 for the short form, 1.0 for
/// the long one) reads back as itself.
pub proof fn lemma_maxp_roundtrip(m: maxp)
    requires
        match m.table {
            MaxpVariant::Maxp05(_) => m.version == MAXP_VERSION_0_5,
            MaxpVariant::Maxp10(_) => m.version == MAXP_VERSION_1_0,
        },
    ensures
        maxp_decoding(maxp_encoding(m)) == Some(m),
{
    let s = maxp_encoding(m);
    let w = match m.table {
        MaxpVariant::Maxp05(t) => seq![t.numGlyphs],
        MaxpVariant::Maxp10(t) => maxp10_words(t),
    };
    let body = be16_seq(w);
    lemma_be16_seq_len(w);
    lemma_read_be32(Seq::empty(), m.version, body);
    assert(Seq::<u8>::empty() + be32(m.version) + body == s);
    assert forall|k: int| 0 <= k < w.len() implies #[trigger] u16_at(s, 4 + 2 * k) == w[k] by {
        crate::binary::lemma_read_be16_seq(be32(m.version), w, Seq::empty(), k);
        assert(be32(m.version) + body + Seq::<u8>::empty() == s);
    }
    match m.table {
        MaxpVariant::Maxp05(t) => {},
        MaxpVariant::Maxp10(t) => {
            assert(Seq::new(14, |k: int| u16_at(s, 4 + 2 * k)) == w);
        },
    }
}

} // verus!
