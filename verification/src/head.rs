//! The `head` (font header) table.
use crate::binary::{
    be16_seq, i16_bits, i16_from_bits, i16_of_bits, i16_to_bits, i32_bits, i32_from_bits,
    i32_of_bits, i32_to_bits, i64_bits, i64_from_bits, i64_of_bits, i64_to_bits, join32, join64,
    lemma_be16_seq_index, lemma_be16_seq_len, lemma_join32, lemma_join64, push_u16_slice,
    read_u16_vec, u16_at, DeserializationError,
};
use vstd::prelude::*;

verus! {

/// The font header table.
///
/// `fontRevision` is a 16.16 fixed-point number held as its 32-bit pattern;
/// `created` and `modified` are seconds since 1904-01-01 00:00:00.
#[derive(Debug, PartialEq, Clone, Copy)]
pub struct head {
    pub majorVersion: u16,
    pub minorVersion: u16,
    pub fontRevision: i32,
    pub checksumAdjustment: u32,
    pub magicNumber: u32,
    pub flags: u16,
    pub unitsPerEm: u16,
    pub created: i64,
    pub modified: i64,
    pub xMin: i16,
    pub yMin: i16,
    pub xMax: i16,
    pub yMax: i16,
    pub macStyle: u16,
    pub lowestRecPPEM: u16,
    pub fontDirectionHint: i16,
    pub indexToLocFormat: i16,
    pub glyphDataFormat: i16,
}

pub open spec fn hi16(v: u32) -> u16 {
    (v / 0x10000) as u16
}

pub open spec fn lo16(v: u32) -> u16 {
    (v % 0x10000) as u16
}

/// Word `k` (0 = most significant) of a 64-bit value.
pub open spec fn word64(v: u64, k: int) -> u16 {
    if k == 0 {
        (v / 0x1_0000_0000_0000) as u16
    } else if k == 1 {
        ((v / 0x1_0000_0000) % 0x10000) as u16
    } else if k == 2 {
        ((v / 0x10000) % 0x10000) as u16
    } else {
        (v % 0x10000) as u16
    }
}

/// The 27 16-bit words of `h`, in table order.
pub open spec fn head_words(h: head) -> Seq<u16> {
    seq![
        h.majorVersion,
        h.minorVersion,
        hi16(i32_bits(h.fontRevision)),
        lo16(i32_bits(h.fontRevision)),
        hi16(h.checksumAdjustment),
        lo16(h.checksumAdjustment),
        hi16(h.magicNumber),
        lo16(h.magicNumber),
        h.flags,
        h.unitsPerEm,
        word64(i64_bits(h.created), 0),
        word64(i64_bits(h.created), 1),
        word64(i64_bits(h.created), 2),
        word64(i64_bits(h.created), 3),
        word64(i64_bits(h.modified), 0),
        word64(i64_bits(h.modified), 1),
        word64(i64_bits(h.modified), 2),
        word64(i64_bits(h.modified), 3),
        i16_bits(h.xMin),
        i16_bits(h.yMin),
        i16_bits(h.xMax),
        i16_bits(h.yMax),
        h.macStyle,
        h.lowestRecPPEM,
        i16_bits(h.fontDirectionHint),
        i16_bits(h.indexToLocFormat),
        i16_bits(h.glyphDataFormat),
    ]
}

/// The table whose fields are the 27 words `w`.
pub open spec fn head_from_words(w: Seq<u16>) -> head {
    head {
        majorVersion: w[0],
        minorVersion: w[1],
        fontRevision: i32_of_bits(join32(w[2], w[3])),
        checksumAdjustment: join32(w[4], w[5]),
        magicNumber: join32(w[6], w[7]),
        flags: w[8],
        unitsPerEm: w[9],
        created: i64_of_bits(join64(w[10], w[11], w[12], w[13])),
        modified: i64_of_bits(join64(w[14], w[15], w[16], w[17])),
        xMin: i16_of_bits(w[18]),
        yMin: i16_of_bits(w[19]),
        xMax: i16_of_bits(w[20]),
        yMax: i16_of_bits(w[21]),
        macStyle: w[22],
        lowestRecPPEM: w[23],
        fontDirectionHint: i16_of_bits(w[24]),
        indexToLocFormat: i16_of_bits(w[25]),
        glyphDataFormat: i16_of_bits(w[26]),
    }
}

/// The 54 bytes of `h`.
pub open spec fn head_encoding(h: head) -> Seq<u8> {
    be16_seq(head_words(h))
}

/// The table stored in the first 54 bytes of `s`.
pub open spec fn head_decoding(s: Seq<u8>) -> Option<head> {
    if s.len() < 54 {
        None
    } else {
        Some(head_from_words(Seq::new(27, |k: int| u16_at(s, 2 * k))))
    }
}

fn split32(v: u32) -> (r: (u16, u16))
    ensures
        r.0 == hi16(v),
        r.1 == lo16(v),
{
    ((v / 0x10000) as u16, (v % 0x10000) as u16)
}

fn split64(v: u64) -> (r: (u16, u16, u16, u16))
    ensures
        r.0 == word64(v, 0),
        r.1 == word64(v, 1),
        r.2 == word64(v, 2),
        r.3 == word64(v, 3),
{
    (
        (v / 0x1_0000_0000_0000) as u16,
        ((v / 0x1_0000_0000) % 0x10000) as u16,
        ((v / 0x10000) % 0x10000) as u16,
        (v % 0x10000) as u16,
    )
}

impl head {
    pub fn to_bytes(&self) -> (r: Vec<u8>)
        ensures
            r@ == head_encoding(*self),
    {
        let rev = split32(i32_to_bits(self.fontRevision));
        let csum = split32(self.checksumAdjustment);
        let magic = split32(self.magicNumber);
        let cr = split64(i64_to_bits(self.created));
        let md = split64(i64_to_bits(self.modified));
        let words: Vec<u16> = vec![
            self.majorVersion,
            self.minorVersion,
            rev.0,
            rev.1,
            csum.0,
            csum.1,
            magic.0,
            magic.1,
            self.flags,
            self.unitsPerEm,
            cr.0,
            cr.1,
            cr.2,
            cr.3,
            md.0,
            md.1,
            md.2,
            md.3,
            i16_to_bits(self.xMin),
            i16_to_bits(self.yMin),
            i16_to_bits(self.xMax),
            i16_to_bits(self.yMax),
            self.macStyle,
            self.lowestRecPPEM,
            i16_to_bits(self.fontDirectionHint),
            i16_to_bits(self.indexToLocFormat),
            i16_to_bits(self.glyphDataFormat),
        ];
        assert(words@ == head_words(*self));
        let mut out: Vec<u8> = Vec::new();
        push_u16_slice(&mut out, words.as_slice());
        out
    }

    pub fn from_bytes(data: &[u8]) -> (r: Result<head, DeserializationError>)
        ensures
            match r {
                Ok(h) => head_decoding(data@) == Some(h),
                Err(_) => head_decoding(data@) is None,
            },
    {
        let w = match read_u16_vec(data, 0, 27) {
            Some(w) => w,
            None => return Err(DeserializationError::UnexpectedEof),
        };
        assert(w@ == Seq::new(27, |k: int| u16_at(data@, 2 * k)));
        let rev = (w[2] as u32) * 0x10000 + w[3] as u32;
        let csum = (w[4] as u32) * 0x10000 + w[5] as u32;
        let magic = (w[6] as u32) * 0x10000 + w[7] as u32;
        let cr = (w[10] as u64) * 0x1_0000_0000_0000 + (w[11] as u64) * 0x1_0000_0000 + (w[12] as u64)
            * 0x10000 + w[13] as u64;
        let md = (w[14] as u64) * 0x1_0000_0000_0000 + (w[15] as u64) * 0x1_0000_0000 + (w[16] as u64)
            * 0x10000 + w[17] as u64;
        Ok(head {
            majorVersion: w[0],
            minorVersion: w[1],
            fontRevision: i32_from_bits(rev),
            checksumAdjustment: csum,
            magicNumber: magic,
            flags: w[8],
            unitsPerEm: w[9],
            created: i64_from_bits(cr),
            modified: i64_from_bits(md),
            xMin: i16_from_bits(w[18]),
            yMin: i16_from_bits(w[19]),
            xMax: i16_from_bits(w[20]),
            yMax: i16_from_bits(w[21]),
            macStyle: w[22],
            lowestRecPPEM: w[23],
            fontDirectionHint: i16_from_bits(w[24]),
            indexToLocFormat: i16_from_bits(w[25]),
            glyphDataFormat: i16_from_bits(w[26]),
        })
    }
}

/// Reading back a written `head` table gives the same table.
#[verifier::spinoff_prover]
pub proof fn lemma_head_roundtrip(h: head)
    ensures
        head_decoding(head_encoding(h)) == Some(h),
{
    let w = head_words(h);
    lemma_be16_seq_len(w);
    let s = head_encoding(h);
    assert forall|k: int| 0 <= k < 27 implies #[trigger] u16_at(s, 2 * k) == w[k] by {
        lemma_be16_seq_index(w, k);
    }
    assert(Seq::new(27, |k: int| u16_at(s, 2 * k)) == w);
    lemma_join32(i32_bits(h.fontRevision));
    lemma_join32(h.checksumAdjustment);
    lemma_join32(h.magicNumber);
    lemma_join64(i64_bits(h.created));
    lemma_join64(i64_bits(h.modified));
}

} // verus!
