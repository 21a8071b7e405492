//! GPOS value records: optional placement and advance adjustments, preceded
//! by a format word that says which of them are present.
use crate::binary::{
    be16, bei16, i16_at, lemma_read_be16, lemma_read_bei16, push_i16, push_u16, read_i16, read_u16,
    u16_at, DeserializationError,
};
use vstd::prelude::*;

verus! {

/// Includes horizontal adjustment for placement
pub const X_PLACEMENT: u16 = 0x0001u16;

/// Includes vertical adjustment for placement
pub const Y_PLACEMENT: u16 = 0x0002u16;

/// Includes horizontal adjustment for advance
pub const X_ADVANCE: u16 = 0x0004u16;

/// Includes vertical adjustment for advance
pub const Y_ADVANCE: u16 = 0x0008u16;

/// Includes Device table (non-variable font) / VariationIndex table (variable font) for horizontal placement
pub const X_PLACEMENT_DEVICE: u16 = 0x0010u16;

/// Includes Device table (non-variable font) / VariationIndex table (variable font) for vertical placement
pub const Y_PLACEMENT_DEVICE: u16 = 0x0020u16;

/// Includes Device table (non-variable font) / VariationIndex table (variable font) for horizontal advance
pub const X_ADVANCE_DEVICE: u16 = 0x0040u16;

/// Includes Device table (non-variable font) / VariationIndex table (variable font) for vertical advance
pub const Y_ADVANCE_DEVICE: u16 = 0x0080u16;

/// Positioning adjustments for a glyph; an absent field is not written.
#[derive(Debug, Clone, PartialEq, Copy)]
pub struct ValueRecord {
    pub xPlacement: Option<i16>,
    pub yPlacement: Option<i16>,
    pub xAdvance: Option<i16>,
    pub yAdvance: Option<i16>,
}

/// A run of value records that share one format word.
#[derive(Debug, Clone, PartialEq)]
pub struct ValueRecords(pub Vec<ValueRecord>);

/// `bit` where the field is present, 0 otherwise.
pub open spec fn flag_if(o: Option<i16>, bit: u16) -> int {
    if o is Some {
        bit as int
    } else {
        0
    }
}

/// The format word of a value record: one bit for each field that is present.
pub open spec fn value_record_flags(v: ValueRecord) -> u16 {
    (flag_if(v.xPlacement, X_PLACEMENT) + flag_if(v.yPlacement, Y_PLACEMENT) + flag_if(
        v.xAdvance,
        X_ADVANCE,
    ) + flag_if(v.yAdvance, Y_ADVANCE)) as u16
}

/// Whether the format word `f` has all the bits of `bit`.
pub open spec fn has_flag(f: u16, bit: u16) -> bool {
    f & bit == bit
}

/// The two bytes of a present field; nothing for an absent one.
pub open spec fn opt_i16_bytes(o: Option<i16>) -> Seq<u8> {
    match o {
        Some(v) => bei16(v),
        None => Seq::empty(),
    }
}

/// The present fields in order, without the format word.
pub open spec fn value_record_fields_bytes(v: ValueRecord) -> Seq<u8> {
    opt_i16_bytes(v.xPlacement) + opt_i16_bytes(v.yPlacement) + opt_i16_bytes(v.xAdvance)
        + opt_i16_bytes(v.yAdvance)
}

/// The bytes of a value record: its format word, then the present fields in order.
pub open spec fn value_record_encoding(v: ValueRecord) -> Seq<u8> {
    be16(value_record_flags(v)) + value_record_fields_bytes(v)
}

/// A field read at `p` where `present`, with the position after it;
/// `None` where it runs past the end.
pub open spec fn opt_field(s: Seq<u8>, p: int, present: bool) -> Option<(Option<i16>, int)> {
    if !present {
        Some((None, p))
    } else if 0 <= p && p + 2 <= s.len() {
        Some((Some(i16_at(s, p)), p + 2))
    } else {
        None
    }
}

/// The fields that the format word `f` announces, read from `p` on,
/// with the position after the last of them. Bits other than the four
/// adjustments are not read.
pub open spec fn value_record_fields(s: Seq<u8>, p: int, f: u16) -> Option<(ValueRecord, int)> {
    match opt_field(s, p, has_flag(f, X_PLACEMENT)) {
        None => None,
        Some((xp, p1)) => match opt_field(s, p1, has_flag(f, Y_PLACEMENT)) {
            None => None,
            Some((yp, p2)) => match opt_field(s, p2, has_flag(f, X_ADVANCE)) {
                None => None,
                Some((xa, p3)) => match opt_field(s, p3, has_flag(f, Y_ADVANCE)) {
                    None => None,
                    Some((ya, p4)) => Some(
                        (ValueRecord { xPlacement: xp, yPlacement: yp, xAdvance: xa, yAdvance: ya }, p4),
                    ),
                },
            },
        },
    }
}

/// A value record read at `p` (format word, then fields), with the position after it.
pub open spec fn value_record_decoding(s: Seq<u8>, p: int) -> Option<(ValueRecord, int)> {
    if 0 <= p && p + 2 <= s.len() {
        value_record_fields(s, p + 2, u16_at(s, p))
    } else {
        None
    }
}

/// `count` records that share the format word `f`, read from `p` on.
pub open spec fn shared_records(s: Seq<u8>, p: int, f: u16, count: nat) -> Option<(Seq<ValueRecord>, int)>
    decreases count,
{
    if count == 0 {
        Some((Seq::empty(), p))
    } else {
        match shared_records(s, p, f, (count - 1) as nat) {
            None => None,
            Some((rs, q)) => match value_record_fields(s, q, f) {
                None => None,
                Some((v, q2)) => Some((rs.push(v), q2)),
            },
        }
    }
}

/// A run of value records read at `p`: the shared format word, a count, then the records.
pub open spec fn value_records_decoding(s: Seq<u8>, p: int) -> Option<(Seq<ValueRecord>, int)> {
    if 0 <= p && p + 4 <= s.len() {
        shared_records(s, p + 4, u16_at(s, p), u16_at(s, p + 2) as nat)
    } else {
        None
    }
}

fn read_opt_i16(data: &[u8], pos: usize, present: bool) -> (r: Option<(Option<i16>, usize)>)
    ensures
        match r {
            Some((v, n)) => opt_field(data@, pos as int, present) == Some((v, n as int)),
            None => opt_field(data@, pos as int, present) is None,
        },
{
    if !present {
        Some((None, pos))
    } else {
        let n = data.len();
        match read_i16(data, pos) {
            Some(v) => {
                assert(pos + 2 <= n);
                Some((Some(v), pos + 2))
            },
            None => None,
        }
    }
}

fn read_fields(data: &[u8], pos: usize, flags: u16) -> (r: Option<(ValueRecord, usize)>)
    ensures
        match r {
            Some((v, n)) => value_record_fields(data@, pos as int, flags) == Some((v, n as int)),
            None => value_record_fields(data@, pos as int, flags) is None,
        },
{
    let (xp, p1) = match read_opt_i16(data, pos, flags & X_PLACEMENT == X_PLACEMENT) {
        Some(t) => t,
        None => return None,
    };
    let (yp, p2) = match read_opt_i16(data, p1, flags & Y_PLACEMENT == Y_PLACEMENT) {
        Some(t) => t,
        None => return None,
    };
    let (xa, p3) = match read_opt_i16(data, p2, flags & X_ADVANCE == X_ADVANCE) {
        Some(t) => t,
        None => return None,
    };
    let (ya, p4) = match read_opt_i16(data, p3, flags & Y_ADVANCE == Y_ADVANCE) {
        Some(t) => t,
        None => return None,
    };
    Some((ValueRecord { xPlacement: xp, yPlacement: yp, xAdvance: xa, yAdvance: ya }, p4))
}

fn push_opt_i16(out: &mut Vec<u8>, o: Option<i16>)
    ensures
        final(out)@ == old(out)@ + opt_i16_bytes(o),
{
    match o {
        Some(v) => push_i16(out, v),
        None => {
            assert(old(out)@ + Seq::<u8>::empty() == old(out)@);
        },
    }
}

impl ValueRecord {
    /// A record with no adjustments.
    pub fn new() -> (r: ValueRecord)
        ensures
            r == (ValueRecord { xPlacement: None, yPlacement: None, xAdvance: None, yAdvance: None }),
    {
        ValueRecord { xPlacement: None, yPlacement: None, xAdvance: None, yAdvance: None }
    }

    /// The format word: one bit for each adjustment that is present.
    pub fn flags(&self) -> (r: u16)
        ensures
            r == value_record_flags(*self),
    {
        let mut f: u16 = 0;
        if self.xPlacement.is_some() {
            f = f + X_PLACEMENT;
        }
        if self.yPlacement.is_some() {
            f = f + Y_PLACEMENT;
        }
        if self.xAdvance.is_some() {
            f = f + X_ADVANCE;
        }
        if self.yAdvance.is_some() {
            f = f + Y_ADVANCE;
        }
        f
    }

    /// Writes the format word and then the present adjustments.
    pub fn to_bytes(&self) -> (r: Vec<u8>)
        ensures
            r@ == value_record_encoding(*self),
    {
        let mut out: Vec<u8> = Vec::new();
        push_u16(&mut out, self.flags());
        push_opt_i16(&mut out, self.xPlacement);
        push_opt_i16(&mut out, self.yPlacement);
        push_opt_i16(&mut out, self.xAdvance);
        push_opt_i16(&mut out, self.yAdvance);
        assert(out@ == value_record_encoding(*self));
        out
    }

    /// Reads a value record at `pos`; returns it with the position after it.
    pub fn from_bytes(data: &[u8], pos: usize) -> (r: Result<(ValueRecord, usize), DeserializationError>)
        ensures
            match r {
                Ok((v, next)) => value_record_decoding(data@, pos as int) == Some((v, next as int)),
                Err(_) => value_record_decoding(data@, pos as int) is None,
            },
    {
        let flags = match read_u16(data, pos) {
            Some(f) => f,
            None => return Err(DeserializationError::UnexpectedEof),
        };
        assert(pos + 2 <= data.len());
        match read_fields(data, pos + 2, flags) {
            Some(t) => Ok(t),
            None => Err(DeserializationError::UnexpectedEof),
        }
    }
}

/// A field that is zero counts as absent.
pub open spec fn nonzero(o: Option<i16>) -> Option<i16> {
    match o {
        Some(v) => if v == 0 {
            None
        } else {
            Some(v)
        },
        None => None,
    }
}

/// The record with its zero adjustments dropped.
pub open spec fn simplified(v: ValueRecord) -> ValueRecord {
    ValueRecord {
        xPlacement: nonzero(v.xPlacement),
        yPlacement: nonzero(v.yPlacement),
        xAdvance: nonzero(v.xAdvance),
        yAdvance: nonzero(v.yAdvance),
    }
}

/// Whether any adjustment is present.
pub open spec fn has_any_field(v: ValueRecord) -> bool {
    v.xPlacement is Some || v.yPlacement is Some || v.xAdvance is Some || v.yAdvance is Some
}

/// A field written because the format word `present` asks for it: its value,
/// or 0 where the record lacks it. Nothing where the format word leaves it out.
pub open spec fn field_with_format(o: Option<i16>, present: bool) -> Seq<u8> {
    if present {
        bei16(
            match o {
                Some(v) => v,
                None => 0,
            },
        )
    } else {
        Seq::empty()
    }
}

/// The fields of `v` that the format word `f` announces, in order.
pub open spec fn value_record_with_format(v: ValueRecord, f: u16) -> Seq<u8> {
    field_with_format(v.xPlacement, has_flag(f, X_PLACEMENT)) + field_with_format(
        v.yPlacement,
        has_flag(f, Y_PLACEMENT),
    ) + field_with_format(v.xAdvance, has_flag(f, X_ADVANCE)) + field_with_format(
        v.yAdvance,
        has_flag(f, Y_ADVANCE),
    )
}

fn nonzero_field(o: Option<i16>) -> (r: Option<i16>)
    ensures
        r == nonzero(o),
{
    match o {
        Some(v) => if v == 0 {
            None
        } else {
            Some(v)
        },
        None => None,
    }
}

fn push_field_with_format(out: &mut Vec<u8>, o: Option<i16>, present: bool)
    ensures
        final(out)@ == old(out)@ + field_with_format(o, present),
{
    if present {
        match o {
            Some(v) => push_i16(out, v),
            None => push_i16(out, 0),
        }
    } else {
        assert(old(out)@ + Seq::<u8>::empty() == old(out)@);
    }
}

impl ValueRecord {
    /// Drops the adjustments that are zero.
    pub fn simplify(&mut self)
        ensures
            *final(self) == simplified(*old(self)),
    {
        self.xPlacement = nonzero_field(self.xPlacement);
        self.yPlacement = nonzero_field(self.yPlacement);
        self.xAdvance = nonzero_field(self.xAdvance);
        self.yAdvance = nonzero_field(self.yAdvance);
    }

    /// Whether any adjustment is present.
    pub fn has_any(&self) -> (r: bool)
        ensures
            r == has_any_field(*self),
    {
        self.xPlacement.is_some() || self.yPlacement.is_some() || self.xAdvance.is_some()
            || self.yAdvance.is_some()
    }

    /// Writes the fields that the format word `f` announces: each one's value,
    /// or 0 where this record lacks it.
    pub fn write_with_format(&self, out: &mut Vec<u8>, f: u16)
        ensures
            final(out)@ == old(out)@ + value_record_with_format(*self, f),
    {
        let ghost start = old(out)@;
        push_field_with_format(out, self.xPlacement, f & X_PLACEMENT == X_PLACEMENT);
        push_field_with_format(out, self.yPlacement, f & Y_PLACEMENT == Y_PLACEMENT);
        push_field_with_format(out, self.xAdvance, f & X_ADVANCE == X_ADVANCE);
        push_field_with_format(out, self.yAdvance, f & Y_ADVANCE == Y_ADVANCE);
        assert(out@ == start + value_record_with_format(*self, f));
    }

    /// Reads the fields that the format word `f` announces, from `pos` on;
    /// returns the record with the position after it.
    pub fn read_with_format(data: &[u8], pos: usize, f: u16) -> (r: Result<(ValueRecord, usize), DeserializationError>)
        ensures
            match r {
                Ok((v, next)) => value_record_fields(data@, pos as int, f) == Some((v, next as int)),
                Err(_) => value_record_fields(data@, pos as int, f) is None,
            },
    {
        match read_fields(data, pos, f) {
            Some(t) => Ok(t),
            None => Err(DeserializationError::UnexpectedEof),
        }
    }
}

impl ValueRecords {
    /// Reads a run of value records at `pos` (a shared format word, a count and
    /// the records); returns it with the position after it.
    pub fn from_bytes(data: &[u8], pos: usize) -> (r: Result<(ValueRecords, usize), DeserializationError>)
        ensures
            match r {
                Ok((v, next)) => value_records_decoding(data@, pos as int) == Some((v.0@, next as int)),
                Err(_) => value_records_decoding(data@, pos as int) is None,
            },
    {
        let flags = match read_u16(data, pos) {
            Some(f) => f,
            None => return Err(DeserializationError::UnexpectedEof),
        };
        assert(pos + 2 <= data.len());
        let count = match read_u16(data, pos + 2) {
            Some(c) => c,
            None => return Err(DeserializationError::UnexpectedEof),
        };
        assert(pos + 4 <= data.len());
        let mut records: Vec<ValueRecord> = Vec::new();
        let mut p: usize = pos + 4;
        let mut k: u16 = 0;
        while k < count
            invariant
                k <= count,
                pos + 4 <= data@.len(),
                flags == u16_at(data@, pos as int),
                count == u16_at(data@, pos + 2),
                shared_records(data@, pos + 4, flags, k as nat) == Some((records@, p as int)),
            decreases count - k,
        {
            match read_fields(data, p, flags) {
                Some((v, q)) => {
                    records.push(v);
                    p = q;
                },
                None => {
                    proof {
                        lemma_shared_records_fail(data@, pos + 4, flags, (k + 1) as nat, count as nat);
                    }
                    return Err(DeserializationError::UnexpectedEof);
                },
            }
            k = k + 1;
        }
        Ok((ValueRecords(records), p))
    }
}

proof fn lemma_shared_records_fail(s: Seq<u8>, p: int, f: u16, k: nat, n: nat)
    requires
        k <= n,
        shared_records(s, p, f, k) is None,
    ensures
        shared_records(s, p, f, n) is None,
    decreases n - k,
{
    if k < n {
        lemma_shared_records_fail(s, p, f, k + 1, n);
    }
}

pub(crate) proof fn lemma_flag_bits(a: u16, b: u16, c: u16, d: u16)
    requires
        a == 0 || a == 1,
        b == 0 || b == 2,
        c == 0 || c == 4,
        d == 0 || d == 8,
    ensures
        ((a + b + c + d) as u16 & 1u16 == 1u16) == (a == 1),
        ((a + b + c + d) as u16 & 2u16 == 2u16) == (b == 2),
        ((a + b + c + d) as u16 & 4u16 == 4u16) == (c == 4),
        ((a + b + c + d) as u16 & 8u16 == 8u16) == (d == 8),
{
    assert(((a + b + c + d) as u16 & 1u16 == 1u16) == (a == 1)) by (bit_vector)
        requires
            a == 0 || a == 1,
            b == 0 || b == 2,
            c == 0 || c == 4,
            d == 0 || d == 8,
    ;
    assert(((a + b + c + d) as u16 & 2u16 == 2u16) == (b == 2)) by (bit_vector)
        requires
            a == 0 || a == 1,
            b == 0 || b == 2,
            c == 0 || c == 4,
            d == 0 || d == 8,
    ;
    assert(((a + b + c + d) as u16 & 4u16 == 4u16) == (c == 4)) by (bit_vector)
        requires
            a == 0 || a == 1,
            b == 0 || b == 2,
            c == 0 || c == 4,
            d == 0 || d == 8,
    ;
    assert(((a + b + c + d) as u16 & 8u16 == 8u16) == (d == 8)) by (bit_vector)
        requires
            a == 0 || a == 1,
            b == 0 || b == 2,
            c == 0 || c == 4,
            d == 0 || d == 8,
    ;
}

proof fn lemma_opt_field_read(s: Seq<u8>, a: Seq<u8>, o: Option<i16>, b: Seq<u8>)
    requires
        s == a + opt_i16_bytes(o) + b,
    ensures
        opt_field(s, a.len() as int, o is Some) == Some((o, (a.len() + opt_i16_bytes(o).len()) as int)),
{
    match o {
        Some(v) => {
            lemma_read_bei16(a, v, b);
        },
        None => {},
    }
}

/// Each bit of the format word is set exactly where its field is present.
proof fn lemma_flags_meaning(v: ValueRecord)
    ensures
        has_flag(value_record_flags(v), X_PLACEMENT) == v.xPlacement is Some,
        has_flag(value_record_flags(v), Y_PLACEMENT) == v.yPlacement is Some,
        has_flag(value_record_flags(v), X_ADVANCE) == v.xAdvance is Some,
        has_flag(value_record_flags(v), Y_ADVANCE) == v.yAdvance is Some,
{
    let a = flag_if(v.xPlacement, X_PLACEMENT) as u16;
    let b = flag_if(v.yPlacement, Y_PLACEMENT) as u16;
    let c = flag_if(v.xAdvance, X_ADVANCE) as u16;
    let d = flag_if(v.yAdvance, Y_ADVANCE) as u16;
    lemma_flag_bits(a, b, c, d);
    assert(value_record_flags(v) == (a + b + c + d) as u16);
}

/// The four fields, read where the format word says they are present.
#[verifier::spinoff_prover]
proof fn lemma_fields_read(s: Seq<u8>, pre: Seq<u8>, v: ValueRecord, after: Seq<u8>)
    requires
        s == pre + value_record_fields_bytes(v) + after,
    ensures
        value_record_fields(s, pre.len() as int, value_record_flags(v)) == Some(
            (v, (pre.len() + value_record_fields_bytes(v).len()) as int),
        ),
{
    lemma_flags_meaning(v);
    let ox = opt_i16_bytes(v.xPlacement);
    let oy = opt_i16_bytes(v.yPlacement);
    let oa = opt_i16_bytes(v.xAdvance);
    let od = opt_i16_bytes(v.yAdvance);
    let e1 = pre + ox;
    let e2 = e1 + oy;
    let e3 = e2 + oa;
    assert(s =~= pre + ox + (oy + oa + od + after));
    lemma_opt_field_read(s, pre, v.xPlacement, oy + oa + od + after);
    assert(s =~= e1 + oy + (oa + od + after));
    lemma_opt_field_read(s, e1, v.yPlacement, oa + od + after);
    assert(s =~= e2 + oa + (od + after));
    lemma_opt_field_read(s, e2, v.xAdvance, od + after);
    assert(s =~= e3 + od + after);
    lemma_opt_field_read(s, e3, v.yAdvance, after);
    let f = value_record_flags(v);
    let p0 = pre.len() as int;
    let p1 = e1.len() as int;
    let p2 = e2.len() as int;
    let p3 = e3.len() as int;
    let p4 = (e3.len() + od.len()) as int;
    assert(opt_field(s, p0, has_flag(f, X_PLACEMENT)) == Some((v.xPlacement, p1)));
    assert(opt_field(s, p1, has_flag(f, Y_PLACEMENT)) == Some((v.yPlacement, p2)));
    assert(opt_field(s, p2, has_flag(f, X_ADVANCE)) == Some((v.xAdvance, p3)));
    assert(opt_field(s, p3, has_flag(f, Y_ADVANCE)) == Some((v.yAdvance, p4)));
    assert(p4 == pre.len() + value_record_fields_bytes(v).len());
}

/// Reading back a written value record gives the same record, and ends where
/// the record ends, whatever follows it.
pub proof fn lemma_value_record_roundtrip(v: ValueRecord, before: Seq<u8>, after: Seq<u8>)
    ensures
        value_record_decoding(before + value_record_encoding(v) + after, before.len() as int) == Some(
            (v, (before.len() + value_record_encoding(v).len()) as int),
        ),
{
    let f = value_record_flags(v);
    let s = before + value_record_encoding(v) + after;
    lemma_read_be16(before, f, value_record_fields_bytes(v) + after);
    assert(s =~= before + be16(f) + (value_record_fields_bytes(v) + after));
    assert(s =~= (before + be16(f)) + value_record_fields_bytes(v) + after);
    lemma_fields_read(s, before + be16(f), v, after);
}

} // verus!
