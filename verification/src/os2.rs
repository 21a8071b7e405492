//! The `OS/2` table: metrics and classification of a font for Windows and
//! other platforms. Its later versions add fields at its end.
use crate::binary::{
    be16, be32, bei16, i16_at, lemma_read_be16, lemma_read_be32, lemma_read_bei16, push_i16, push_u16, push_u32,
    read_i16, read_u16, read_u32, read_u8, u16_at, u32_at, DeserializationError,
};
use crate::layout::common_proofs::{lemma_window_parts, lemma_window_nest, lemma_window_u16, lemma_window_u32, window};
use vstd::prelude::*;

verus! {

/// The PANOSE classification: ten digits.
#[derive(Debug, PartialEq, Clone, Copy)]
pub struct Panose {
    pub panose0: u8,
    pub panose1: u8,
    pub panose2: u8,
    pub panose3: u8,
    pub panose4: u8,
    pub panose5: u8,
    pub panose6: u8,
    pub panose7: u8,
    pub panose8: u8,
    pub panose9: u8,
}

/// Represents a font's OS/2 (OS/2 and Windows Metrics) table. The tag of the
/// vendor is its four bytes read as a big-endian number. The fields of later
/// versions are present where the version has them.
#[derive(Debug, PartialEq, Clone, Copy)]
pub struct os2 {
    pub version: u16,
    pub xAvgCharWidth: i16,
    pub usWeightClass: u16,
    pub usWidthClass: u16,
    pub fsType: u16,
    pub ySubscriptXSize: i16,
    pub ySubscriptYSize: i16,
    pub ySubscriptXOffset: i16,
    pub ySubscriptYOffset: i16,
    pub ySuperscriptXSize: i16,
    pub ySuperscriptYSize: i16,
    pub ySuperscriptXOffset: i16,
    pub ySuperscriptYOffset: i16,
    pub yStrikeoutSize: i16,
    pub yStrikeoutPosition: i16,
    pub sFamilyClass: i16,
    pub panose: Panose,
    pub ulUnicodeRange1: u32,
    pub ulUnicodeRange2: u32,
    pub ulUnicodeRange3: u32,
    pub ulUnicodeRange4: u32,
    pub achVendID: u32,
    pub fsSelection: u16,
    pub usFirstCharIndex: u16,
    pub usLastCharIndex: u16,
    pub sTypoAscender: i16,
    pub sTypoDescender: i16,
    pub sTypoLineGap: i16,
    pub usWinAscent: u16,
    pub usWinDescent: u16,
    pub ulCodePageRange1: Option<u32>,
    pub ulCodePageRange2: Option<u32>,
    pub sxHeight: Option<i16>,
    pub sCapHeight: Option<i16>,
    pub usDefaultChar: Option<u16>,
    pub usBreakChar: Option<u16>,
    pub usMaxContext: Option<u16>,
    pub usLowerOpticalPointSize: Option<u16>,
    pub usUpperOpticalPointSize: Option<u16>,
}

/// The ten PANOSE digits.
pub open spec fn panose_bytes(p: Panose) -> Seq<u8> {
    seq![p.panose0, p.panose1, p.panose2, p.panose3, p.panose4, p.panose5, p.panose6, p.panose7, p.panose8, p.panose9]
}

/// The bytes of the fields every version has.
/// The version, widths, classes and script and strikeout sizes.
pub open spec fn os2_sizes_bytes(t: os2) -> Seq<u8> {
    be16(t.version) + bei16(t.xAvgCharWidth) + be16(t.usWeightClass) + be16(t.usWidthClass) + be16(t.fsType) + bei16(t.ySubscriptXSize) + bei16(t.ySubscriptYSize) + bei16(t.ySubscriptXOffset) + bei16(t.ySubscriptYOffset) + bei16(t.ySuperscriptXSize) + bei16(t.ySuperscriptYSize) + bei16(t.ySuperscriptXOffset) + bei16(t.ySuperscriptYOffset) + bei16(t.yStrikeoutSize) + bei16(t.yStrikeoutPosition) + bei16(t.sFamilyClass)
}

/// The unicode ranges and the vendor tag.
pub open spec fn os2_ranges_bytes(t: os2) -> Seq<u8> {
    be32(t.ulUnicodeRange1) + be32(t.ulUnicodeRange2) + be32(t.ulUnicodeRange3) + be32(t.ulUnicodeRange4) + be32(t.achVendID)
}

/// The selection, character range and vertical metrics.
pub open spec fn os2_metrics_bytes(t: os2) -> Seq<u8> {
    be16(t.fsSelection) + be16(t.usFirstCharIndex) + be16(t.usLastCharIndex) + bei16(t.sTypoAscender) + bei16(t.sTypoDescender) + bei16(t.sTypoLineGap) + be16(t.usWinAscent) + be16(t.usWinDescent)
}

/// The bytes of the fields every version has.
pub open spec fn os2_core_bytes(t: os2) -> Seq<u8> {
    os2_sizes_bytes(t) + panose_bytes(t.panose) + os2_ranges_bytes(t) + os2_metrics_bytes(t)
}

/// The code page ranges, from version 1.
pub open spec fn os2_v1_bytes(t: os2) -> Seq<u8> {
    if t.version > 0 {
        be32(match t.ulCodePageRange1 { Some(v) => v, None => 0 }) + be32(match t.ulCodePageRange2 { Some(v) => v, None => 0 })
    } else {
        Seq::empty()
    }
}

/// The heights and characters, from version 2.
pub open spec fn os2_v2_bytes(t: os2) -> Seq<u8> {
    if t.version > 1 {
        bei16(match t.sxHeight { Some(v) => v, None => 0 }) + bei16(match t.sCapHeight { Some(v) => v, None => 0 }) + be16(match t.usDefaultChar { Some(v) => v, None => 0 }) + be16(match t.usBreakChar { Some(v) => v, None => 0 }) + be16(match t.usMaxContext { Some(v) => v, None => 0 })
    } else {
        Seq::empty()
    }
}

/// The optical point sizes, from version 5.
pub open spec fn os2_v5_bytes(t: os2) -> Seq<u8> {
    if t.version > 4 {
        be16(match t.usLowerOpticalPointSize { Some(v) => v, None => 0 }) + be16(match t.usUpperOpticalPointSize { Some(v) => v, None => 0 })
    } else {
        Seq::empty()
    }
}

/// The bytes of an `OS/2` table: the fields every version has, then the code
/// page ranges from version 1, the heights and characters from version 2, and
/// the optical point sizes from version 5; a field that is absent is written as 0.
pub open spec fn os2_encoding(t: os2) -> Seq<u8> {
    os2_core_bytes(t) + os2_v1_bytes(t) + os2_v2_bytes(t) + os2_v5_bytes(t)
}

/// The length of an `OS/2` table of version `v`.
pub open spec fn os2_len(v: u16) -> int {
    if v > 4 { 100 } else if v > 1 { 96 } else if v > 0 { 86 } else { 78 }
}

/// The `OS/2` table that `s` holds; `None` where it is shorter than its version needs.
pub open spec fn os2_decoding(s: Seq<u8>) -> Option<os2> {
    if s.len() < 78 || s.len() < os2_len(u16_at(s, 0)) {
        None
    } else {
        let v = u16_at(s, 0);
        Some(os2 {
            version: u16_at(s, 0),
            xAvgCharWidth: i16_at(s, 2),
            usWeightClass: u16_at(s, 4),
            usWidthClass: u16_at(s, 6),
            fsType: u16_at(s, 8),
            ySubscriptXSize: i16_at(s, 10),
            ySubscriptYSize: i16_at(s, 12),
            ySubscriptXOffset: i16_at(s, 14),
            ySubscriptYOffset: i16_at(s, 16),
            ySuperscriptXSize: i16_at(s, 18),
            ySuperscriptYSize: i16_at(s, 20),
            ySuperscriptXOffset: i16_at(s, 22),
            ySuperscriptYOffset: i16_at(s, 24),
            yStrikeoutSize: i16_at(s, 26),
            yStrikeoutPosition: i16_at(s, 28),
            sFamilyClass: i16_at(s, 30),
            panose: Panose { panose0: s[32], panose1: s[33], panose2: s[34], panose3: s[35], panose4: s[36], panose5: s[37], panose6: s[38], panose7: s[39], panose8: s[40], panose9: s[41] },
            ulUnicodeRange1: u32_at(s, 42),
            ulUnicodeRange2: u32_at(s, 46),
            ulUnicodeRange3: u32_at(s, 50),
            ulUnicodeRange4: u32_at(s, 54),
            achVendID: u32_at(s, 58),
            fsSelection: u16_at(s, 62),
            usFirstCharIndex: u16_at(s, 64),
            usLastCharIndex: u16_at(s, 66),
            sTypoAscender: i16_at(s, 68),
            sTypoDescender: i16_at(s, 70),
            sTypoLineGap: i16_at(s, 72),
            usWinAscent: u16_at(s, 74),
            usWinDescent: u16_at(s, 76),
            ulCodePageRange1: if v > 0 { Some(u32_at(s, 78)) } else { None },
            ulCodePageRange2: if v > 0 { Some(u32_at(s, 82)) } else { None },
            sxHeight: if v > 1 { Some(i16_at(s, 86)) } else { None },
            sCapHeight: if v > 1 { Some(i16_at(s, 88)) } else { None },
            usDefaultChar: if v > 1 { Some(u16_at(s, 90)) } else { None },
            usBreakChar: if v > 1 { Some(u16_at(s, 92)) } else { None },
            usMaxContext: if v > 1 { Some(u16_at(s, 94)) } else { None },
            usLowerOpticalPointSize: if v > 4 { Some(u16_at(s, 96)) } else { None },
            usUpperOpticalPointSize: if v > 4 { Some(u16_at(s, 98)) } else { None },
        })
    }
}

fn push_sizes(out: &mut Vec<u8>, t: &os2)
    ensures
        final(out)@ == old(out)@ + os2_sizes_bytes(*t),
{
    let ghost start = old(out)@;
    push_u16(out, t.version);
    push_i16(out, t.xAvgCharWidth);
    push_u16(out, t.usWeightClass);
    push_u16(out, t.usWidthClass);
    push_u16(out, t.fsType);
    push_i16(out, t.ySubscriptXSize);
    push_i16(out, t.ySubscriptYSize);
    push_i16(out, t.ySubscriptXOffset);
    push_i16(out, t.ySubscriptYOffset);
    push_i16(out, t.ySuperscriptXSize);
    push_i16(out, t.ySuperscriptYSize);
    push_i16(out, t.ySuperscriptXOffset);
    push_i16(out, t.ySuperscriptYOffset);
    push_i16(out, t.yStrikeoutSize);
    push_i16(out, t.yStrikeoutPosition);
    push_i16(out, t.sFamilyClass);
    assert(out@ =~= start + os2_sizes_bytes(*t));
}

fn push_ranges(out: &mut Vec<u8>, t: &os2)
    ensures
        final(out)@ == old(out)@ + os2_ranges_bytes(*t),
{
    let ghost start = old(out)@;
    push_u32(out, t.ulUnicodeRange1);
    push_u32(out, t.ulUnicodeRange2);
    push_u32(out, t.ulUnicodeRange3);
    push_u32(out, t.ulUnicodeRange4);
    push_u32(out, t.achVendID);
    assert(out@ =~= start + os2_ranges_bytes(*t));
}

fn push_metrics(out: &mut Vec<u8>, t: &os2)
    ensures
        final(out)@ == old(out)@ + os2_metrics_bytes(*t),
{
    let ghost start = old(out)@;
    push_u16(out, t.fsSelection);
    push_u16(out, t.usFirstCharIndex);
    push_u16(out, t.usLastCharIndex);
    push_i16(out, t.sTypoAscender);
    push_i16(out, t.sTypoDescender);
    push_i16(out, t.sTypoLineGap);
    push_u16(out, t.usWinAscent);
    push_u16(out, t.usWinDescent);
    assert(out@ =~= start + os2_metrics_bytes(*t));
}

fn push_panose(out: &mut Vec<u8>, p: &Panose)
    ensures
        final(out)@ == old(out)@ + panose_bytes(*p),
{
    let ghost start = old(out)@;
    out.push(p.panose0);
    out.push(p.panose1);
    out.push(p.panose2);
    out.push(p.panose3);
    out.push(p.panose4);
    out.push(p.panose5);
    out.push(p.panose6);
    out.push(p.panose7);
    out.push(p.panose8);
    out.push(p.panose9);
    assert(out@ =~= start + panose_bytes(*p));
}

fn push_os2_v1_bytes(out: &mut Vec<u8>, t: &os2)
    ensures
        final(out)@ == old(out)@ + os2_v1_bytes(*t),
{
    let ghost start = old(out)@;
    if t.version > 0 {
        push_u32(out, match t.ulCodePageRange1 { Some(v) => v, None => 0 });
        push_u32(out, match t.ulCodePageRange2 { Some(v) => v, None => 0 });
    }
    assert(out@ =~= start + os2_v1_bytes(*t));
}

fn push_os2_v2_bytes(out: &mut Vec<u8>, t: &os2)
    ensures
        final(out)@ == old(out)@ + os2_v2_bytes(*t),
{
    let ghost start = old(out)@;
    if t.version > 1 {
        push_i16(out, match t.sxHeight { Some(v) => v, None => 0 });
        push_i16(out, match t.sCapHeight { Some(v) => v, None => 0 });
        push_u16(out, match t.usDefaultChar { Some(v) => v, None => 0 });
        push_u16(out, match t.usBreakChar { Some(v) => v, None => 0 });
        push_u16(out, match t.usMaxContext { Some(v) => v, None => 0 });
    }
    assert(out@ =~= start + os2_v2_bytes(*t));
}

fn push_os2_v5_bytes(out: &mut Vec<u8>, t: &os2)
    ensures
        final(out)@ == old(out)@ + os2_v5_bytes(*t),
{
    let ghost start = old(out)@;
    if t.version > 4 {
        push_u16(out, match t.usLowerOpticalPointSize { Some(v) => v, None => 0 });
        push_u16(out, match t.usUpperOpticalPointSize { Some(v) => v, None => 0 });
    }
    assert(out@ =~= start + os2_v5_bytes(*t));
}

#[verifier::spinoff_prover]
proof fn lemma_os2_sizes_bytes_read(t: os2)
    ensures
        os2_sizes_bytes(t).len() == 32,
        u16_at(os2_sizes_bytes(t), 0) == t.version,
        i16_at(os2_sizes_bytes(t), 2) == t.xAvgCharWidth,
        u16_at(os2_sizes_bytes(t), 4) == t.usWeightClass,
        u16_at(os2_sizes_bytes(t), 6) == t.usWidthClass,
        u16_at(os2_sizes_bytes(t), 8) == t.fsType,
        i16_at(os2_sizes_bytes(t), 10) == t.ySubscriptXSize,
        i16_at(os2_sizes_bytes(t), 12) == t.ySubscriptYSize,
        i16_at(os2_sizes_bytes(t), 14) == t.ySubscriptXOffset,
        i16_at(os2_sizes_bytes(t), 16) == t.ySubscriptYOffset,
        i16_at(os2_sizes_bytes(t), 18) == t.ySuperscriptXSize,
        i16_at(os2_sizes_bytes(t), 20) == t.ySuperscriptYSize,
        i16_at(os2_sizes_bytes(t), 22) == t.ySuperscriptXOffset,
        i16_at(os2_sizes_bytes(t), 24) == t.ySuperscriptYOffset,
        i16_at(os2_sizes_bytes(t), 26) == t.yStrikeoutSize,
        i16_at(os2_sizes_bytes(t), 28) == t.yStrikeoutPosition,
        i16_at(os2_sizes_bytes(t), 30) == t.sFamilyClass,
{
    let x = os2_sizes_bytes(t);
    assert(x =~= (Seq::<u8>::empty()) + be16(t.version) + (bei16(t.xAvgCharWidth) + be16(t.usWeightClass) + be16(t.usWidthClass) + be16(t.fsType) + bei16(t.ySubscriptXSize) + bei16(t.ySubscriptYSize) + bei16(t.ySubscriptXOffset) + bei16(t.ySubscriptYOffset) + bei16(t.ySuperscriptXSize) + bei16(t.ySuperscriptYSize) + bei16(t.ySuperscriptXOffset) + bei16(t.ySuperscriptYOffset) + bei16(t.yStrikeoutSize) + bei16(t.yStrikeoutPosition) + bei16(t.sFamilyClass)));
    lemma_read_be16(Seq::<u8>::empty(), t.version, bei16(t.xAvgCharWidth) + be16(t.usWeightClass) + be16(t.usWidthClass) + be16(t.fsType) + bei16(t.ySubscriptXSize) + bei16(t.ySubscriptYSize) + bei16(t.ySubscriptXOffset) + bei16(t.ySubscriptYOffset) + bei16(t.ySuperscriptXSize) + bei16(t.ySuperscriptYSize) + bei16(t.ySuperscriptXOffset) + bei16(t.ySuperscriptYOffset) + bei16(t.yStrikeoutSize) + bei16(t.yStrikeoutPosition) + bei16(t.sFamilyClass));
    assert(x =~= (be16(t.version)) + bei16(t.xAvgCharWidth) + (be16(t.usWeightClass) + be16(t.usWidthClass) + be16(t.fsType) + bei16(t.ySubscriptXSize) + bei16(t.ySubscriptYSize) + bei16(t.ySubscriptXOffset) + bei16(t.ySubscriptYOffset) + bei16(t.ySuperscriptXSize) + bei16(t.ySuperscriptYSize) + bei16(t.ySuperscriptXOffset) + bei16(t.ySuperscriptYOffset) + bei16(t.yStrikeoutSize) + bei16(t.yStrikeoutPosition) + bei16(t.sFamilyClass)));
    lemma_read_bei16(be16(t.version), t.xAvgCharWidth, be16(t.usWeightClass) + be16(t.usWidthClass) + be16(t.fsType) + bei16(t.ySubscriptXSize) + bei16(t.ySubscriptYSize) + bei16(t.ySubscriptXOffset) + bei16(t.ySubscriptYOffset) + bei16(t.ySuperscriptXSize) + bei16(t.ySuperscriptYSize) + bei16(t.ySuperscriptXOffset) + bei16(t.ySuperscriptYOffset) + bei16(t.yStrikeoutSize) + bei16(t.yStrikeoutPosition) + bei16(t.sFamilyClass));
    assert(x =~= (be16(t.version) + bei16(t.xAvgCharWidth)) + be16(t.usWeightClass) + (be16(t.usWidthClass) + be16(t.fsType) + bei16(t.ySubscriptXSize) + bei16(t.ySubscriptYSize) + bei16(t.ySubscriptXOffset) + bei16(t.ySubscriptYOffset) + bei16(t.ySuperscriptXSize) + bei16(t.ySuperscriptYSize) + bei16(t.ySuperscriptXOffset) + bei16(t.ySuperscriptYOffset) + bei16(t.yStrikeoutSize) + bei16(t.yStrikeoutPosition) + bei16(t.sFamilyClass)));
    lemma_read_be16(be16(t.version) + bei16(t.xAvgCharWidth), t.usWeightClass, be16(t.usWidthClass) + be16(t.fsType) + bei16(t.ySubscriptXSize) + bei16(t.ySubscriptYSize) + bei16(t.ySubscriptXOffset) + bei16(t.ySubscriptYOffset) + bei16(t.ySuperscriptXSize) + bei16(t.ySuperscriptYSize) + bei16(t.ySuperscriptXOffset) + bei16(t.ySuperscriptYOffset) + bei16(t.yStrikeoutSize) + bei16(t.yStrikeoutPosition) + bei16(t.sFamilyClass));
    assert(x =~= (be16(t.version) + bei16(t.xAvgCharWidth) + be16(t.usWeightClass)) + be16(t.usWidthClass) + (be16(t.fsType) + bei16(t.ySubscriptXSize) + bei16(t.ySubscriptYSize) + bei16(t.ySubscriptXOffset) + bei16(t.ySubscriptYOffset) + bei16(t.ySuperscriptXSize) + bei16(t.ySuperscriptYSize) + bei16(t.ySuperscriptXOffset) + bei16(t.ySuperscriptYOffset) + bei16(t.yStrikeoutSize) + bei16(t.yStrikeoutPosition) + bei16(t.sFamilyClass)));
    lemma_read_be16(be16(t.version) + bei16(t.xAvgCharWidth) + be16(t.usWeightClass), t.usWidthClass, be16(t.fsType) + bei16(t.ySubscriptXSize) + bei16(t.ySubscriptYSize) + bei16(t.ySubscriptXOffset) + bei16(t.ySubscriptYOffset) + bei16(t.ySuperscriptXSize) + bei16(t.ySuperscriptYSize) + bei16(t.ySuperscriptXOffset) + bei16(t.ySuperscriptYOffset) + bei16(t.yStrikeoutSize) + bei16(t.yStrikeoutPosition) + bei16(t.sFamilyClass));
    assert(x =~= (be16(t.version) + bei16(t.xAvgCharWidth) + be16(t.usWeightClass) + be16(t.usWidthClass)) + be16(t.fsType) + (bei16(t.ySubscriptXSize) + bei16(t.ySubscriptYSize) + bei16(t.ySubscriptXOffset) + bei16(t.ySubscriptYOffset) + bei16(t.ySuperscriptXSize) + bei16(t.ySuperscriptYSize) + bei16(t.ySuperscriptXOffset) + bei16(t.ySuperscriptYOffset) + bei16(t.yStrikeoutSize) + bei16(t.yStrikeoutPosition) + bei16(t.sFamilyClass)));
    lemma_read_be16(be16(t.version) + bei16(t.xAvgCharWidth) + be16(t.usWeightClass) + be16(t.usWidthClass), t.fsType, bei16(t.ySubscriptXSize) + bei16(t.ySubscriptYSize) + bei16(t.ySubscriptXOffset) + bei16(t.ySubscriptYOffset) + bei16(t.ySuperscriptXSize) + bei16(t.ySuperscriptYSize) + bei16(t.ySuperscriptXOffset) + bei16(t.ySuperscriptYOffset) + bei16(t.yStrikeoutSize) + bei16(t.yStrikeoutPosition) + bei16(t.sFamilyClass));
    assert(x =~= (be16(t.version) + bei16(t.xAvgCharWidth) + be16(t.usWeightClass) + be16(t.usWidthClass) + be16(t.fsType)) + bei16(t.ySubscriptXSize) + (bei16(t.ySubscriptYSize) + bei16(t.ySubscriptXOffset) + bei16(t.ySubscriptYOffset) + bei16(t.ySuperscriptXSize) + bei16(t.ySuperscriptYSize) + bei16(t.ySuperscriptXOffset) + bei16(t.ySuperscriptYOffset) + bei16(t.yStrikeoutSize) + bei16(t.yStrikeoutPosition) + bei16(t.sFamilyClass)));
    lemma_read_bei16(be16(t.version) + bei16(t.xAvgCharWidth) + be16(t.usWeightClass) + be16(t.usWidthClass) + be16(t.fsType), t.ySubscriptXSize, bei16(t.ySubscriptYSize) + bei16(t.ySubscriptXOffset) + bei16(t.ySubscriptYOffset) + bei16(t.ySuperscriptXSize) + bei16(t.ySuperscriptYSize) + bei16(t.ySuperscriptXOffset) + bei16(t.ySuperscriptYOffset) + bei16(t.yStrikeoutSize) + bei16(t.yStrikeoutPosition) + bei16(t.sFamilyClass));
    assert(x =~= (be16(t.version) + bei16(t.xAvgCharWidth) + be16(t.usWeightClass) + be16(t.usWidthClass) + be16(t.fsType) + bei16(t.ySubscriptXSize)) + bei16(t.ySubscriptYSize) + (bei16(t.ySubscriptXOffset) + bei16(t.ySubscriptYOffset) + bei16(t.ySuperscriptXSize) + bei16(t.ySuperscriptYSize) + bei16(t.ySuperscriptXOffset) + bei16(t.ySuperscriptYOffset) + bei16(t.yStrikeoutSize) + bei16(t.yStrikeoutPosition) + bei16(t.sFamilyClass)));
    lemma_read_bei16(be16(t.version) + bei16(t.xAvgCharWidth) + be16(t.usWeightClass) + be16(t.usWidthClass) + be16(t.fsType) + bei16(t.ySubscriptXSize), t.ySubscriptYSize, bei16(t.ySubscriptXOffset) + bei16(t.ySubscriptYOffset) + bei16(t.ySuperscriptXSize) + bei16(t.ySuperscriptYSize) + bei16(t.ySuperscriptXOffset) + bei16(t.ySuperscriptYOffset) + bei16(t.yStrikeoutSize) + bei16(t.yStrikeoutPosition) + bei16(t.sFamilyClass));
    assert(x =~= (be16(t.version) + bei16(t.xAvgCharWidth) + be16(t.usWeightClass) + be16(t.usWidthClass) + be16(t.fsType) + bei16(t.ySubscriptXSize) + bei16(t.ySubscriptYSize)) + bei16(t.ySubscriptXOffset) + (bei16(t.ySubscriptYOffset) + bei16(t.ySuperscriptXSize) + bei16(t.ySuperscriptYSize) + bei16(t.ySuperscriptXOffset) + bei16(t.ySuperscriptYOffset) + bei16(t.yStrikeoutSize) + bei16(t.yStrikeoutPosition) + bei16(t.sFamilyClass)));
    lemma_read_bei16(be16(t.version) + bei16(t.xAvgCharWidth) + be16(t.usWeightClass) + be16(t.usWidthClass) + be16(t.fsType) + bei16(t.ySubscriptXSize) + bei16(t.ySubscriptYSize), t.ySubscriptXOffset, bei16(t.ySubscriptYOffset) + bei16(t.ySuperscriptXSize) + bei16(t.ySuperscriptYSize) + bei16(t.ySuperscriptXOffset) + bei16(t.ySuperscriptYOffset) + bei16(t.yStrikeoutSize) + bei16(t.yStrikeoutPosition) + bei16(t.sFamilyClass));
    assert(x =~= (be16(t.version) + bei16(t.xAvgCharWidth) + be16(t.usWeightClass) + be16(t.usWidthClass) + be16(t.fsType) + bei16(t.ySubscriptXSize) + bei16(t.ySubscriptYSize) + bei16(t.ySubscriptXOffset)) + bei16(t.ySubscriptYOffset) + (bei16(t.ySuperscriptXSize) + bei16(t.ySuperscriptYSize) + bei16(t.ySuperscriptXOffset) + bei16(t.ySuperscriptYOffset) + bei16(t.yStrikeoutSize) + bei16(t.yStrikeoutPosition) + bei16(t.sFamilyClass)));
    lemma_read_bei16(be16(t.version) + bei16(t.xAvgCharWidth) + be16(t.usWeightClass) + be16(t.usWidthClass) + be16(t.fsType) + bei16(t.ySubscriptXSize) + bei16(t.ySubscriptYSize) + bei16(t.ySubscriptXOffset), t.ySubscriptYOffset, bei16(t.ySuperscriptXSize) + bei16(t.ySuperscriptYSize) + bei16(t.ySuperscriptXOffset) + bei16(t.ySuperscriptYOffset) + bei16(t.yStrikeoutSize) + bei16(t.yStrikeoutPosition) + bei16(t.sFamilyClass));
    assert(x =~= (be16(t.version) + bei16(t.xAvgCharWidth) + be16(t.usWeightClass) + be16(t.usWidthClass) + be16(t.fsType) + bei16(t.ySubscriptXSize) + bei16(t.ySubscriptYSize) + bei16(t.ySubscriptXOffset) + bei16(t.ySubscriptYOffset)) + bei16(t.ySuperscriptXSize) + (bei16(t.ySuperscriptYSize) + bei16(t.ySuperscriptXOffset) + bei16(t.ySuperscriptYOffset) + bei16(t.yStrikeoutSize) + bei16(t.yStrikeoutPosition) + bei16(t.sFamilyClass)));
    lemma_read_bei16(be16(t.version) + bei16(t.xAvgCharWidth) + be16(t.usWeightClass) + be16(t.usWidthClass) + be16(t.fsType) + bei16(t.ySubscriptXSize) + bei16(t.ySubscriptYSize) + bei16(t.ySubscriptXOffset) + bei16(t.ySubscriptYOffset), t.ySuperscriptXSize, bei16(t.ySuperscriptYSize) + bei16(t.ySuperscriptXOffset) + bei16(t.ySuperscriptYOffset) + bei16(t.yStrikeoutSize) + bei16(t.yStrikeoutPosition) + bei16(t.sFamilyClass));
    assert(x =~= (be16(t.version) + bei16(t.xAvgCharWidth) + be16(t.usWeightClass) + be16(t.usWidthClass) + be16(t.fsType) + bei16(t.ySubscriptXSize) + bei16(t.ySubscriptYSize) + bei16(t.ySubscriptXOffset) + bei16(t.ySubscriptYOffset) + bei16(t.ySuperscriptXSize)) + bei16(t.ySuperscriptYSize) + (bei16(t.ySuperscriptXOffset) + bei16(t.ySuperscriptYOffset) + bei16(t.yStrikeoutSize) + bei16(t.yStrikeoutPosition) + bei16(t.sFamilyClass)));
    lemma_read_bei16(be16(t.version) + bei16(t.xAvgCharWidth) + be16(t.usWeightClass) + be16(t.usWidthClass) + be16(t.fsType) + bei16(t.ySubscriptXSize) + bei16(t.ySubscriptYSize) + bei16(t.ySubscriptXOffset) + bei16(t.ySubscriptYOffset) + bei16(t.ySuperscriptXSize), t.ySuperscriptYSize, bei16(t.ySuperscriptXOffset) + bei16(t.ySuperscriptYOffset) + bei16(t.yStrikeoutSize) + bei16(t.yStrikeoutPosition) + bei16(t.sFamilyClass));
    assert(x =~= (be16(t.version) + bei16(t.xAvgCharWidth) + be16(t.usWeightClass) + be16(t.usWidthClass) + be16(t.fsType) + bei16(t.ySubscriptXSize) + bei16(t.ySubscriptYSize) + bei16(t.ySubscriptXOffset) + bei16(t.ySubscriptYOffset) + bei16(t.ySuperscriptXSize) + bei16(t.ySuperscriptYSize)) + bei16(t.ySuperscriptXOffset) + (bei16(t.ySuperscriptYOffset) + bei16(t.yStrikeoutSize) + bei16(t.yStrikeoutPosition) + bei16(t.sFamilyClass)));
    lemma_read_bei16(be16(t.version) + bei16(t.xAvgCharWidth) + be16(t.usWeightClass) + be16(t.usWidthClass) + be16(t.fsType) + bei16(t.ySubscriptXSize) + bei16(t.ySubscriptYSize) + bei16(t.ySubscriptXOffset) + bei16(t.ySubscriptYOffset) + bei16(t.ySuperscriptXSize) + bei16(t.ySuperscriptYSize), t.ySuperscriptXOffset, bei16(t.ySuperscriptYOffset) + bei16(t.yStrikeoutSize) + bei16(t.yStrikeoutPosition) + bei16(t.sFamilyClass));
    assert(x =~= (be16(t.version) + bei16(t.xAvgCharWidth) + be16(t.usWeightClass) + be16(t.usWidthClass) + be16(t.fsType) + bei16(t.ySubscriptXSize) + bei16(t.ySubscriptYSize) + bei16(t.ySubscriptXOffset) + bei16(t.ySubscriptYOffset) + bei16(t.ySuperscriptXSize) + bei16(t.ySuperscriptYSize) + bei16(t.ySuperscriptXOffset)) + bei16(t.ySuperscriptYOffset) + (bei16(t.yStrikeoutSize) + bei16(t.yStrikeoutPosition) + bei16(t.sFamilyClass)));
    lemma_read_bei16(be16(t.version) + bei16(t.xAvgCharWidth) + be16(t.usWeightClass) + be16(t.usWidthClass) + be16(t.fsType) + bei16(t.ySubscriptXSize) + bei16(t.ySubscriptYSize) + bei16(t.ySubscriptXOffset) + bei16(t.ySubscriptYOffset) + bei16(t.ySuperscriptXSize) + bei16(t.ySuperscriptYSize) + bei16(t.ySuperscriptXOffset), t.ySuperscriptYOffset, bei16(t.yStrikeoutSize) + bei16(t.yStrikeoutPosition) + bei16(t.sFamilyClass));
    assert(x =~= (be16(t.version) + bei16(t.xAvgCharWidth) + be16(t.usWeightClass) + be16(t.usWidthClass) + be16(t.fsType) + bei16(t.ySubscriptXSize) + bei16(t.ySubscriptYSize) + bei16(t.ySubscriptXOffset) + bei16(t.ySubscriptYOffset) + bei16(t.ySuperscriptXSize) + bei16(t.ySuperscriptYSize) + bei16(t.ySuperscriptXOffset) + bei16(t.ySuperscriptYOffset)) + bei16(t.yStrikeoutSize) + (bei16(t.yStrikeoutPosition) + bei16(t.sFamilyClass)));
    lemma_read_bei16(be16(t.version) + bei16(t.xAvgCharWidth) + be16(t.usWeightClass) + be16(t.usWidthClass) + be16(t.fsType) + bei16(t.ySubscriptXSize) + bei16(t.ySubscriptYSize) + bei16(t.ySubscriptXOffset) + bei16(t.ySubscriptYOffset) + bei16(t.ySuperscriptXSize) + bei16(t.ySuperscriptYSize) + bei16(t.ySuperscriptXOffset) + bei16(t.ySuperscriptYOffset), t.yStrikeoutSize, bei16(t.yStrikeoutPosition) + bei16(t.sFamilyClass));
    assert(x =~= (be16(t.version) + bei16(t.xAvgCharWidth) + be16(t.usWeightClass) + be16(t.usWidthClass) + be16(t.fsType) + bei16(t.ySubscriptXSize) + bei16(t.ySubscriptYSize) + bei16(t.ySubscriptXOffset) + bei16(t.ySubscriptYOffset) + bei16(t.ySuperscriptXSize) + bei16(t.ySuperscriptYSize) + bei16(t.ySuperscriptXOffset) + bei16(t.ySuperscriptYOffset) + bei16(t.yStrikeoutSize)) + bei16(t.yStrikeoutPosition) + (bei16(t.sFamilyClass)));
    lemma_read_bei16(be16(t.version) + bei16(t.xAvgCharWidth) + be16(t.usWeightClass) + be16(t.usWidthClass) + be16(t.fsType) + bei16(t.ySubscriptXSize) + bei16(t.ySubscriptYSize) + bei16(t.ySubscriptXOffset) + bei16(t.ySubscriptYOffset) + bei16(t.ySuperscriptXSize) + bei16(t.ySuperscriptYSize) + bei16(t.ySuperscriptXOffset) + bei16(t.ySuperscriptYOffset) + bei16(t.yStrikeoutSize), t.yStrikeoutPosition, bei16(t.sFamilyClass));
    assert(x =~= (be16(t.version) + bei16(t.xAvgCharWidth) + be16(t.usWeightClass) + be16(t.usWidthClass) + be16(t.fsType) + bei16(t.ySubscriptXSize) + bei16(t.ySubscriptYSize) + bei16(t.ySubscriptXOffset) + bei16(t.ySubscriptYOffset) + bei16(t.ySuperscriptXSize) + bei16(t.ySuperscriptYSize) + bei16(t.ySuperscriptXOffset) + bei16(t.ySuperscriptYOffset) + bei16(t.yStrikeoutSize) + bei16(t.yStrikeoutPosition)) + bei16(t.sFamilyClass) + (Seq::<u8>::empty()));
    lemma_read_bei16(be16(t.version) + bei16(t.xAvgCharWidth) + be16(t.usWeightClass) + be16(t.usWidthClass) + be16(t.fsType) + bei16(t.ySubscriptXSize) + bei16(t.ySubscriptYSize) + bei16(t.ySubscriptXOffset) + bei16(t.ySubscriptYOffset) + bei16(t.ySuperscriptXSize) + bei16(t.ySuperscriptYSize) + bei16(t.ySuperscriptXOffset) + bei16(t.ySuperscriptYOffset) + bei16(t.yStrikeoutSize) + bei16(t.yStrikeoutPosition), t.sFamilyClass, Seq::<u8>::empty());
}

#[verifier::spinoff_prover]
proof fn lemma_os2_ranges_bytes_read(t: os2)
    ensures
        os2_ranges_bytes(t).len() == 20,
        u32_at(os2_ranges_bytes(t), 0) == t.ulUnicodeRange1,
        u32_at(os2_ranges_bytes(t), 4) == t.ulUnicodeRange2,
        u32_at(os2_ranges_bytes(t), 8) == t.ulUnicodeRange3,
        u32_at(os2_ranges_bytes(t), 12) == t.ulUnicodeRange4,
        u32_at(os2_ranges_bytes(t), 16) == t.achVendID,
{
    let x = os2_ranges_bytes(t);
    assert(x =~= (Seq::<u8>::empty()) + be32(t.ulUnicodeRange1) + (be32(t.ulUnicodeRange2) + be32(t.ulUnicodeRange3) + be32(t.ulUnicodeRange4) + be32(t.achVendID)));
    lemma_read_be32(Seq::<u8>::empty(), t.ulUnicodeRange1, be32(t.ulUnicodeRange2) + be32(t.ulUnicodeRange3) + be32(t.ulUnicodeRange4) + be32(t.achVendID));
    assert(x =~= (be32(t.ulUnicodeRange1)) + be32(t.ulUnicodeRange2) + (be32(t.ulUnicodeRange3) + be32(t.ulUnicodeRange4) + be32(t.achVendID)));
    lemma_read_be32(be32(t.ulUnicodeRange1), t.ulUnicodeRange2, be32(t.ulUnicodeRange3) + be32(t.ulUnicodeRange4) + be32(t.achVendID));
    assert(x =~= (be32(t.ulUnicodeRange1) + be32(t.ulUnicodeRange2)) + be32(t.ulUnicodeRange3) + (be32(t.ulUnicodeRange4) + be32(t.achVendID)));
    lemma_read_be32(be32(t.ulUnicodeRange1) + be32(t.ulUnicodeRange2), t.ulUnicodeRange3, be32(t.ulUnicodeRange4) + be32(t.achVendID));
    assert(x =~= (be32(t.ulUnicodeRange1) + be32(t.ulUnicodeRange2) + be32(t.ulUnicodeRange3)) + be32(t.ulUnicodeRange4) + (be32(t.achVendID)));
    lemma_read_be32(be32(t.ulUnicodeRange1) + be32(t.ulUnicodeRange2) + be32(t.ulUnicodeRange3), t.ulUnicodeRange4, be32(t.achVendID));
    assert(x =~= (be32(t.ulUnicodeRange1) + be32(t.ulUnicodeRange2) + be32(t.ulUnicodeRange3) + be32(t.ulUnicodeRange4)) + be32(t.achVendID) + (Seq::<u8>::empty()));
    lemma_read_be32(be32(t.ulUnicodeRange1) + be32(t.ulUnicodeRange2) + be32(t.ulUnicodeRange3) + be32(t.ulUnicodeRange4), t.achVendID, Seq::<u8>::empty());
}

#[verifier::spinoff_prover]
proof fn lemma_os2_metrics_bytes_read(t: os2)
    ensures
        os2_metrics_bytes(t).len() == 16,
        u16_at(os2_metrics_bytes(t), 0) == t.fsSelection,
        u16_at(os2_metrics_bytes(t), 2) == t.usFirstCharIndex,
        u16_at(os2_metrics_bytes(t), 4) == t.usLastCharIndex,
        i16_at(os2_metrics_bytes(t), 6) == t.sTypoAscender,
        i16_at(os2_metrics_bytes(t), 8) == t.sTypoDescender,
        i16_at(os2_metrics_bytes(t), 10) == t.sTypoLineGap,
        u16_at(os2_metrics_bytes(t), 12) == t.usWinAscent,
        u16_at(os2_metrics_bytes(t), 14) == t.usWinDescent,
{
    let x = os2_metrics_bytes(t);
    assert(x =~= (Seq::<u8>::empty()) + be16(t.fsSelection) + (be16(t.usFirstCharIndex) + be16(t.usLastCharIndex) + bei16(t.sTypoAscender) + bei16(t.sTypoDescender) + bei16(t.sTypoLineGap) + be16(t.usWinAscent) + be16(t.usWinDescent)));
    lemma_read_be16(Seq::<u8>::empty(), t.fsSelection, be16(t.usFirstCharIndex) + be16(t.usLastCharIndex) + bei16(t.sTypoAscender) + bei16(t.sTypoDescender) + bei16(t.sTypoLineGap) + be16(t.usWinAscent) + be16(t.usWinDescent));
    assert(x =~= (be16(t.fsSelection)) + be16(t.usFirstCharIndex) + (be16(t.usLastCharIndex) + bei16(t.sTypoAscender) + bei16(t.sTypoDescender) + bei16(t.sTypoLineGap) + be16(t.usWinAscent) + be16(t.usWinDescent)));
    lemma_read_be16(be16(t.fsSelection), t.usFirstCharIndex, be16(t.usLastCharIndex) + bei16(t.sTypoAscender) + bei16(t.sTypoDescender) + bei16(t.sTypoLineGap) + be16(t.usWinAscent) + be16(t.usWinDescent));
    assert(x =~= (be16(t.fsSelection) + be16(t.usFirstCharIndex)) + be16(t.usLastCharIndex) + (bei16(t.sTypoAscender) + bei16(t.sTypoDescender) + bei16(t.sTypoLineGap) + be16(t.usWinAscent) + be16(t.usWinDescent)));
    lemma_read_be16(be16(t.fsSelection) + be16(t.usFirstCharIndex), t.usLastCharIndex, bei16(t.sTypoAscender) + bei16(t.sTypoDescender) + bei16(t.sTypoLineGap) + be16(t.usWinAscent) + be16(t.usWinDescent));
    assert(x =~= (be16(t.fsSelection) + be16(t.usFirstCharIndex) + be16(t.usLastCharIndex)) + bei16(t.sTypoAscender) + (bei16(t.sTypoDescender) + bei16(t.sTypoLineGap) + be16(t.usWinAscent) + be16(t.usWinDescent)));
    lemma_read_bei16(be16(t.fsSelection) + be16(t.usFirstCharIndex) + be16(t.usLastCharIndex), t.sTypoAscender, bei16(t.sTypoDescender) + bei16(t.sTypoLineGap) + be16(t.usWinAscent) + be16(t.usWinDescent));
    assert(x =~= (be16(t.fsSelection) + be16(t.usFirstCharIndex) + be16(t.usLastCharIndex) + bei16(t.sTypoAscender)) + bei16(t.sTypoDescender) + (bei16(t.sTypoLineGap) + be16(t.usWinAscent) + be16(t.usWinDescent)));
    lemma_read_bei16(be16(t.fsSelection) + be16(t.usFirstCharIndex) + be16(t.usLastCharIndex) + bei16(t.sTypoAscender), t.sTypoDescender, bei16(t.sTypoLineGap) + be16(t.usWinAscent) + be16(t.usWinDescent));
    assert(x =~= (be16(t.fsSelection) + be16(t.usFirstCharIndex) + be16(t.usLastCharIndex) + bei16(t.sTypoAscender) + bei16(t.sTypoDescender)) + bei16(t.sTypoLineGap) + (be16(t.usWinAscent) + be16(t.usWinDescent)));
    lemma_read_bei16(be16(t.fsSelection) + be16(t.usFirstCharIndex) + be16(t.usLastCharIndex) + bei16(t.sTypoAscender) + bei16(t.sTypoDescender), t.sTypoLineGap, be16(t.usWinAscent) + be16(t.usWinDescent));
    assert(x =~= (be16(t.fsSelection) + be16(t.usFirstCharIndex) + be16(t.usLastCharIndex) + bei16(t.sTypoAscender) + bei16(t.sTypoDescender) + bei16(t.sTypoLineGap)) + be16(t.usWinAscent) + (be16(t.usWinDescent)));
    lemma_read_be16(be16(t.fsSelection) + be16(t.usFirstCharIndex) + be16(t.usLastCharIndex) + bei16(t.sTypoAscender) + bei16(t.sTypoDescender) + bei16(t.sTypoLineGap), t.usWinAscent, be16(t.usWinDescent));
    assert(x =~= (be16(t.fsSelection) + be16(t.usFirstCharIndex) + be16(t.usLastCharIndex) + bei16(t.sTypoAscender) + bei16(t.sTypoDescender) + bei16(t.sTypoLineGap) + be16(t.usWinAscent)) + be16(t.usWinDescent) + (Seq::<u8>::empty()));
    lemma_read_be16(be16(t.fsSelection) + be16(t.usFirstCharIndex) + be16(t.usLastCharIndex) + bei16(t.sTypoAscender) + bei16(t.sTypoDescender) + bei16(t.sTypoLineGap) + be16(t.usWinAscent), t.usWinDescent, Seq::<u8>::empty());
}

#[verifier::spinoff_prover]
proof fn lemma_os2_v1_bytes_read(t: os2)
    requires
        t.version > 0,
    ensures
        os2_v1_bytes(t).len() == 8,
        u32_at(os2_v1_bytes(t), 0) == (match t.ulCodePageRange1 { Some(v) => v, None => 0 }),
        u32_at(os2_v1_bytes(t), 4) == (match t.ulCodePageRange2 { Some(v) => v, None => 0 }),
{
    let x = os2_v1_bytes(t);
    assert(x =~= (Seq::<u8>::empty()) + be32(match t.ulCodePageRange1 { Some(v) => v, None => 0 }) + (be32(match t.ulCodePageRange2 { Some(v) => v, None => 0 })));
    lemma_read_be32(Seq::<u8>::empty(), (match t.ulCodePageRange1 { Some(v) => v, None => 0 }), be32(match t.ulCodePageRange2 { Some(v) => v, None => 0 }));
    assert(x =~= (be32(match t.ulCodePageRange1 { Some(v) => v, None => 0 })) + be32(match t.ulCodePageRange2 { Some(v) => v, None => 0 }) + (Seq::<u8>::empty()));
    lemma_read_be32(be32(match t.ulCodePageRange1 { Some(v) => v, None => 0 }), (match t.ulCodePageRange2 { Some(v) => v, None => 0 }), Seq::<u8>::empty());
}

#[verifier::spinoff_prover]
proof fn lemma_os2_v2_bytes_read(t: os2)
    requires
        t.version > 1,
    ensures
        os2_v2_bytes(t).len() == 10,
        i16_at(os2_v2_bytes(t), 0) == (match t.sxHeight { Some(v) => v, None => 0 }),
        i16_at(os2_v2_bytes(t), 2) == (match t.sCapHeight { Some(v) => v, None => 0 }),
        u16_at(os2_v2_bytes(t), 4) == (match t.usDefaultChar { Some(v) => v, None => 0 }),
        u16_at(os2_v2_bytes(t), 6) == (match t.usBreakChar { Some(v) => v, None => 0 }),
        u16_at(os2_v2_bytes(t), 8) == (match t.usMaxContext { Some(v) => v, None => 0 }),
{
    let x = os2_v2_bytes(t);
    assert(x =~= (Seq::<u8>::empty()) + bei16(match t.sxHeight { Some(v) => v, None => 0 }) + (bei16(match t.sCapHeight { Some(v) => v, None => 0 }) + be16(match t.usDefaultChar { Some(v) => v, None => 0 }) + be16(match t.usBreakChar { Some(v) => v, None => 0 }) + be16(match t.usMaxContext { Some(v) => v, None => 0 })));
    lemma_read_bei16(Seq::<u8>::empty(), (match t.sxHeight { Some(v) => v, None => 0 }), bei16(match t.sCapHeight { Some(v) => v, None => 0 }) + be16(match t.usDefaultChar { Some(v) => v, None => 0 }) + be16(match t.usBreakChar { Some(v) => v, None => 0 }) + be16(match t.usMaxContext { Some(v) => v, None => 0 }));
    assert(x =~= (bei16(match t.sxHeight { Some(v) => v, None => 0 })) + bei16(match t.sCapHeight { Some(v) => v, None => 0 }) + (be16(match t.usDefaultChar { Some(v) => v, None => 0 }) + be16(match t.usBreakChar { Some(v) => v, None => 0 }) + be16(match t.usMaxContext { Some(v) => v, None => 0 })));
    lemma_read_bei16(bei16(match t.sxHeight { Some(v) => v, None => 0 }), (match t.sCapHeight { Some(v) => v, None => 0 }), be16(match t.usDefaultChar { Some(v) => v, None => 0 }) + be16(match t.usBreakChar { Some(v) => v, None => 0 }) + be16(match t.usMaxContext { Some(v) => v, None => 0 }));
    assert(x =~= (bei16(match t.sxHeight { Some(v) => v, None => 0 }) + bei16(match t.sCapHeight { Some(v) => v, None => 0 })) + be16(match t.usDefaultChar { Some(v) => v, None => 0 }) + (be16(match t.usBreakChar { Some(v) => v, None => 0 }) + be16(match t.usMaxContext { Some(v) => v, None => 0 })));
    lemma_read_be16(bei16(match t.sxHeight { Some(v) => v, None => 0 }) + bei16(match t.sCapHeight { Some(v) => v, None => 0 }), (match t.usDefaultChar { Some(v) => v, None => 0 }), be16(match t.usBreakChar { Some(v) => v, None => 0 }) + be16(match t.usMaxContext { Some(v) => v, None => 0 }));
    assert(x =~= (bei16(match t.sxHeight { Some(v) => v, None => 0 }) + bei16(match t.sCapHeight { Some(v) => v, None => 0 }) + be16(match t.usDefaultChar { Some(v) => v, None => 0 })) + be16(match t.usBreakChar { Some(v) => v, None => 0 }) + (be16(match t.usMaxContext { Some(v) => v, None => 0 })));
    lemma_read_be16(bei16(match t.sxHeight { Some(v) => v, None => 0 }) + bei16(match t.sCapHeight { Some(v) => v, None => 0 }) + be16(match t.usDefaultChar { Some(v) => v, None => 0 }), (match t.usBreakChar { Some(v) => v, None => 0 }), be16(match t.usMaxContext { Some(v) => v, None => 0 }));
    assert(x =~= (bei16(match t.sxHeight { Some(v) => v, None => 0 }) + bei16(match t.sCapHeight { Some(v) => v, None => 0 }) + be16(match t.usDefaultChar { Some(v) => v, None => 0 }) + be16(match t.usBreakChar { Some(v) => v, None => 0 })) + be16(match t.usMaxContext { Some(v) => v, None => 0 }) + (Seq::<u8>::empty()));
    lemma_read_be16(bei16(match t.sxHeight { Some(v) => v, None => 0 }) + bei16(match t.sCapHeight { Some(v) => v, None => 0 }) + be16(match t.usDefaultChar { Some(v) => v, None => 0 }) + be16(match t.usBreakChar { Some(v) => v, None => 0 }), (match t.usMaxContext { Some(v) => v, None => 0 }), Seq::<u8>::empty());
}

#[verifier::spinoff_prover]
proof fn lemma_os2_v5_bytes_read(t: os2)
    requires
        t.version > 4,
    ensures
        os2_v5_bytes(t).len() == 4,
        u16_at(os2_v5_bytes(t), 0) == (match t.usLowerOpticalPointSize { Some(v) => v, None => 0 }),
        u16_at(os2_v5_bytes(t), 2) == (match t.usUpperOpticalPointSize { Some(v) => v, None => 0 }),
{
    let x = os2_v5_bytes(t);
    assert(x =~= (Seq::<u8>::empty()) + be16(match t.usLowerOpticalPointSize { Some(v) => v, None => 0 }) + (be16(match t.usUpperOpticalPointSize { Some(v) => v, None => 0 })));
    lemma_read_be16(Seq::<u8>::empty(), (match t.usLowerOpticalPointSize { Some(v) => v, None => 0 }), be16(match t.usUpperOpticalPointSize { Some(v) => v, None => 0 }));
    assert(x =~= (be16(match t.usLowerOpticalPointSize { Some(v) => v, None => 0 })) + be16(match t.usUpperOpticalPointSize { Some(v) => v, None => 0 }) + (Seq::<u8>::empty()));
    lemma_read_be16(be16(match t.usLowerOpticalPointSize { Some(v) => v, None => 0 }), (match t.usUpperOpticalPointSize { Some(v) => v, None => 0 }), Seq::<u8>::empty());
}

/// What reading back a written table gives: the fields of its version, an
/// absent one as 0, and none of the fields of later versions.
pub open spec fn os2_written(t: os2) -> os2 {
    os2 {
        ulCodePageRange1: if t.version > 0 { Some(match t.ulCodePageRange1 { Some(v) => v, None => 0 }) } else { None },
        ulCodePageRange2: if t.version > 0 { Some(match t.ulCodePageRange2 { Some(v) => v, None => 0 }) } else { None },
        sxHeight: if t.version > 1 { Some(match t.sxHeight { Some(v) => v, None => 0 }) } else { None },
        sCapHeight: if t.version > 1 { Some(match t.sCapHeight { Some(v) => v, None => 0 }) } else { None },
        usDefaultChar: if t.version > 1 { Some(match t.usDefaultChar { Some(v) => v, None => 0 }) } else { None },
        usBreakChar: if t.version > 1 { Some(match t.usBreakChar { Some(v) => v, None => 0 }) } else { None },
        usMaxContext: if t.version > 1 { Some(match t.usMaxContext { Some(v) => v, None => 0 }) } else { None },
        usLowerOpticalPointSize: if t.version > 4 { Some(match t.usLowerOpticalPointSize { Some(v) => v, None => 0 }) } else { None },
        usUpperOpticalPointSize: if t.version > 4 { Some(match t.usUpperOpticalPointSize { Some(v) => v, None => 0 }) } else { None },
        ..t
    }
}

/// The fields every version has, where they are written.
#[verifier::spinoff_prover]
#[verifier::rlimit(60)]
proof fn lemma_os2_core_reads(t: os2)
    ensures
        u16_at(os2_encoding(t), 0) == t.version,
        i16_at(os2_encoding(t), 2) == t.xAvgCharWidth,
        u16_at(os2_encoding(t), 4) == t.usWeightClass,
        u16_at(os2_encoding(t), 6) == t.usWidthClass,
        u16_at(os2_encoding(t), 8) == t.fsType,
        i16_at(os2_encoding(t), 10) == t.ySubscriptXSize,
        i16_at(os2_encoding(t), 12) == t.ySubscriptYSize,
        i16_at(os2_encoding(t), 14) == t.ySubscriptXOffset,
        i16_at(os2_encoding(t), 16) == t.ySubscriptYOffset,
        i16_at(os2_encoding(t), 18) == t.ySuperscriptXSize,
        i16_at(os2_encoding(t), 20) == t.ySuperscriptYSize,
        i16_at(os2_encoding(t), 22) == t.ySuperscriptXOffset,
        i16_at(os2_encoding(t), 24) == t.ySuperscriptYOffset,
        i16_at(os2_encoding(t), 26) == t.yStrikeoutSize,
        i16_at(os2_encoding(t), 28) == t.yStrikeoutPosition,
        i16_at(os2_encoding(t), 30) == t.sFamilyClass,
        u32_at(os2_encoding(t), 42) == t.ulUnicodeRange1,
        u32_at(os2_encoding(t), 46) == t.ulUnicodeRange2,
        u32_at(os2_encoding(t), 50) == t.ulUnicodeRange3,
        u32_at(os2_encoding(t), 54) == t.ulUnicodeRange4,
        u32_at(os2_encoding(t), 58) == t.achVendID,
        u16_at(os2_encoding(t), 62) == t.fsSelection,
        u16_at(os2_encoding(t), 64) == t.usFirstCharIndex,
        u16_at(os2_encoding(t), 66) == t.usLastCharIndex,
        i16_at(os2_encoding(t), 68) == t.sTypoAscender,
        i16_at(os2_encoding(t), 70) == t.sTypoDescender,
        i16_at(os2_encoding(t), 72) == t.sTypoLineGap,
        u16_at(os2_encoding(t), 74) == t.usWinAscent,
        u16_at(os2_encoding(t), 76) == t.usWinDescent,
        forall|i: int| 0 <= i < 10 ==> os2_encoding(t)[32 + i] == #[trigger] panose_bytes(t.panose)[i],
{
    let s = os2_encoding(t);
    let a = os2_sizes_bytes(t);
    let p = panose_bytes(t.panose);
    let b = os2_ranges_bytes(t);
    let c = os2_metrics_bytes(t);
    let d1 = os2_v1_bytes(t);
    let d2 = os2_v2_bytes(t);
    let d5 = os2_v5_bytes(t);
    lemma_os2_sizes_bytes_read(t);
    lemma_os2_ranges_bytes_read(t);
    lemma_os2_metrics_bytes_read(t);
    assert(s =~= Seq::<u8>::empty() + a + (p + b + c + d1 + d2 + d5));
    lemma_window_parts(Seq::<u8>::empty(), a, p + b + c + d1 + d2 + d5);
    assert(s =~= a + p + (b + c + d1 + d2 + d5));
    lemma_window_parts(a, p, b + c + d1 + d2 + d5);
    assert(s =~= (a + p) + b + (c + d1 + d2 + d5));
    lemma_window_parts(a + p, b, c + d1 + d2 + d5);
    assert(s =~= (a + p + b) + c + (d1 + d2 + d5));
    lemma_window_parts(a + p + b, c, d1 + d2 + d5);
    assert forall|i: int| 0 <= i < 10 implies s[32 + i] == #[trigger] p[i] by {
        assert(p[i] == s.subrange(32, 42)[i]);
    }
    lemma_window_u16(s, 0, a, 0);
    lemma_window_u16(s, 0, a, 2);
    lemma_window_u16(s, 0, a, 4);
    lemma_window_u16(s, 0, a, 6);
    lemma_window_u16(s, 0, a, 8);
    lemma_window_u16(s, 0, a, 10);
    lemma_window_u16(s, 0, a, 12);
    lemma_window_u16(s, 0, a, 14);
    lemma_window_u16(s, 0, a, 16);
    lemma_window_u16(s, 0, a, 18);
    lemma_window_u16(s, 0, a, 20);
    lemma_window_u16(s, 0, a, 22);
    lemma_window_u16(s, 0, a, 24);
    lemma_window_u16(s, 0, a, 26);
    lemma_window_u16(s, 0, a, 28);
    lemma_window_u16(s, 0, a, 30);
    lemma_window_u32(s, 42, b, 0);
    lemma_window_u32(s, 42, b, 4);
    lemma_window_u32(s, 42, b, 8);
    lemma_window_u32(s, 42, b, 12);
    lemma_window_u32(s, 42, b, 16);
    lemma_window_u16(s, 62, c, 0);
    lemma_window_u16(s, 62, c, 2);
    lemma_window_u16(s, 62, c, 4);
    lemma_window_u16(s, 62, c, 6);
    lemma_window_u16(s, 62, c, 8);
    lemma_window_u16(s, 62, c, 10);
    lemma_window_u16(s, 62, c, 12);
    lemma_window_u16(s, 62, c, 14);
}

/// The fields of later versions, where they are written.
#[verifier::spinoff_prover]
#[verifier::rlimit(60)]
proof fn lemma_os2_ext_reads(t: os2)
    ensures
        os2_encoding(t).len() == os2_len(t.version),
        t.version > 0 ==> u32_at(os2_encoding(t), 78) == (match t.ulCodePageRange1 { Some(v) => v, None => 0 }),
        t.version > 0 ==> u32_at(os2_encoding(t), 82) == (match t.ulCodePageRange2 { Some(v) => v, None => 0 }),
        t.version > 1 ==> i16_at(os2_encoding(t), 86) == (match t.sxHeight { Some(v) => v, None => 0 }),
        t.version > 1 ==> i16_at(os2_encoding(t), 88) == (match t.sCapHeight { Some(v) => v, None => 0 }),
        t.version > 1 ==> u16_at(os2_encoding(t), 90) == (match t.usDefaultChar { Some(v) => v, None => 0 }),
        t.version > 1 ==> u16_at(os2_encoding(t), 92) == (match t.usBreakChar { Some(v) => v, None => 0 }),
        t.version > 1 ==> u16_at(os2_encoding(t), 94) == (match t.usMaxContext { Some(v) => v, None => 0 }),
        t.version > 4 ==> u16_at(os2_encoding(t), 96) == (match t.usLowerOpticalPointSize { Some(v) => v, None => 0 }),
        t.version > 4 ==> u16_at(os2_encoding(t), 98) == (match t.usUpperOpticalPointSize { Some(v) => v, None => 0 }),
{
    let s = os2_encoding(t);
    let a = os2_sizes_bytes(t);
    let p = panose_bytes(t.panose);
    let b = os2_ranges_bytes(t);
    let c = os2_metrics_bytes(t);
    let d1 = os2_v1_bytes(t);
    let d2 = os2_v2_bytes(t);
    let d5 = os2_v5_bytes(t);
    assert(s =~= (a + p + b + c) + (d1 + d2 + d5));
    assert((a + p + b + c).len() == 78) by {
        lemma_os2_sizes_bytes_read(t);
        lemma_os2_ranges_bytes_read(t);
        lemma_os2_metrics_bytes_read(t);
    }
    if t.version > 0 {
        lemma_os2_v1_bytes_read(t);
        assert(s =~= (a + p + b + c) + d1 + (d2 + d5));
        lemma_window_parts(a + p + b + c, d1, d2 + d5);
        lemma_window_u32(s, 78, d1, 0);
        lemma_window_u32(s, 78, d1, 4);
    }
    if t.version > 1 {
        lemma_os2_v2_bytes_read(t);
        assert(s =~= (a + p + b + c + d1) + d2 + d5);
        lemma_window_parts(a + p + b + c + d1, d2, d5);
        lemma_window_u16(s, 86, d2, 0);
        lemma_window_u16(s, 86, d2, 2);
        lemma_window_u16(s, 86, d2, 4);
        lemma_window_u16(s, 86, d2, 6);
        lemma_window_u16(s, 86, d2, 8);
    }
    if t.version > 4 {
        lemma_os2_v5_bytes_read(t);
        assert(s =~= (a + p + b + c + d1 + d2) + d5 + Seq::<u8>::empty());
        lemma_window_parts(a + p + b + c + d1 + d2, d5, Seq::empty());
        lemma_window_u16(s, 96, d5, 0);
        lemma_window_u16(s, 96, d5, 2);
    }
}

/// Writing an `OS/2` table and reading it back gives the fields of its version.
#[verifier::spinoff_prover]
#[verifier::rlimit(60)]
pub proof fn lemma_os2_roundtrip(t: os2)
    ensures
        os2_decoding(os2_encoding(t)) == Some(os2_written(t)),
{
    lemma_os2_core_reads(t);
    lemma_os2_ext_reads(t);
    let s = os2_encoding(t);
    let pb = panose_bytes(t.panose);
    assert(s[32 + 0int] == pb[0] && s[32 + 1int] == pb[1] && s[32 + 2int] == pb[2] && s[32 + 3int] == pb[3]);
    assert(s[32 + 4int] == pb[4] && s[32 + 5int] == pb[5] && s[32 + 6int] == pb[6] && s[32 + 7int] == pb[7]);
    assert(s[32 + 8int] == pb[8] && s[32 + 9int] == pb[9]);
}

impl os2 {
    /// The table in binary form.
    pub fn to_bytes(&self) -> (r: Vec<u8>)
        ensures
            r@ == os2_encoding(*self),
    {
        let mut out: Vec<u8> = Vec::new();
        push_sizes(&mut out, self);
        push_panose(&mut out, &self.panose);
        push_ranges(&mut out, self);
        push_metrics(&mut out, self);
        push_os2_v1_bytes(&mut out, self);
        push_os2_v2_bytes(&mut out, self);
        push_os2_v5_bytes(&mut out, self);
        assert(out@ =~= os2_encoding(*self));
        out
    }

    /// Reads an `OS/2` table.
    pub fn from_bytes(data: &[u8]) -> (r: Result<os2, DeserializationError>)
        ensures
            match r {
                Ok(t) => os2_decoding(data@) == Some(t),
                Err(_) => os2_decoding(data@) is None,
            },
    {
        if data.len() < 78 {
            return Err(DeserializationError::UnexpectedEof);
        }
        let v = read_u16(data, 0).unwrap();
        let need: usize = if v > 4 { 100 } else if v > 1 { 96 } else if v > 0 { 86 } else { 78 };
        if data.len() < need {
            return Err(DeserializationError::UnexpectedEof);
        }
        Ok(os2 {
            version: read_u16(data, 0).unwrap(),
            xAvgCharWidth: read_i16(data, 2).unwrap(),
            usWeightClass: read_u16(data, 4).unwrap(),
            usWidthClass: read_u16(data, 6).unwrap(),
            fsType: read_u16(data, 8).unwrap(),
            ySubscriptXSize: read_i16(data, 10).unwrap(),
            ySubscriptYSize: read_i16(data, 12).unwrap(),
            ySubscriptXOffset: read_i16(data, 14).unwrap(),
            ySubscriptYOffset: read_i16(data, 16).unwrap(),
            ySuperscriptXSize: read_i16(data, 18).unwrap(),
            ySuperscriptYSize: read_i16(data, 20).unwrap(),
            ySuperscriptXOffset: read_i16(data, 22).unwrap(),
            ySuperscriptYOffset: read_i16(data, 24).unwrap(),
            yStrikeoutSize: read_i16(data, 26).unwrap(),
            yStrikeoutPosition: read_i16(data, 28).unwrap(),
            sFamilyClass: read_i16(data, 30).unwrap(),
            panose: Panose { panose0: data[32], panose1: data[33], panose2: data[34], panose3: data[35], panose4: data[36], panose5: data[37], panose6: data[38], panose7: data[39], panose8: data[40], panose9: data[41] },
            ulUnicodeRange1: read_u32(data, 42).unwrap(),
            ulUnicodeRange2: read_u32(data, 46).unwrap(),
            ulUnicodeRange3: read_u32(data, 50).unwrap(),
            ulUnicodeRange4: read_u32(data, 54).unwrap(),
            achVendID: read_u32(data, 58).unwrap(),
            fsSelection: read_u16(data, 62).unwrap(),
            usFirstCharIndex: read_u16(data, 64).unwrap(),
            usLastCharIndex: read_u16(data, 66).unwrap(),
            sTypoAscender: read_i16(data, 68).unwrap(),
            sTypoDescender: read_i16(data, 70).unwrap(),
            sTypoLineGap: read_i16(data, 72).unwrap(),
            usWinAscent: read_u16(data, 74).unwrap(),
            usWinDescent: read_u16(data, 76).unwrap(),
            ulCodePageRange1: if v > 0 { Some(read_u32(data, 78).unwrap()) } else { None },
            ulCodePageRange2: if v > 0 { Some(read_u32(data, 82).unwrap()) } else { None },
            sxHeight: if v > 1 { Some(read_i16(data, 86).unwrap()) } else { None },
            sCapHeight: if v > 1 { Some(read_i16(data, 88).unwrap()) } else { None },
            usDefaultChar: if v > 1 { Some(read_u16(data, 90).unwrap()) } else { None },
            usBreakChar: if v > 1 { Some(read_u16(data, 92).unwrap()) } else { None },
            usMaxContext: if v > 1 { Some(read_u16(data, 94).unwrap()) } else { None },
            usLowerOpticalPointSize: if v > 4 { Some(read_u16(data, 96).unwrap()) } else { None },
            usUpperOpticalPointSize: if v > 4 { Some(read_u16(data, 98).unwrap()) } else { None },
        })
    }
}

} // verus!
