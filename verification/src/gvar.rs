//! The `gvar` (glyph variations) table: for each glyph, the deltas of its
//! points at regions of the design space. Coordinates of the design space are
//! held as the 16-bit patterns of their F2DOT14 values.
use crate::binary::{
    be16, be16_seq, be32, bei16_seq, push_bytes, push_i16_slice, push_u16, push_u16_slice, push_u32,
    SerializationError,
};
use crate::binary::{read_i16_vec, read_u16, read_u32, u16_at, u32_at, DeserializationError};
use crate::glyf::reading::Reading;
use crate::otvar::header::{tuple_at, tvh_encoding, TupleHeaderData, TupleVariationHeader};
use crate::otvar::store::{store_view, tvs_reading, Delta, TupleVariation, TupleVariationStore};
use vstd::prelude::*;

verus! {

/// How a glyph's points move at one region of the design space: the region's
/// peak, start and end (one coordinate per axis), and an x and y delta per point.
#[derive(Debug, PartialEq, Clone)]
pub struct DeltaSet {
    pub peak: Vec<i16>,
    pub start: Vec<i16>,
    pub end: Vec<i16>,
    pub deltas: Vec<(i16, i16)>,
}

/// A delta set as values.
pub struct DeltaSetData {
    pub peak: Seq<i16>,
    pub start: Seq<i16>,
    pub end: Seq<i16>,
    pub deltas: Seq<(i16, i16)>,
}

impl View for DeltaSet {
    type V = DeltaSetData;

    open spec fn view(&self) -> DeltaSetData {
        DeltaSetData { peak: self.peak@, start: self.start@, end: self.end@, deltas: self.deltas@ }
    }
}

/// The variations of one glyph.
#[derive(Debug, PartialEq, Clone)]
pub struct GlyphVariationData {
    pub deltasets: Vec<DeltaSet>,
}

/// The glyph variations table: for each glyph, its variations if it has any.
#[derive(Debug, PartialEq, Clone)]
pub struct gvar {
    pub variations: Vec<Option<GlyphVariationData>>,
}

/// The delta sets of a glyph as values.
pub open spec fn glyph_view(g: Option<GlyphVariationData>) -> Option<Seq<DeltaSetData>> {
    match g {
        Some(d) => Some(d.deltasets@.map_values(|ds: DeltaSet| ds@)),
        None => None,
    }
}

impl View for gvar {
    type V = Seq<Option<Seq<DeltaSetData>>>;

    open spec fn view(&self) -> Seq<Option<Seq<DeltaSetData>>> {
        self.variations@.map_values(|g: Option<GlyphVariationData>| glyph_view(g))
    }
}

/// Packed deltas written as runs of words: each run of up to 64 values is a
/// control byte (the word flag and the count less one) and the values.
pub open spec fn word_runs(ds: Seq<i16>) -> Seq<u8>
    decreases ds.len(),
{
    if ds.len() == 0 {
        Seq::empty()
    } else {
        let n: int = if ds.len() < 64 { ds.len() as int } else { 64 };
        seq![(63 + n) as u8] + bei16_seq(ds.take(n)) + word_runs(ds.skip(n))
    }
}

/// Append the word runs of `ds`.
fn push_word_runs(out: &mut Vec<u8>, ds: &Vec<i16>)
    ensures
        final(out)@ == old(out)@ + word_runs(ds@),
{
    let ghost start = old(out)@;
    let len = ds.len();
    let mut i: usize = 0;
    assert(ds@.skip(0) =~= ds@);
    while i < len
        invariant
            len == ds@.len(),
            i <= len,
            start + word_runs(ds@) == out@ + word_runs(ds@.skip(i as int)),
        decreases len - i,
    {
        let n: usize = if len - i < 64 { len - i } else { 64 };
        let ghost rest = ds@.skip(i as int);
        assert(rest.take(n as int) =~= ds@.subrange(i as int, i + n));
        assert(rest.skip(n as int) =~= ds@.skip(i + n));
        assert(word_runs(rest) == seq![(63 + n) as u8] + bei16_seq(rest.take(n as int)) + word_runs(rest.skip(n as int)));
        let ghost before = out@;
        out.push((63 + n) as u8);
        push_i16_slice(out, &ds.as_slice()[i..i + n]);
        proof {
            assert(out@ == before + seq![(63 + n) as u8] + bei16_seq(ds@.subrange(i as int, i + n)));
        }
        i = i + n;
    }
    assert(ds@.skip(len as int) =~= Seq::<i16>::empty());
    assert(out@ + Seq::<u8>::empty() =~= out@);
}

/// The x deltas, then the y deltas, each as word runs.
pub open spec fn deltas_bytes(d: Seq<(i16, i16)>) -> Seq<u8> {
    word_runs(d.map_values(|p: (i16, i16)| p.0)) + word_runs(d.map_values(|p: (i16, i16)| p.1))
}

fn push_deltas(out: &mut Vec<u8>, d: &Vec<(i16, i16)>)
    ensures
        final(out)@ == old(out)@ + deltas_bytes(d@),
{
    let mut xs: Vec<i16> = Vec::new();
    let mut ys: Vec<i16> = Vec::new();
    let mut i: usize = 0;
    while i < d.len()
        invariant
            i <= d@.len(),
            xs@ == d@.take(i as int).map_values(|p: (i16, i16)| p.0),
            ys@ == d@.take(i as int).map_values(|p: (i16, i16)| p.1),
        decreases d.len() - i,
    {
        xs.push(d[i].0);
        ys.push(d[i].1);
        assert(d@.take(i + 1).map_values(|p: (i16, i16)| p.0) =~= d@.take(i as int).map_values(|p: (i16, i16)| p.0).push(d@[i as int].0));
        assert(d@.take(i + 1).map_values(|p: (i16, i16)| p.1) =~= d@.take(i as int).map_values(|p: (i16, i16)| p.1).push(d@[i as int].1));
        i = i + 1;
    }
    assert(d@.take(d@.len() as int) =~= d@);
    let ghost before = old(out)@;
    push_word_runs(out, &xs);
    push_word_runs(out, &ys);
    assert(out@ =~= before + deltas_bytes(d@));
}

/// The peaks of a glyph's delta sets, in order.
pub open spec fn glyph_peaks(g: Option<Seq<DeltaSetData>>) -> Seq<Seq<i16>> {
    match g {
        Some(d) => d.map_values(|x: DeltaSetData| x.peak),
        None => Seq::empty(),
    }
}

/// The peaks of the delta sets of the first `n` glyphs, in order.
pub open spec fn peaks_upto(v: Seq<Option<Seq<DeltaSetData>>>, n: int) -> Seq<Seq<i16>>
    decreases n,
{
    if n <= 0 {
        Seq::empty()
    } else {
        peaks_upto(v, n - 1) + glyph_peaks(v[n - 1])
    }
}

/// The peaks of all delta sets of the table, in order.
pub open spec fn all_peaks(v: Seq<Option<Seq<DeltaSetData>>>) -> Seq<Seq<i16>> {
    peaks_upto(v, v.len() as int)
}

/// How often `p` occurs in `ps`.
pub open spec fn count_in(ps: Seq<Seq<i16>>, p: Seq<i16>) -> nat
    decreases ps.len(),
{
    if ps.len() == 0 {
        0
    } else {
        count_in(ps.drop_last(), p) + if ps.last() == p { 1nat } else { 0nat }
    }
}

/// The peaks among the first `n` of `ps` that occur more than once in `ps`,
/// each once, in the order of their first occurrence.
pub open spec fn repeated(ps: Seq<Seq<i16>>, n: int) -> Seq<Seq<i16>>
    decreases n,
{
    if n <= 0 {
        Seq::empty()
    } else {
        let r = repeated(ps, n - 1);
        let p = ps[n - 1];
        if count_in(ps, p) > 1 && !r.contains(p) {
            r.push(p)
        } else {
            r
        }
    }
}

/// The peaks of `ds` that occur exactly `c` times in `ps`, in order.
pub open spec fn with_count(ds: Seq<Seq<i16>>, ps: Seq<Seq<i16>>, c: nat) -> Seq<Seq<i16>>
    decreases ds.len(),
{
    if ds.len() == 0 {
        Seq::empty()
    } else {
        let r = with_count(ds.drop_last(), ps, c);
        if count_in(ps, ds.last()) == c {
            r.push(ds.last())
        } else {
            r
        }
    }
}

/// The repeated peaks that occur at most `c` times, the most frequent first
/// and those equally frequent in the order of their first occurrence.
pub open spec fn shared_from(ps: Seq<Seq<i16>>, c: nat) -> Seq<Seq<i16>>
    decreases c,
{
    if c < 2 {
        Seq::empty()
    } else {
        with_count(repeated(ps, ps.len() as int), ps, c) + shared_from(ps, (c - 1) as nat)
    }
}

/// The shared tuples of a table: the peaks that more than one delta set has,
/// most frequent first.
pub open spec fn shared_tuples(v: Seq<Option<Seq<DeltaSetData>>>) -> Seq<Seq<i16>> {
    shared_from(all_peaks(v), all_peaks(v).len())
}

pub open spec fn tuples_view(ps: Seq<Vec<i16>>) -> Seq<Seq<i16>> {
    ps.map_values(|t: Vec<i16>| t@)
}

/// Whether two tuples are equal.
fn same_tuple(a: &Vec<i16>, b: &Vec<i16>) -> (r: bool)
    ensures
        r == (a@ == b@),
{
    if a.len() != b.len() {
        return false;
    }
    let mut i: usize = 0;
    while i < a.len()
        invariant
            a@.len() == b@.len(),
            i <= a@.len(),
            forall|k: int| 0 <= k < i ==> a@[k] == b@[k],
        decreases a.len() - i,
    {
        if a[i] != b[i] {
            return false;
        }
        i = i + 1;
    }
    assert(a@ =~= b@);
    true
}

/// A copy of a tuple.
fn copy_tuple(a: &Vec<i16>) -> (r: Vec<i16>)
    ensures
        r@ == a@,
{
    let mut out: Vec<i16> = Vec::new();
    let mut i: usize = 0;
    while i < a.len()
        invariant
            i <= a@.len(),
            out@ == a@.take(i as int),
        decreases a.len() - i,
    {
        out.push(a[i]);
        assert(a@.take(i + 1) =~= a@.take(i as int).push(a@[i as int]));
        i = i + 1;
    }
    assert(a@.take(a@.len() as int) =~= a@);
    out
}

/// How often `p` occurs in `ps`.
fn count_of(ps: &Vec<Vec<i16>>, p: &Vec<i16>) -> (r: usize)
    ensures
        r == count_in(tuples_view(ps@), p@),
{
    let mut c: usize = 0;
    let mut i: usize = 0;
    while i < ps.len()
        invariant
            i <= ps@.len(),
            c == count_in(tuples_view(ps@).take(i as int), p@),
            c <= i,
        decreases ps.len() - i,
    {
        assert(tuples_view(ps@).take(i + 1).drop_last() =~= tuples_view(ps@).take(i as int));
        if same_tuple(&ps[i], p) {
            c = c + 1;
        }
        i = i + 1;
    }
    assert(tuples_view(ps@).take(ps@.len() as int) =~= tuples_view(ps@));
    c
}

/// Whether `p` is among `ds`.
fn contains_tuple(ds: &Vec<Vec<i16>>, p: &Vec<i16>) -> (r: bool)
    ensures
        r == tuples_view(ds@).contains(p@),
{
    let mut i: usize = 0;
    while i < ds.len()
        invariant
            i <= ds@.len(),
            forall|k: int| 0 <= k < i ==> ds@[k]@ != p@,
        decreases ds.len() - i,
    {
        if same_tuple(&ds[i], p) {
            assert(tuples_view(ds@)[i as int] == p@);
            return true;
        }
        i = i + 1;
    }
    proof {
        if tuples_view(ds@).contains(p@) {
            let k = choose|k: int| 0 <= k < tuples_view(ds@).len() && tuples_view(ds@)[k] == p@;
            assert(ds@[k]@ == p@);
        }
    }
    false
}

/// The shared tuples of the peaks `ps`.
fn shared_of(ps: &Vec<Vec<i16>>) -> (r: Vec<Vec<i16>>)
    ensures
        tuples_view(r@) == shared_from(tuples_view(ps@), ps@.len()),
{
    let ghost pv = tuples_view(ps@);
    // the repeated peaks, in the order of their first occurrence, with their counts
    let mut rep: Vec<Vec<i16>> = Vec::new();
    let mut counts: Vec<usize> = Vec::new();
    let mut i: usize = 0;
    while i < ps.len()
        invariant
            pv == tuples_view(ps@),
            i <= ps@.len(),
            tuples_view(rep@) == repeated(pv, i as int),
            counts@.len() == rep@.len(),
            forall|k: int| 0 <= k < rep@.len() ==> #[trigger] counts@[k] == count_in(pv, rep@[k]@),
        decreases ps.len() - i,
    {
        let c = count_of(ps, &ps[i]);
        assert(pv[i as int] == ps@[i as int]@);
        if c > 1 && !contains_tuple(&rep, &ps[i]) {
            let t = copy_tuple(&ps[i]);
            rep.push(t);
            counts.push(c);
            assert(tuples_view(rep@) =~= repeated(pv, i as int).push(pv[i as int]));
        }
        i = i + 1;
    }
    let ghost rv = tuples_view(rep@);
    let n = ps.len();
    let mut out: Vec<Vec<i16>> = Vec::new();
    let mut c: usize = n;
    while c >= 2
        invariant
            pv == tuples_view(ps@),
            n == ps@.len(),
            rv == tuples_view(rep@),
            rv == repeated(pv, pv.len() as int),
            counts@.len() == rep@.len(),
            forall|k: int| 0 <= k < rep@.len() ==> #[trigger] counts@[k] == count_in(pv, rep@[k]@),
            c <= n,
            tuples_view(out@) + shared_from(pv, c as nat) == shared_from(pv, n as nat),
        decreases c,
    {
        let ghost before = tuples_view(out@);
        let mut k: usize = 0;
        while k < rep.len()
            invariant
                rv == tuples_view(rep@),
                counts@.len() == rep@.len(),
                forall|j: int| 0 <= j < rep@.len() ==> #[trigger] counts@[j] == count_in(pv, rep@[j]@),
                k <= rep@.len(),
                tuples_view(out@) == before + with_count(rv.take(k as int), pv, c as nat),
            decreases rep.len() - k,
        {
            assert(rv.take(k + 1).drop_last() =~= rv.take(k as int));
            assert(rv.take(k + 1).last() == rep@[k as int]@);
            if counts[k] == c {
                let t = copy_tuple(&rep[k]);
                let ghost prev = tuples_view(out@);
                out.push(t);
                assert(tuples_view(out@) =~= prev.push(rep@[k as int]@));
                assert(with_count(rv.take(k + 1), pv, c as nat) == with_count(rv.take(k as int), pv, c as nat).push(
                    rep@[k as int]@,
                ));
                assert(tuples_view(out@) =~= before + with_count(rv.take(k + 1), pv, c as nat));
            } else {
                assert(tuples_view(out@) =~= before + with_count(rv.take(k + 1), pv, c as nat));
            }
            k = k + 1;
        }
        assert(rv.take(rep@.len() as int) =~= rv);
        assert(shared_from(pv, c as nat) == with_count(rv, pv, c as nat) + shared_from(pv, (c - 1) as nat));
        assert(tuples_view(out@) + shared_from(pv, (c - 1) as nat) =~= before + shared_from(pv, c as nat));
        c = c - 1;
    }
    assert(shared_from(pv, c as nat) =~= Seq::<Seq<i16>>::empty());
    assert(tuples_view(out@) + Seq::<Seq<i16>>::empty() =~= tuples_view(out@));
    out
}

/// The position of `p` in `sh` from `k` on, if it is there.
pub open spec fn index_from(sh: Seq<Seq<i16>>, p: Seq<i16>, k: int) -> Option<int>
    decreases sh.len() - k,
{
    if k < 0 || k >= sh.len() {
        None
    } else if sh[k] == p {
        Some(k)
    } else {
        index_from(sh, p, k + 1)
    }
}

/// The flags of a delta set's header: its own peak where the peak is not a
/// shared tuple, and its own region where the region is not the peak alone.
pub open spec fn header_flags(ds: DeltaSetData, sh: Seq<Seq<i16>>) -> u16 {
    ((if index_from(sh, ds.peak, 0) is None { 0x8000int } else { 0 }) + (if ds.peak != ds.start || ds.peak
        != ds.end {
        0x4000int
    } else {
        0
    })) as u16
}

/// The header of a delta set: the size of its deltas, its flags, the index of
/// its peak among the shared tuples, and the tuples the flags announce.
pub open spec fn header_of(ds: DeltaSetData, sh: Seq<Seq<i16>>) -> TupleHeaderData {
    let idx = index_from(sh, ds.peak, 0);
    let inter = ds.peak != ds.start || ds.peak != ds.end;
    TupleHeaderData {
        size: (deltas_bytes(ds.deltas).len() % 65536) as u16,
        flags: header_flags(ds, sh),
        shared_tuple_index: match idx {
            Some(i) => (i % 65536) as u16,
            None => 0,
        },
        peak: if idx is None { Some(ds.peak) } else { None },
        start: if inter { Some(ds.start) } else { None },
        end: if inter { Some(ds.end) } else { None },
    }
}

/// The headers of the delta sets, one after another.
pub open spec fn headers_bytes(dss: Seq<DeltaSetData>, sh: Seq<Seq<i16>>) -> Seq<u8>
    decreases dss.len(),
{
    if dss.len() == 0 {
        Seq::empty()
    } else {
        headers_bytes(dss.drop_last(), sh) + tvh_encoding(header_of(dss.last(), sh))
    }
}

/// The deltas of the delta sets, one after another.
pub open spec fn bodies_bytes(dss: Seq<DeltaSetData>) -> Seq<u8>
    decreases dss.len(),
{
    if dss.len() == 0 {
        Seq::empty()
    } else {
        bodies_bytes(dss.drop_last()) + deltas_bytes(dss.last().deltas)
    }
}

/// The variation data of a glyph: the count of delta sets (with the flag that
/// shared point numbers follow), the offset of the data, the headers, the
/// shared point numbers ("all points"), and each delta set's deltas; padded to
/// an even length.
pub open spec fn glyph_data_bytes(dss: Seq<DeltaSetData>, sh: Seq<Seq<i16>>) -> Seq<u8> {
    let hs = headers_bytes(dss, sh);
    let raw = be16((dss.len() % 4096 + 0x8000) as u16) + be16(((4 + hs.len()) % 65536) as u16) + hs + seq![0u8]
        + bodies_bytes(dss);
    if raw.len() % 2 == 1 {
        raw.push(0)
    } else {
        raw
    }
}

/// The variation data of the first `n` glyphs, one after another.
pub open spec fn glyphs_bytes(v: Seq<Option<Seq<DeltaSetData>>>, sh: Seq<Seq<i16>>, n: int) -> Seq<u8>
    decreases n,
{
    if n <= 0 {
        Seq::empty()
    } else {
        glyphs_bytes(v, sh, n - 1) + match v[n - 1] {
            Some(dss) => glyph_data_bytes(dss, sh),
            None => Seq::empty(),
        }
    }
}

/// The shared tuples, one after another.
pub open spec fn tuples_bytes(sh: Seq<Seq<i16>>) -> Seq<u8>
    decreases sh.len(),
{
    if sh.len() == 0 {
        Seq::empty()
    } else {
        tuples_bytes(sh.drop_last()) + bei16_seq(sh.last())
    }
}

/// The offset word of each glyph's data and of the end: half its position,
/// taken in 16 bits.
pub open spec fn offset_words(v: Seq<Option<Seq<DeltaSetData>>>, sh: Seq<Seq<i16>>) -> Seq<u16> {
    Seq::new(v.len() + 1, |i: int| ((glyphs_bytes(v, sh, i).len() % 65536) / 2) as u16)
}

/// The axis count written: the length of the last peak.
pub open spec fn axis_count_of(v: Seq<Option<Seq<DeltaSetData>>>) -> u16 {
    let ps = all_peaks(v);
    if ps.len() == 0 {
        0
    } else {
        (ps.last().len() % 65536) as u16
    }
}

/// The bytes of a `gvar` table: version 1.0, the axis count, the shared tuple
/// count and offset, the glyph count, short offsets, the offset of the
/// variation data; then the offsets, the shared tuples and the variation data.
pub open spec fn gvar_encoding(v: Seq<Option<Seq<DeltaSetData>>>) -> Seq<u8> {
    let sh = shared_tuples(v);
    let n = v.len();
    let tb = tuples_bytes(sh);
    be16(1) + be16(0) + be16(axis_count_of(v)) + be16((sh.len() % 65536) as u16) + be32((20 + 2 * (n + 1)) as u32) + be16(
        (n % 65536) as u16,
    ) + be16(0) + be32((20 + 2 * (n + 1) + tb.len()) as u32) + be16_seq(offset_words(v, sh)) + tb
        + glyphs_bytes(v, sh, n as int)
}

/// The offsets of a `gvar` table fit their 32-bit fields.
pub open spec fn gvar_fits(v: Seq<Option<Seq<DeltaSetData>>>) -> bool {
    20 + 2 * (v.len() + 1) + tuples_bytes(shared_tuples(v)).len() <= u32::MAX
}

proof fn lemma_index_from_range(sh: Seq<Seq<i16>>, p: Seq<i16>, k: int)
    ensures
        index_from(sh, p, k) matches Some(i) ==> 0 <= i < sh.len(),
    decreases sh.len() - k,
{
    if 0 <= k < sh.len() && sh[k] != p {
        lemma_index_from_range(sh, p, k + 1);
    }
}

proof fn lemma_header_flag_bits(f: u16)
    by (bit_vector)
    requires
        f == 0 || f == 0x4000 || f == 0x8000 || f == 0xC000,
    ensures
        (f & 0x8000 != 0) == (f == 0x8000 || f == 0xC000),
        (f & 0x4000 != 0) == (f == 0x4000 || f == 0xC000),
{
}

/// The position of `p` among the shared tuples, if it is one of them.
fn index_of(sh: &Vec<Vec<i16>>, p: &Vec<i16>) -> (r: Option<usize>)
    ensures
        match index_from(tuples_view(sh@), p@, 0) {
            Some(i) => r == Some(i as usize),
            None => r is None,
        },
{
    let ghost sv = tuples_view(sh@);
    let mut i: usize = 0;
    while i < sh.len()
        invariant
            sv == tuples_view(sh@),
            i <= sh@.len(),
            index_from(sv, p@, 0) == index_from(sv, p@, i as int),
        decreases sh.len() - i,
    {
        if same_tuple(&sh[i], p) {
            assert(sv[i as int] == p@);
            return Some(i);
        }
        assert(sv[i as int] != p@);
        i = i + 1;
    }
    None
}

/// The header of delta set `ds`, whose deltas take `size` bytes.
fn header_for(ds: &DeltaSet, sh: &Vec<Vec<i16>>, size: usize) -> (r: TupleVariationHeader)
    requires
        size == deltas_bytes(ds.deltas@).len(),
    ensures
        r@ == header_of(ds@, tuples_view(sh@)),
        crate::otvar::header::tvh_writable(r@),
{
    let idx = index_of(sh, &ds.peak);
    let nsh = sh.len();
    proof {
        lemma_index_from_range(tuples_view(sh@), ds.peak@, 0);
    }
    let inter = !same_tuple(&ds.peak, &ds.start) || !same_tuple(&ds.peak, &ds.end);
    let mut flags: u16 = 0;
    if idx.is_none() {
        flags = flags + 0x8000;
    }
    if inter {
        flags = flags + 0x4000;
    }
    proof {
        lemma_header_flag_bits(flags);
    }
    let index: u16 = match idx {
        Some(i) => (i % 65536) as u16,
        None => 0,
    };
    let peak_t = if idx.is_none() { Some(copy_tuple(&ds.peak)) } else { None };
    let start_t = if inter { Some(copy_tuple(&ds.start)) } else { None };
    let end_t = if inter { Some(copy_tuple(&ds.end)) } else { None };
    let ghost sv = tuples_view(sh@);
    let ghost hd = header_of(ds@, sv);
    assert(inter == (ds.peak@ != ds.start@ || ds.peak@ != ds.end@));
    assert(idx.is_none() == (index_from(sv, ds.peak@, 0) is None));
    assert(flags == header_flags(ds@, sv));
    assert(crate::otvar::header::tuple_view(peak_t) == hd.peak);
    assert(crate::otvar::header::tuple_view(start_t) == hd.start);
    assert(crate::otvar::header::tuple_view(end_t) == hd.end);
    proof {
        match index_from(sv, ds.peak@, 0) {
            Some(i0) => {
                assert(idx == Some(i0 as usize));
                assert(i0 < nsh);
                assert(i0 as usize == i0);
                assert(index == ((i0 as usize) % 65536) as u16);
            },
            None => {},
        }
    }
    assert(index == hd.shared_tuple_index);
    TupleVariationHeader {
        size: (size % 65536) as u16,
        flags,
        sharedTupleIndex: index,
        peakTuple: peak_t,
        startTuple: start_t,
        endTuple: end_t,
    }
}

/// The variation data of a glyph with delta sets `dss`.
fn glyph_data(dss: &Vec<DeltaSet>, sh: &Vec<Vec<i16>>) -> (r: Vec<u8>)
    ensures
        r@ == glyph_data_bytes(dss@.map_values(|ds: DeltaSet| ds@), tuples_view(sh@)),
{
    let ghost dv = dss@.map_values(|ds: DeltaSet| ds@);
    let ghost sv = tuples_view(sh@);
    let mut hb: Vec<u8> = Vec::new();
    let mut bb: Vec<u8> = Vec::new();
    let mut j: usize = 0;
    while j < dss.len()
        invariant
            dv == dss@.map_values(|ds: DeltaSet| ds@),
            sv == tuples_view(sh@),
            j <= dss@.len(),
            hb@ == headers_bytes(dv.take(j as int), sv),
            bb@ == bodies_bytes(dv.take(j as int)),
        decreases dss.len() - j,
    {
        let mut body: Vec<u8> = Vec::new();
        push_deltas(&mut body, &dss[j].deltas);
        assert(body@ =~= deltas_bytes(dss@[j as int].deltas@));
        let h = header_for(&dss[j], sh, body.len());
        let hbytes = h.to_bytes();
        push_bytes(&mut hb, hbytes.as_slice());
        push_bytes(&mut bb, body.as_slice());
        assert(dv.take(j + 1).drop_last() =~= dv.take(j as int));
        assert(dv.take(j + 1).last() == dss@[j as int]@);
        j = j + 1;
    }
    assert(dv.take(dss@.len() as int) =~= dv);
    let mut out: Vec<u8> = Vec::new();
    push_u16(&mut out, (dss.len() % 4096 + 0x8000) as u16);
    push_u16(&mut out, ((hb.len() % 65536 + 4) % 65536) as u16);
    assert((hb@.len() % 65536 + 4) % 65536 == (4 + hb@.len()) % 65536);
    push_bytes(&mut out, hb.as_slice());
    out.push(0u8);
    push_bytes(&mut out, bb.as_slice());
    let ghost raw = out@;
    assert(raw =~= be16((dv.len() % 4096 + 0x8000) as u16) + be16(((4 + hb@.len()) % 65536) as u16) + hb@ + seq![
        0u8,
    ] + bb@);
    if out.len() % 2 == 1 {
        out.push(0u8);
    }
    out
}

impl gvar {
    /// The table in binary form. The shared tuples are the peaks that more than
    /// one delta set has, the most frequent first (those equally frequent in
    /// the order in which they first occur); every glyph's variation data lists
    /// all its points and writes the deltas as runs of words. A table in which
    /// no two delta sets share a peak has no shared tuples, and is refused.
    pub fn to_bytes(&self) -> (r: Result<Vec<u8>, SerializationError>)
        requires
            gvar_fits(self@),
        ensures
            match r {
                Ok(b) => shared_tuples(self@).len() > 0 && b@ == gvar_encoding(self@),
                Err(e) => shared_tuples(self@).len() == 0 && e == SerializationError::NoSharedTuples,
            },
    {
        let ghost v = self@;
        // the peaks of all delta sets, in order
        let mut ps: Vec<Vec<i16>> = Vec::new();
        let mut g: usize = 0;
        while g < self.variations.len()
            invariant
                v == self@,
                g <= v.len(),
                tuples_view(ps@) == peaks_upto(v, g as int),
            decreases self.variations.len() - g,
        {
            let ghost before = tuples_view(ps@);
            match &self.variations[g] {
                Some(d) => {
                    let ghost gp = glyph_peaks(v[g as int]);
                    assert(v[g as int] == Some(d.deltasets@.map_values(|ds: DeltaSet| ds@)));
                    let mut j: usize = 0;
                    while j < d.deltasets.len()
                        invariant
                            j <= d.deltasets@.len(),
                            gp == d.deltasets@.map_values(|ds: DeltaSet| ds@).map_values(|x: DeltaSetData| x.peak),
                            tuples_view(ps@) == before + gp.take(j as int),
                        decreases d.deltasets.len() - j,
                    {
                        let t = copy_tuple(&d.deltasets[j].peak);
                        let ghost prev = tuples_view(ps@);
                        ps.push(t);
                        assert(tuples_view(ps@) =~= prev.push(d.deltasets@[j as int].peak@));
                        assert(gp[j as int] == d.deltasets@[j as int].peak@);
                        assert(gp.take(j + 1) =~= gp.take(j as int).push(gp[j as int]));
                        assert(tuples_view(ps@) =~= before + gp.take(j + 1));
                        j = j + 1;
                    }
                    assert(gp.take(d.deltasets@.len() as int) =~= gp);
                },
                None => {
                    assert(glyph_peaks(v[g as int]) =~= Seq::<Seq<i16>>::empty());
                    assert(before + Seq::<Seq<i16>>::empty() =~= before);
                },
            }
            g = g + 1;
        }
        let ghost pv = tuples_view(ps@);
        assert(pv == all_peaks(v));
        let sh = shared_of(&ps);
        let ghost sv = tuples_view(sh@);
        assert(sv == shared_tuples(v));
        if sh.len() == 0 {
            return Err(SerializationError::NoSharedTuples);
        }
        if ps.len() == 0 {
            assert(shared_from(pv, 0) =~= Seq::<Seq<i16>>::empty());
            return Err(SerializationError::NoSharedTuples);
        }
        let axis: u16 = (ps[ps.len() - 1].len() % 65536) as u16;
        assert(pv.last() == ps@[ps@.len() - 1]@);
        // the shared tuples
        let mut tb: Vec<u8> = Vec::new();
        let mut k: usize = 0;
        while k < sh.len()
            invariant
                sv == tuples_view(sh@),
                k <= sh@.len(),
                tb@ == tuples_bytes(sv.take(k as int)),
            decreases sh.len() - k,
        {
            push_i16_slice(&mut tb, sh[k].as_slice());
            assert(sv.take(k + 1).drop_last() =~= sv.take(k as int));
            assert(sv.take(k + 1).last() == sh@[k as int]@);
            k = k + 1;
        }
        assert(sv.take(sh@.len() as int) =~= sv);
        // the variation data of each glyph, and the offsets
        let mut body: Vec<u8> = Vec::new();
        let mut offsets: Vec<u16> = Vec::new();
        let ghost ow = offset_words(v, sv);
        let mut g: usize = 0;
        while g < self.variations.len()
            invariant
                v == self@,
                sv == tuples_view(sh@),
                ow == offset_words(v, sv),
                g <= v.len(),
                body@ == glyphs_bytes(v, sv, g as int),
                offsets@ == ow.take(g as int),
            decreases self.variations.len() - g,
        {
            offsets.push(((body.len() % 65536) / 2) as u16);
            assert(offsets@ =~= ow.take(g + 1));
            match &self.variations[g] {
                Some(d) => {
                    let data = glyph_data(&d.deltasets, &sh);
                    push_bytes(&mut body, data.as_slice());
                },
                None => {},
            }
            assert(body@ =~= glyphs_bytes(v, sv, g + 1));
            g = g + 1;
        }
        offsets.push(((body.len() % 65536) / 2) as u16);
        assert(offsets@ =~= ow);
        let n = self.variations.len();
        let shared_offset: u32 = (20 + 2 * (n + 1)) as u32;
        let data_offset: u32 = (20 + 2 * (n + 1) + tb.len()) as u32;
        let mut out: Vec<u8> = Vec::new();
        push_u16(&mut out, 1);
        push_u16(&mut out, 0);
        push_u16(&mut out, axis);
        push_u16(&mut out, (sh.len() % 65536) as u16);
        push_u32(&mut out, shared_offset);
        push_u16(&mut out, (n % 65536) as u16);
        push_u16(&mut out, 0);
        push_u32(&mut out, data_offset);
        push_u16_slice(&mut out, offsets.as_slice());
        push_bytes(&mut out, tb.as_slice());
        push_bytes(&mut out, body.as_slice());
        Ok(out)
    }
}

/// Whether the offsets of a `gvar` table are 32-bit (else halved 16-bit).
pub open spec fn long_offsets(s: Seq<u8>) -> bool {
    u16_at(s, 14) % 2 == 1
}

/// Where the shared tuples and glyph data offsets end: after the header and the offsets.
pub open spec fn offsets_end(s: Seq<u8>) -> int {
    20 + (u16_at(s, 12) + 1) * (if long_offsets(s) { 4int } else { 2int })
}

/// The raw offset word of glyph `i` (16 or 32 bits).
pub open spec fn offset_word(s: Seq<u8>, i: int) -> int {
    if long_offsets(s) {
        u32_at(s, 20 + 4 * i) as int
    } else {
        u16_at(s, 20 + 2 * i) as int
    }
}

/// Where the variation data of glyph `i` starts.
pub open spec fn glyph_data_start(s: Seq<u8>, i: int) -> int {
    (if long_offsets(s) { offset_word(s, i) } else { 2 * offset_word(s, i) }) + u32_at(s, 16) as int
}

/// The number of shared tuples read: none where there are no axes (the
/// tuples then take no room).
pub open spec fn shared_count(s: Seq<u8>) -> nat {
    if u16_at(s, 4) == 0 {
        0
    } else {
        u16_at(s, 6) as nat
    }
}

/// The shared tuple `k`.
pub open spec fn shared_tuple_at(s: Seq<u8>, k: int) -> Seq<i16> {
    tuple_at(s, u32_at(s, 8) + 2 * u16_at(s, 4) * k, u16_at(s, 4) as int)
}

/// A `gvar` table whose header and offsets are present reads with an outcome:
/// halved offsets double within 16 bits; every offset, added to the data
/// offset, stays within 32 bits, after the offsets and within the table, and
/// no glyph's data ends before it starts; the shared tuples lie after the
/// offsets and within the table, their size within 16 bits; a point count is
/// given for each glyph; and each glyph's data reads.
pub open spec fn gvar_defined(s: Seq<u8>, pcs: Seq<u16>) -> bool {
    let gc = u16_at(s, 12) as int;
    let axis = u16_at(s, 4) as int;
    let sc = u16_at(s, 6) as int;
    (s.len() >= 20 && offsets_end(s) <= s.len()) ==> {
        &&& forall|i: int| 0 <= i <= gc && !long_offsets(s) ==> #[trigger] offset_word(s, i) * 2 <= 65535
        &&& forall|i: int|
            0 <= i <= gc ==> #[trigger] glyph_data_start(s, i) <= u32::MAX && offsets_end(s) <= glyph_data_start(s, i)
                <= s.len()
        &&& forall|i: int| 0 <= i < gc ==> #[trigger] glyph_data_start(s, i) <= glyph_data_start(s, i + 1)
        &&& sc * axis * 2 <= 65535
        &&& offsets_end(s) <= u32_at(s, 8)
        &&& u32_at(s, 8) + sc * axis * 2 <= s.len()
        &&& gc <= pcs.len()
        &&& forall|i: int|
            0 <= i < gc && #[trigger] glyph_data_start(s, i) < glyph_data_start(s, i + 1) ==> tvs_reading(
                s,
                glyph_data_start(s, i),
                axis,
                true,
                pcs[i] as int,
            ) is Value
    }
}

/// The variations of glyph `i`: none where its data is empty, else the tuple
/// variation store at its data.
pub open spec fn glyph_store(s: Seq<u8>, pcs: Seq<u16>, i: int) -> Option<Seq<(TupleHeaderData, Seq<Option<Delta>>)>> {
    if glyph_data_start(s, i) == glyph_data_start(s, i + 1) {
        None
    } else {
        match tvs_reading(s, glyph_data_start(s, i), u16_at(s, 4) as int, true, pcs[i] as int) {
            Reading::Value(v, _) => Some(v),
            _ => None,
        }
    }
}

/// What a `gvar` table holds: its axis count, its shared tuples and the
/// variations of each glyph (`pcs` gives each glyph's point count); `None`
/// where the header or the offsets are cut short.
pub open spec fn gvar_reading(s: Seq<u8>, pcs: Seq<u16>) -> Option<
    (u16, Seq<Seq<i16>>, Seq<Option<Seq<(TupleHeaderData, Seq<Option<Delta>>)>>>),
> {
    if s.len() < 20 || offsets_end(s) > s.len() {
        None
    } else {
        Some(
            (
                u16_at(s, 4),
                Seq::new(shared_count(s), |k: int| shared_tuple_at(s, k)),
                Seq::new(u16_at(s, 12) as nat, |i: int| glyph_store(s, pcs, i)),
            ),
        )
    }
}

/// A `gvar` table as read: its axis count, its shared tuples, and for each
/// glyph the tuple variation store of its data, if it has any.
pub struct GvarData {
    pub axis_count: u16,
    pub shared_tuples: Vec<Vec<i16>>,
    pub glyphs: Vec<Option<TupleVariationStore>>,
}

pub open spec fn stores_view(g: Seq<Option<TupleVariationStore>>) -> Seq<Option<Seq<(TupleHeaderData, Seq<Option<Delta>>)>>> {
    g.map_values(|o: Option<TupleVariationStore>| match o {
        Some(t) => Some(store_view(t.0@)),
        None => None,
    })
}

/// Where each glyph's data starts, and where the last one ends.
#[verifier::spinoff_prover]
fn read_starts(data: &[u8]) -> (r: Vec<usize>)
    requires
        data@.len() >= 20,
        offsets_end(data@) <= data@.len(),
        forall|i: int| 0 <= i <= u16_at(data@, 12) ==> #[trigger] glyph_data_start(data@, i) <= u32::MAX,
    ensures
        r@.len() == u16_at(data@, 12) + 1,
        forall|k: int| 0 <= k < r@.len() ==> #[trigger] r@[k] == glyph_data_start(data@, k),
{
    let ghost s = data@;
    let gc = read_u16(data, 12).unwrap();
    let flags = read_u16(data, 14).unwrap();
    let dao = read_u32(data, 16).unwrap();
    let long = flags % 2 == 1;
    let width: usize = if long { 4 } else { 2 };
    let n: usize = gc as usize + 1;
    let mut starts: Vec<usize> = Vec::new();
    let mut i: usize = 0;
    while i < n
        invariant
            s == data@,
            s.len() >= 20,
            offsets_end(s) <= s.len(),
            forall|i: int| 0 <= i <= u16_at(s, 12) ==> #[trigger] glyph_data_start(s, i) <= u32::MAX,
            n == u16_at(s, 12) + 1,
            long == long_offsets(s),
            dao == u32_at(s, 16),
            width == (if long { 4usize } else { 2usize }),
            offsets_end(s) == 20 + n * width,
            i <= n,
            starts@.len() == i,
            forall|k: int| 0 <= k < i ==> #[trigger] starts@[k] == glyph_data_start(s, k),
        decreases n - i,
    {
        assert(20 + width * i + width <= offsets_end(s)) by (nonlinear_arith)
            requires
                offsets_end(s) == 20 + n * width,
                i < n,
        ;
        let w: usize = if long {
            read_u32(data, 20 + 4 * i).unwrap() as usize
        } else {
            read_u16(data, 20 + 2 * i).unwrap() as usize
        };
        assert(w == offset_word(s, i as int));
        assert(glyph_data_start(s, i as int) <= u32::MAX);
        let st: usize = if long { w + dao as usize } else { 2 * w + dao as usize };
        starts.push(st);
        i = i + 1;
    }
    starts
}

/// The shared tuples.
#[verifier::spinoff_prover]
fn read_shared(data: &[u8]) -> (r: Vec<Vec<i16>>)
    requires
        data@.len() >= 20,
        u16_at(data@, 6) * u16_at(data@, 4) * 2 <= 65535,
        u32_at(data@, 8) + u16_at(data@, 6) * u16_at(data@, 4) * 2 <= data@.len(),
    ensures
        tuples_view(r@) == Seq::new(shared_count(data@), |j: int| shared_tuple_at(data@, j)),
{
    let ghost s = data@;
    let axis = read_u16(data, 4).unwrap();
    let sc = read_u16(data, 6).unwrap();
    let so = read_u32(data, 8).unwrap();
    let count: u16 = if axis == 0 { 0 } else { sc };
    let mut shared: Vec<Vec<i16>> = Vec::new();
    let mut k: usize = 0;
    while k < count as usize
        invariant
            s == data@,
            count == shared_count(s),
            count <= sc,
            sc == u16_at(s, 6),
            axis == u16_at(s, 4),
            so == u32_at(s, 8),
            sc * axis * 2 <= 65535,
            so + sc * axis * 2 <= s.len(),
            k <= count,
            tuples_view(shared@) == Seq::new(k as nat, |j: int| shared_tuple_at(s, j)),
        decreases count - k,
    {
        let step: usize = 2 * (axis as usize);
        assert(step * k + step <= sc * axis * 2) by (nonlinear_arith)
            requires
                step == 2 * axis,
                k < sc,
        ;
        let dl = data.len();
        let pos: usize = so as usize + step * k;
        assert(pos == u32_at(s, 8) + 2 * u16_at(s, 4) * k) by (nonlinear_arith)
            requires
                pos == so + step * k,
                step == 2 * axis,
                so == u32_at(s, 8),
                axis == u16_at(s, 4),
        ;
        let t = read_i16_vec(data, pos, axis as usize).unwrap();
        assert(t@ =~= shared_tuple_at(s, k as int));
        let ghost prev = tuples_view(shared@);
        shared.push(t);
        assert(tuples_view(shared@) =~= prev.push(t@));
        assert(tuples_view(shared@) =~= Seq::new((k + 1) as nat, |j: int| shared_tuple_at(s, j)));
        k = k + 1;
    }
    shared
}

/// The variations of each glyph.
#[verifier::spinoff_prover]
fn read_stores(data: &[u8], point_counts: &Vec<u16>, starts: &Vec<usize>) -> (r: Result<
    Vec<Option<TupleVariationStore>>,
    DeserializationError,
>)
    requires
        data@.len() >= 20,
        offsets_end(data@) <= data@.len(),
        gvar_defined(data@, point_counts@),
        starts@.len() == u16_at(data@, 12) + 1,
        forall|k: int| 0 <= k < starts@.len() ==> #[trigger] starts@[k] == glyph_data_start(data@, k),
    ensures
        r matches Ok(g) && stores_view(g@) == Seq::new(
            u16_at(data@, 12) as nat,
            |j: int| glyph_store(data@, point_counts@, j),
        ),
{
    let ghost s = data@;
    let gc = read_u16(data, 12).unwrap();
    let axis = read_u16(data, 4).unwrap();
    let mut glyphs: Vec<Option<TupleVariationStore>> = Vec::new();
    let mut g: usize = 0;
    while g < gc as usize
        invariant
            s == data@,
            gvar_defined(s, point_counts@),
            s.len() >= 20,
            offsets_end(s) <= s.len(),
            gc == u16_at(s, 12),
            axis == u16_at(s, 4),
            starts@.len() == gc + 1,
            forall|k: int| 0 <= k < starts@.len() ==> #[trigger] starts@[k] == glyph_data_start(s, k),
            g <= gc,
            stores_view(glyphs@) == Seq::new(g as nat, |j: int| glyph_store(s, point_counts@, j)),
        decreases gc - g,
    {
        let a = starts[g];
        let b = starts[g + 1];
        assert(glyph_data_start(s, g as int) <= glyph_data_start(s, g + 1));
        let ghost prev = stores_view(glyphs@);
        if a == b {
            glyphs.push(None);
            assert(stores_view(glyphs@) =~= prev.push(None));
        } else {
            assert(glyph_data_start(s, g as int) < glyph_data_start(s, g + 1));
            let pc = point_counts[g];
            match TupleVariationStore::from_bytes(data, a, axis, true, pc) {
                Ok((t, _)) => {
                    let ghost tv = store_view(t.0@);
                    glyphs.push(Some(t));
                    assert(stores_view(glyphs@) =~= prev.push(Some(tv)));
                    assert(glyph_store(s, point_counts@, g as int) == Some(tv));
                },
                Err(e) => {
                    assert(false);
                    return Err(e);
                },
            }
        }
        assert(stores_view(glyphs@) =~= Seq::new((g + 1) as nat, |j: int| glyph_store(s, point_counts@, j)));
        g = g + 1;
    }
    Ok(glyphs)
}

/// Read a `gvar` table, given the point count of each glyph. The deltas of
/// points that a variation does not list are left to interpolation.
pub fn gvar_from_bytes(data: &[u8], point_counts: &Vec<u16>) -> (r: Result<GvarData, DeserializationError>)
    requires
        gvar_defined(data@, point_counts@),
    ensures
        match r {
            Ok(g) => gvar_reading(data@, point_counts@) == Some(
                (g.axis_count, tuples_view(g.shared_tuples@), stores_view(g.glyphs@)),
            ),
            Err(_) => gvar_reading(data@, point_counts@) is None,
        },
{
    let ghost s = data@;
    if data.len() < 20 {
        return Err(DeserializationError::UnexpectedEof);
    }
    let axis = read_u16(data, 4).unwrap();
    let gc = read_u16(data, 12).unwrap();
    let flags = read_u16(data, 14).unwrap();
    let width: usize = if flags % 2 == 1 { 4 } else { 2 };
    let n: usize = gc as usize + 1;
    if (data.len() - 20) / width < n {
        assert(offsets_end(s) > s.len()) by (nonlinear_arith)
            requires
                offsets_end(s) == 20 + n * width,
                (data.len() - 20) / (width as int) < n,
                width == 2 || width == 4,
                data.len() >= 20,
                s.len() == data.len(),
        ;
        return Err(DeserializationError::UnexpectedEof);
    }
    assert(offsets_end(s) <= s.len()) by (nonlinear_arith)
        requires
            offsets_end(s) == 20 + n * width,
            (data.len() - 20) / (width as int) >= n,
            width == 2 || width == 4,
            data.len() >= 20,
            s.len() == data.len(),
    ;
    let starts = read_starts(data);
    let shared = read_shared(data);
    let glyphs = match read_stores(data, point_counts, &starts) {
        Ok(g) => g,
        Err(e) => {
            return Err(e);
        },
    };
    Ok(GvarData { axis_count: axis, shared_tuples: shared, glyphs })
}

/// The peak of a variation: its own, or the shared tuple it names.
pub open spec fn region_peak(h: TupleHeaderData, sh: Seq<Seq<i16>>) -> Seq<i16> {
    match h.peak {
        Some(p) => p,
        None => sh[h.shared_tuple_index as int],
    }
}

/// A tuple that a header may hold, or the peak where it holds none.
pub open spec fn or_peak(t: Option<Seq<i16>>, peak: Seq<i16>) -> Seq<i16> {
    match t {
        Some(v) => v,
        None => peak,
    }
}

/// The deltas of every point, where each point has an x and y delta.
pub open spec fn complete_deltas(ds: Seq<Option<Delta>>) -> Option<Seq<(i16, i16)>> {
    if forall|k: int| 0 <= k < ds.len() ==> #[trigger] ds[k] matches Some(Delta::Delta2D(_)) {
        Some(
            Seq::new(
                ds.len(),
                |k: int|
                    match ds[k] {
                        Some(Delta::Delta2D(p)) => p,
                        _ => (0i16, 0i16),
                    },
            ),
        )
    } else {
        None
    }
}

/// The delta set of a variation read from a `gvar` table: its region, with
/// the shared tuples resolved, and its deltas. An index past the shared tuples
/// is an error. A variation that leaves points to interpolation gives `None`:
/// their deltas are interpolated in floating point, which this library leaves
/// to its caller.
pub fn deltaset_of(tv: &TupleVariation, shared: &Vec<Vec<i16>>) -> (r: Result<Option<DeltaSet>, DeserializationError>)
    requires
        tv.0.peakTuple is None ==> tv.0.sharedTupleIndex != shared@.len(),
    ensures
        match r {
            Err(_) => tv.0.sharedTupleIndex > shared@.len(),
            Ok(o) => tv.0.sharedTupleIndex <= shared@.len() && match complete_deltas(tv.1@) {
                None => o is None,
                Some(d) => o matches Some(ds) && ds@ == ({
                    let peak = region_peak(tv.0@, tuples_view(shared@));
                    DeltaSetData {
                        peak,
                        start: or_peak(tv.0@.start, peak),
                        end: or_peak(tv.0@.end, peak),
                        deltas: d,
                    }
                }),
            },
        },
{
    let index = tv.0.sharedTupleIndex as usize;
    if index > shared.len() {
        return Err(DeserializationError::BadFormat);
    }
    let mut deltas: Vec<(i16, i16)> = Vec::new();
    let mut k: usize = 0;
    while k < tv.1.len()
        invariant
            index == tv.0.sharedTupleIndex,
            index <= shared@.len(),
            k <= tv.1@.len(),
            forall|j: int| 0 <= j < k ==> #[trigger] tv.1@[j] matches Some(Delta::Delta2D(_)),
            deltas@ == Seq::new(
                k as nat,
                |j: int|
                    match tv.1@[j] {
                        Some(Delta::Delta2D(p)) => p,
                        _ => (0i16, 0i16),
                    },
            ),
        decreases tv.1.len() - k,
    {
        match &tv.1[k] {
            Some(Delta::Delta2D(p)) => {
                deltas.push(*p);
            },
            _ => {
                assert(!(tv.1@[k as int] matches Some(Delta::Delta2D(_))));
                assert(complete_deltas(tv.1@) is None);
                assert(tv.0.sharedTupleIndex <= shared@.len());
                let none: Option<DeltaSet> = None;
                return Ok(none);
            },
        }
        assert(deltas@ =~= Seq::new(
            (k + 1) as nat,
            |j: int|
                match tv.1@[j] {
                    Some(Delta::Delta2D(p)) => p,
                    _ => (0i16, 0i16),
                },
        ));
        k = k + 1;
    }
    let peak: Vec<i16> = match &tv.0.peakTuple {
        Some(p) => copy_tuple(p),
        None => copy_tuple(&shared[index]),
    };
    let start: Vec<i16> = match &tv.0.startTuple {
        Some(p) => copy_tuple(p),
        None => copy_tuple(&peak),
    };
    let end: Vec<i16> = match &tv.0.endTuple {
        Some(p) => copy_tuple(p),
        None => copy_tuple(&peak),
    };
    Ok(Some(DeltaSet { peak, start, end, deltas }))
}

proof fn lemma_count_in_contains(ps: Seq<Seq<i16>>, p: Seq<i16>)
    ensures
        count_in(ps, p) > 0 ==> ps.contains(p),
    decreases ps.len(),
{
    if ps.len() > 0 {
        lemma_count_in_contains(ps.drop_last(), p);
        if count_in(ps.drop_last(), p) > 0 {
            let i = choose|i: int| 0 <= i < ps.drop_last().len() && ps.drop_last()[i] == p;
            assert(ps[i] == p);
        }
        if ps.last() == p {
            assert(ps[ps.len() - 1] == p);
        }
    }
}

proof fn lemma_count_in_bound(ps: Seq<Seq<i16>>, p: Seq<i16>)
    ensures
        count_in(ps, p) <= ps.len(),
    decreases ps.len(),
{
    if ps.len() > 0 {
        lemma_count_in_bound(ps.drop_last(), p);
    }
}

/// The repeated peaks among the first `n` hold every peak there that occurs
/// more than once, and only peaks that do.
proof fn lemma_repeated(ps: Seq<Seq<i16>>, n: int)
    requires
        0 <= n <= ps.len(),
    ensures
        forall|i: int| 0 <= i < n && count_in(ps, ps[i]) > 1 ==> repeated(ps, n).contains(#[trigger] ps[i]),
        forall|q: Seq<i16>| repeated(ps, n).contains(q) ==> count_in(ps, q) > 1,
    decreases n,
{
    if n > 0 {
        lemma_repeated(ps, n - 1);
        let r = repeated(ps, n - 1);
        assert forall|i: int| 0 <= i < n && count_in(ps, ps[i]) > 1 implies repeated(ps, n).contains(#[trigger] ps[i]) by {
            if i < n - 1 {
                assert(r.contains(ps[i]));
                let k = choose|k: int| 0 <= k < r.len() && r[k] == ps[i];
                assert(repeated(ps, n)[k] == ps[i]);
            } else if !r.contains(ps[i]) {
                assert(repeated(ps, n) == r.push(ps[i]));
                assert(repeated(ps, n)[r.len() as int] == ps[i]);
            }
        }
        assert forall|q: Seq<i16>| repeated(ps, n).contains(q) implies count_in(ps, q) > 1 by {
            let k = choose|k: int| 0 <= k < repeated(ps, n).len() && repeated(ps, n)[k] == q;
            if k < r.len() {
                assert(r[k] == q);
                assert(r.contains(q));
            } else {
                let p = ps[n - 1];
                assert(count_in(ps, p) > 1 && !r.contains(p));
                assert(repeated(ps, n) == r.push(p));
                assert(q == p);
            }
        }
    }
}

proof fn lemma_with_count(ds: Seq<Seq<i16>>, ps: Seq<Seq<i16>>, c: nat)
    ensures
        forall|q: Seq<i16>| ds.contains(q) && count_in(ps, q) == c ==> #[trigger] with_count(ds, ps, c).contains(q),
        forall|q: Seq<i16>| #[trigger] with_count(ds, ps, c).contains(q) ==> count_in(ps, q) == c,
    decreases ds.len(),
{
    if ds.len() > 0 {
        let init = ds.drop_last();
        lemma_with_count(init, ps, c);
        let r = with_count(init, ps, c);
        assert forall|q: Seq<i16>| ds.contains(q) && count_in(ps, q) == c implies #[trigger] with_count(ds, ps, c).contains(q) by {
            let k = choose|k: int| 0 <= k < ds.len() && ds[k] == q;
            if k < ds.len() - 1 {
                assert(init[k] == q);
                assert(r.contains(q));
                let j = choose|j: int| 0 <= j < r.len() && r[j] == q;
                if count_in(ps, ds.last()) == c {
                    assert(with_count(ds, ps, c)[j] == q);
                } else {
                    assert(with_count(ds, ps, c)[j] == q);
                }
            } else {
                assert(with_count(ds, ps, c)[r.len() as int] == q);
            }
        }
        assert forall|q: Seq<i16>| #[trigger] with_count(ds, ps, c).contains(q) implies count_in(ps, q) == c by {
            let j = choose|j: int| 0 <= j < with_count(ds, ps, c).len() && with_count(ds, ps, c)[j] == q;
            if j < r.len() {
                assert(r[j] == q);
                assert(r.contains(q));
            }
        }
    }
}

proof fn lemma_shared_from(ps: Seq<Seq<i16>>, c: nat)
    ensures
        forall|q: Seq<i16>|
            repeated(ps, ps.len() as int).contains(q) && 2 <= count_in(ps, q) <= c ==> #[trigger] shared_from(ps, c).contains(q),
        forall|q: Seq<i16>| #[trigger] shared_from(ps, c).contains(q) ==> count_in(ps, q) >= 2,
    decreases c,
{
    if c >= 2 {
        lemma_shared_from(ps, (c - 1) as nat);
        let w = with_count(repeated(ps, ps.len() as int), ps, c);
        let rest = shared_from(ps, (c - 1) as nat);
        lemma_with_count(repeated(ps, ps.len() as int), ps, c);
        assert(shared_from(ps, c) == w + rest);
        assert forall|q: Seq<i16>|
            repeated(ps, ps.len() as int).contains(q) && 2 <= count_in(ps, q) <= c implies #[trigger] shared_from(ps, c).contains(q) by {
            if count_in(ps, q) == c {
                assert(w.contains(q));
                let j = choose|j: int| 0 <= j < w.len() && w[j] == q;
                assert((w + rest)[j] == q);
            } else {
                assert(rest.contains(q));
                let j = choose|j: int| 0 <= j < rest.len() && rest[j] == q;
                assert((w + rest)[w.len() + j] == q);
            }
        }
        assert forall|q: Seq<i16>| #[trigger] shared_from(ps, c).contains(q) implies count_in(ps, q) >= 2 by {
            let j = choose|j: int| 0 <= j < (w + rest).len() && (w + rest)[j] == q;
            if j < w.len() {
                assert(w[j] == q);
                assert(w.contains(q));
            } else {
                assert(rest[j - w.len()] == q);
                assert(rest.contains(q));
            }
        }
    }
}

/// A table has shared tuples exactly where some peak occurs in more than one
/// delta set.
pub proof fn lemma_shared_tuples_exist(v: Seq<Option<Seq<DeltaSetData>>>)
    ensures
        shared_tuples(v).len() > 0 <==> exists|i: int|
            0 <= i < all_peaks(v).len() && count_in(all_peaks(v), #[trigger] all_peaks(v)[i]) > 1,
{
    let ps = all_peaks(v);
    lemma_repeated(ps, ps.len() as int);
    lemma_shared_from(ps, ps.len());
    if exists|i: int| 0 <= i < ps.len() && count_in(ps, #[trigger] ps[i]) > 1 {
        let i = choose|i: int| 0 <= i < ps.len() && count_in(ps, #[trigger] ps[i]) > 1;
        lemma_count_in_bound(ps, ps[i]);
        assert(repeated(ps, ps.len() as int).contains(ps[i]));
        assert(shared_from(ps, ps.len()).contains(ps[i]));
    }
    if shared_tuples(v).len() > 0 {
        let q = shared_tuples(v)[0];
        assert(shared_from(ps, ps.len()).contains(q));
        assert(count_in(ps, q) >= 2);
        lemma_count_in_contains(ps, q);
        let i = choose|i: int| 0 <= i < ps.len() && ps[i] == q;
        assert(count_in(ps, ps[i]) > 1);
    }
}

} // verus!
