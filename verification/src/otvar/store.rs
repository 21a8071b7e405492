//! Tuple variation stores: the headers of a set of tuple variations, then their
//! point numbers and packed deltas.
use crate::binary::{read_u16, u16_at, DeserializationError};
use crate::glyf::reading::{prepend_all, Reading};
use crate::otvar::header::{has_flag, tvh_decoding, TupleHeaderData, TupleVariationHeader, PRIVATE_POINT_NUMBERS};
use crate::packed::{delta_runs, packed_deltas_from_bytes, packed_points_decoding, packed_points_overflow, PackedPoints};
use vstd::prelude::*;

verus! {

/// A delta for one point: one value (`cvt`) or an x and a y (`gvar`).
#[derive(Debug, PartialEq, Clone, Copy)]
pub enum Delta {
    Delta1D(i16),
    Delta2D((i16, i16)),
}

/// A record within a tuple variation store: a header and a delta for each point,
/// `None` for the points whose deltas are left to interpolation.
#[derive(Debug, PartialEq)]
pub struct TupleVariation(pub TupleVariationHeader, pub Vec<Option<Delta>>);

/// A tuple variation store: the variations of one glyph (or of the control values).
#[derive(Debug, PartialEq)]
pub struct TupleVariationStore(pub Vec<TupleVariation>);

/// A tuple variation in mathematical form.
pub open spec fn variation_view(v: TupleVariation) -> (TupleHeaderData, Seq<Option<Delta>>) {
    (v.0@, v.1@)
}

pub open spec fn store_view(s: Seq<TupleVariation>) -> Seq<(TupleHeaderData, Seq<Option<Delta>>)> {
    s.map_values(|v: TupleVariation| variation_view(v))
}

/// The first `n` headers from `pos`, and the position after them.
pub open spec fn headers_decoding(s: Seq<u8>, pos: int, n: nat, axis_count: int) -> Option<
    (Seq<TupleHeaderData>, int),
>
    decreases n,
{
    if n == 0 {
        Some((Seq::empty(), pos))
    } else {
        match headers_decoding(s, pos, (n - 1) as nat, axis_count) {
            None => None,
            Some((hs, p)) => match tvh_decoding(s, p, axis_count) {
                None => None,
                Some((h, q)) => Some((hs.push(h), q)),
            },
        }
    }
}

/// The point numbers `0..n`.
pub open spec fn all_points(n: int) -> Seq<u16> {
    Seq::new(n as nat, |i: int| i as u16)
}

/// Packed point numbers read at `pos`; "all points" stands for `0..point_count`.
/// Undefined where the point numbers add up beyond 65535.
pub open spec fn points_reading(s: Seq<u8>, pos: int, point_count: int) -> Reading<Seq<u16>> {
    if packed_points_overflow(s, pos) {
        Reading::Undefined
    } else {
        match packed_points_decoding(s, pos) {
            None => Reading::Error(DeserializationError::UnexpectedEof),
            Some((Some(p), q)) => Reading::Value(p, q),
            Some((None, q)) => Reading::Value(all_points(point_count), q),
        }
    }
}

/// Pairs of x and y deltas, as many as the shorter list has.
pub open spec fn zip_deltas(xs: Seq<i16>, ys: Seq<i16>) -> Seq<Delta> {
    Seq::new(
        if xs.len() <= ys.len() { xs.len() } else { ys.len() },
        |k: int| Delta::Delta2D((xs[k], ys[k])),
    )
}

/// The deltas for `n` points at `pos`: packed x deltas then packed y deltas for
/// `gvar`, one list of packed deltas otherwise; and the position after them.
pub open spec fn deltas_decoding(s: Seq<u8>, pos: int, n: int, is_gvar: bool) -> Option<(Seq<Delta>, int)> {
    if is_gvar {
        match delta_runs(s, pos, n, Seq::empty()) {
            None => None,
            Some((xs, p)) => match delta_runs(s, p, n, Seq::empty()) {
                None => None,
                Some((ys, q)) => Some((zip_deltas(xs, ys), q)),
            },
        }
    } else {
        match delta_runs(s, pos, n, Seq::empty()) {
            None => None,
            Some((ds, p)) => Some((ds.map_values(|d: i16| Delta::Delta1D(d)), p)),
        }
    }
}

/// The deltas of points `i..point_count`: point `i` takes the next delta when it
/// is the next listed point number (the `k`-th), and has none otherwise.
pub open spec fn expand(point_count: int, pts: Seq<u16>, ds: Seq<Delta>, i: int, k: int) -> Seq<Option<Delta>>
    decreases point_count - i,
{
    if i >= point_count {
        Seq::empty()
    } else if 0 <= k < pts.len() && pts[k] == i {
        seq![Some(ds[k])] + expand(point_count, pts, ds, i + 1, k + 1)
    } else {
        seq![None] + expand(point_count, pts, ds, i + 1, k)
    }
}

/// The deltas of one variation with header `h`, read from `pos` on: its private
/// point numbers if it has any (else the shared ones), then its packed deltas.
/// Undefined where more than 65535 points are listed.
pub open spec fn variation_reading(
    s: Seq<u8>,
    pos: int,
    h: TupleHeaderData,
    shared: Seq<u16>,
    point_count: int,
    is_gvar: bool,
) -> Reading<Seq<Option<Delta>>> {
    let pr = if has_flag(h.flags, PRIVATE_POINT_NUMBERS) {
        points_reading(s, pos, point_count)
    } else {
        Reading::Value(shared, pos)
    };
    match pr {
        Reading::Undefined => Reading::Undefined,
        Reading::Error(e) => Reading::Error(e),
        Reading::Value(pts, q) => if pts.len() > 65535 {
            Reading::Undefined
        } else {
            match deltas_decoding(s, q, pts.len() as int, is_gvar) {
                None => Reading::Error(DeserializationError::UnexpectedEof),
                Some((ds, q2)) => Reading::Value(expand(point_count, pts, ds, 0, 0), q2),
            }
        },
    }
}

/// The variations with headers `hs`, their data read from `pos` on.
pub open spec fn variations_reading(
    s: Seq<u8>,
    pos: int,
    hs: Seq<TupleHeaderData>,
    shared: Seq<u16>,
    point_count: int,
    is_gvar: bool,
) -> Reading<Seq<(TupleHeaderData, Seq<Option<Delta>>)>>
    decreases hs.len(),
{
    if hs.len() == 0 {
        Reading::Value(Seq::empty(), pos)
    } else {
        match variation_reading(s, pos, hs[0], shared, point_count, is_gvar) {
            Reading::Undefined => Reading::Undefined,
            Reading::Error(e) => Reading::Error(e),
            Reading::Value(d, q) => match variations_reading(s, q, hs.drop_first(), shared, point_count, is_gvar) {
                Reading::Value(rest, q3) => Reading::Value(seq![(hs[0], d)] + rest, q3),
                other => other,
            },
        }
    }
}

/// Reading a tuple variation store at `pos`: the count word (the low 12 bits
/// count the variations; the high bit says shared point numbers follow the
/// headers), the data offset (not used), the headers, the shared points, then
/// each variation's private points and deltas.
pub open spec fn tvs_reading(s: Seq<u8>, pos: int, axis_count: int, is_gvar: bool, point_count: int) -> Reading<
    Seq<(TupleHeaderData, Seq<Option<Delta>>)>,
> {
    if pos < 0 || pos + 4 > s.len() {
        Reading::Error(DeserializationError::UnexpectedEof)
    } else {
        let packed = u16_at(s, pos);
        match headers_decoding(s, pos + 4, (packed & 0x0FFFu16) as nat, axis_count) {
            None => Reading::Error(DeserializationError::UnexpectedEof),
            Some((hs, p)) => {
                let sp = if packed & 0x8000u16 != 0 {
                    points_reading(s, p, point_count)
                } else {
                    Reading::Value(Seq::empty(), p)
                };
                match sp {
                    Reading::Undefined => Reading::Undefined,
                    Reading::Error(e) => Reading::Error(e),
                    Reading::Value(shared, q) => variations_reading(s, q, hs, shared, point_count, is_gvar),
                }
            },
        }
    }
}

/// The point numbers `0..n`.
fn all_points_vec(n: u16) -> (r: Vec<u16>)
    ensures
        r@ == all_points(n as int),
{
    let mut v: Vec<u16> = Vec::new();
    let mut i: u16 = 0;
    while i < n
        invariant
            i <= n,
            v@ == all_points(i as int),
        decreases n - i,
    {
        v.push(i);
        assert(v@ =~= all_points(i + 1));
        i = i + 1;
    }
    v
}

/// Packed point numbers at `pos`, with "all points" spelled out.
fn read_points(data: &[u8], pos: usize, point_count: u16) -> (r: Result<(Vec<u16>, usize), DeserializationError>)
    requires
        points_reading(data@, pos as int, point_count as int) !is Undefined,
    ensures
        match r {
            Ok((p, next)) => points_reading(data@, pos as int, point_count as int) == Reading::Value(p@, next as int),
            Err(e) => points_reading(data@, pos as int, point_count as int) == Reading::<Seq<u16>>::Error(e),
        },
{
    match PackedPoints::from_bytes(data, pos) {
        Ok((pp, next)) => match pp.points {
            Some(v) => Ok((v, next)),
            None => Ok((all_points_vec(point_count), next)),
        },
        Err(_) => Err(DeserializationError::UnexpectedEof),
    }
}

/// The deltas for `n` points at `pos`.
fn read_deltas(data: &[u8], pos: usize, n: u16, is_gvar: bool) -> (r: Result<(Vec<Delta>, usize), DeserializationError>)
    ensures
        match r {
            Ok((d, next)) => deltas_decoding(data@, pos as int, n as int, is_gvar) == Some((d@, next as int)),
            Err(e) => deltas_decoding(data@, pos as int, n as int, is_gvar) is None && e
                == DeserializationError::UnexpectedEof,
        },
{
    if is_gvar {
        let (xs, p) = match packed_deltas_from_bytes(data, pos, n) {
            Ok((d, p)) => match d.deltas {
                Some(v) => (v, p),
                None => return Err(DeserializationError::UnexpectedEof),
            },
            Err(_) => return Err(DeserializationError::UnexpectedEof),
        };
        let (ys, q) = match packed_deltas_from_bytes(data, p, n) {
            Ok((d, q)) => match d.deltas {
                Some(v) => (v, q),
                None => return Err(DeserializationError::UnexpectedEof),
            },
            Err(_) => return Err(DeserializationError::UnexpectedEof),
        };
        let len = if xs.len() <= ys.len() { xs.len() } else { ys.len() };
        let mut out: Vec<Delta> = Vec::new();
        let mut k: usize = 0;
        while k < len
            invariant
                k <= len,
                len <= xs@.len(),
                len <= ys@.len(),
                out@ == zip_deltas(xs@, ys@).take(k as int),
                len == zip_deltas(xs@, ys@).len(),
            decreases len - k,
        {
            out.push(Delta::Delta2D((xs[k], ys[k])));
            assert(out@ =~= zip_deltas(xs@, ys@).take(k + 1));
            k = k + 1;
        }
        assert(out@ =~= zip_deltas(xs@, ys@));
        Ok((out, q))
    } else {
        let (ds, p) = match packed_deltas_from_bytes(data, pos, n) {
            Ok((d, p)) => match d.deltas {
                Some(v) => (v, p),
                None => return Err(DeserializationError::UnexpectedEof),
            },
            Err(_) => return Err(DeserializationError::UnexpectedEof),
        };
        let mut out: Vec<Delta> = Vec::new();
        let mut k: usize = 0;
        while k < ds.len()
            invariant
                k <= ds@.len(),
                out@ == ds@.take(k as int).map_values(|d: i16| Delta::Delta1D(d)),
            decreases ds@.len() - k,
        {
            out.push(Delta::Delta1D(ds[k]));
            assert(out@ =~= ds@.take(k + 1).map_values(|d: i16| Delta::Delta1D(d)));
            k = k + 1;
        }
        assert(ds@.take(k as int) =~= ds@);
        Ok((out, p))
    }
}

/// Reading delta runs gives at least as many deltas as asked for.
proof fn lemma_delta_runs_len(s: Seq<u8>, pos: int, count: int, acc: Seq<i16>)
    requires
        delta_runs(s, pos, count, acc) is Some,
    ensures
        delta_runs(s, pos, count, acc).unwrap().0.len() >= count,
    decreases s.len() - pos,
{
    if acc.len() < count && 0 <= pos < s.len() && pos + crate::packed::delta_run_len(s, pos) <= s.len() {
        let n = crate::packed::delta_run_len(s, pos);
        assert(n >= 1);
        lemma_delta_runs_len(s, pos + n, count, acc + crate::packed::delta_run_values(s, pos));
    }
}

/// The deltas read for `n` points are at least `n`.
proof fn lemma_deltas_len(s: Seq<u8>, pos: int, n: int, is_gvar: bool)
    requires
        deltas_decoding(s, pos, n, is_gvar) is Some,
    ensures
        deltas_decoding(s, pos, n, is_gvar).unwrap().0.len() >= n,
{
    lemma_delta_runs_len(s, pos, n, Seq::empty());
    if is_gvar {
        let p = delta_runs(s, pos, n, Seq::empty()).unwrap().1;
        lemma_delta_runs_len(s, p, n, Seq::empty());
    }
}

proof fn lemma_expand_len(point_count: int, pts: Seq<u16>, ds: Seq<Delta>, i: int, k: int)
    ensures
        expand(point_count, pts, ds, i, k).len() == if i >= point_count { 0 } else { point_count - i },
    decreases point_count - i,
{
    if i < point_count {
        if 0 <= k < pts.len() && pts[k] == i {
            lemma_expand_len(point_count, pts, ds, i + 1, k + 1);
        } else {
            lemma_expand_len(point_count, pts, ds, i + 1, k);
        }
    }
}

/// A delta for each of the points `0..point_count`: the listed points take the
/// deltas in turn.
fn expand_deltas(point_count: u16, pts: &Vec<u16>, ds: &Vec<Delta>) -> (r: Vec<Option<Delta>>)
    requires
        pts@.len() <= ds@.len(),
    ensures
        r@ == expand(point_count as int, pts@, ds@, 0, 0),
{
    let mut out: Vec<Option<Delta>> = Vec::new();
    let mut i: u16 = 0;
    let mut k: usize = 0;
    while i < point_count
        invariant
            i <= point_count,
            k <= pts@.len(),
            pts@.len() <= ds@.len(),
            out@ + expand(point_count as int, pts@, ds@, i as int, k as int) == expand(
                point_count as int,
                pts@,
                ds@,
                0,
                0,
            ),
        decreases point_count - i,
    {
        if k < pts.len() && pts[k] == i {
            assert(expand(point_count as int, pts@, ds@, i as int, k as int) == seq![Some(ds@[k as int])] + expand(
                point_count as int,
                pts@,
                ds@,
                i + 1,
                k + 1,
            ));
            assert(out@.push(Some(ds@[k as int])) + expand(point_count as int, pts@, ds@, i + 1, k + 1) =~= out@
                + expand(point_count as int, pts@, ds@, i as int, k as int));
            out.push(Some(ds[k]));
            k = k + 1;
        } else {
            assert(expand(point_count as int, pts@, ds@, i as int, k as int) == seq![None] + expand(
                point_count as int,
                pts@,
                ds@,
                i + 1,
                k as int,
            ));
            assert(out@.push(None) + expand(point_count as int, pts@, ds@, i + 1, k as int) =~= out@ + expand(
                point_count as int,
                pts@,
                ds@,
                i as int,
                k as int,
            ));
            out.push(None);
        }
        i = i + 1;
    }
    assert(expand(point_count as int, pts@, ds@, i as int, k as int) =~= Seq::<Option<Delta>>::empty());
    assert(out@ =~= out@ + Seq::<Option<Delta>>::empty());
    out
}

/// A copy of a list of coordinates.
fn copy_tuple(t: &Option<Vec<i16>>) -> (r: Option<Vec<i16>>)
    ensures
        crate::otvar::header::tuple_view(r) == crate::otvar::header::tuple_view(*t),
{
    match t {
        None => None,
        Some(v) => {
            let mut out: Vec<i16> = Vec::new();
            let mut i: usize = 0;
            while i < v.len()
                invariant
                    i <= v@.len(),
                    out@ == v@.take(i as int),
                decreases v@.len() - i,
            {
                out.push(v[i]);
                assert(out@ =~= v@.take(i + 1));
                i = i + 1;
            }
            assert(v@.take(i as int) =~= v@);
            Some(out)
        },
    }
}

fn copy_header(h: &TupleVariationHeader) -> (r: TupleVariationHeader)
    ensures
        r@ == h@,
{
    TupleVariationHeader {
        size: h.size,
        flags: h.flags,
        sharedTupleIndex: h.sharedTupleIndex,
        peakTuple: copy_tuple(&h.peakTuple),
        startTuple: copy_tuple(&h.startTuple),
        endTuple: copy_tuple(&h.endTuple),
    }
}

pub open spec fn headers_view(hs: Seq<TupleVariationHeader>) -> Seq<TupleHeaderData> {
    hs.map_values(|h: TupleVariationHeader| h@)
}

/// The deltas of one variation with header `h`, read at `pos`, and the position after them.
fn read_variation(
    data: &[u8],
    pos: usize,
    h: &TupleVariationHeader,
    shared: &Vec<u16>,
    point_count: u16,
    is_gvar: bool,
) -> (r: Result<(Vec<Option<Delta>>, usize), DeserializationError>)
    requires
        variation_reading(data@, pos as int, h@, shared@, point_count as int, is_gvar) !is Undefined,
    ensures
        match r {
            Ok((d, next)) => variation_reading(data@, pos as int, h@, shared@, point_count as int, is_gvar)
                == Reading::Value(d@, next as int),
            Err(e) => variation_reading(data@, pos as int, h@, shared@, point_count as int, is_gvar)
                == Reading::<Seq<Option<Delta>>>::Error(e),
        },
{
    let mut p = pos;
    let pts: Vec<u16> = if h.flags & PRIVATE_POINT_NUMBERS != 0 {
        match read_points(data, p, point_count) {
            Ok((v, next)) => {
                p = next;
                v
            },
            Err(e) => {
                return Err(e);
            },
        }
    } else {
        copy_points(shared)
    };
    if pts.len() > 65535 {
        return Err(DeserializationError::BadFormat);
    }
    let (ds, next) = match read_deltas(data, p, pts.len() as u16, is_gvar) {
        Ok(x) => x,
        Err(e) => {
            return Err(e);
        },
    };
    proof {
        lemma_deltas_len(data@, p as int, pts@.len() as int, is_gvar);
    }
    Ok((expand_deltas(point_count, &pts, &ds), next))
}

/// One more header read after the first `i`.
proof fn lemma_headers_step(s: Seq<u8>, pos: int, i: nat, a: int)
    ensures
        headers_decoding(s, pos, i + 1, a) == match headers_decoding(s, pos, i, a) {
            None => None,
            Some((hs, p)) => match tvh_decoding(s, p, a) {
                None => None,
                Some((h, q)) => Some((hs.push(h), q)),
            },
        },
{
}

impl TupleVariationStore {
    /// Reads a tuple variation store at `pos` for `axis_count` axes and
    /// `point_count` points (`gvar` data holds x and y deltas, other data one
    /// delta per point); returns it and the position after it.
    pub fn from_bytes(data: &[u8], pos: usize, axis_count: u16, is_gvar: bool, point_count: u16) -> (r: Result<
        (TupleVariationStore, usize),
        DeserializationError,
    >)
        requires
            tvs_reading(data@, pos as int, axis_count as int, is_gvar, point_count as int) !is Undefined,
        ensures
            match r {
                Ok((t, next)) => tvs_reading(data@, pos as int, axis_count as int, is_gvar, point_count as int)
                    == Reading::Value(store_view(t.0@), next as int),
                Err(e) => tvs_reading(data@, pos as int, axis_count as int, is_gvar, point_count as int)
                    == Reading::<Seq<(TupleHeaderData, Seq<Option<Delta>>)>>::Error(e),
            },
    {
        let ghost s = data@;
        let ghost a = axis_count as int;
        let packed_count = match read_u16(data, pos) {
            Some(v) => v,
            None => return Err(DeserializationError::UnexpectedEof),
        };
        assert(pos + 2 <= data.len());
        let _data_offset = match read_u16(data, pos + 2) {
            Some(v) => v,
            None => return Err(DeserializationError::UnexpectedEof),
        };
        let count = packed_count & 0x0FFF;
        let points_are_shared = packed_count & 0x8000 != 0;
        let mut p: usize = pos + 4;
        let mut headers: Vec<TupleVariationHeader> = Vec::new();
        let mut i: u16 = 0;
        while i < count
            invariant
                i <= count,
                s == data@,
                a == axis_count as int,
                packed_count == u16_at(s, pos as int),
                count == (packed_count & 0x0FFFu16),
                pos + 4 <= s.len(),
                headers@.len() == i,
                headers_decoding(s, pos + 4, i as nat, a) == Some((headers_view(headers@), p as int)),
                p <= data@.len(),
            decreases count - i,
        {
            let rh = TupleVariationHeader::from_bytes(data, p, axis_count);
            proof {
                lemma_headers_step(s, pos + 4, i as nat, a);
            }
            let (h, next) = match rh {
                Ok(x) => x,
                Err(_) => {
                    proof {
                        assert(tvh_decoding(s, p as int, a) is None);
                        lemma_headers_fail(s, pos + 4, i as nat, count as nat, a);
                    }
                    return Err(DeserializationError::UnexpectedEof);
                },
            };
            assert(tvh_decoding(s, p as int, a) == Some((h@, next as int)));
            let ghost before = headers@;
            headers.push(h);
            assert(headers_view(headers@) =~= headers_view(before).push(headers@[i as int]@));
            assert(headers_decoding(s, pos + 4, (i + 1) as nat, a) == Some((headers_view(headers@), next as int)));
            p = next;
            i = i + 1;
        }
        let ghost hs = headers_view(headers@);
        let shared_points: Vec<u16> = if points_are_shared {
            match read_points(data, p, point_count) {
                Ok((v, next)) => {
                    p = next;
                    v
                },
                Err(e) => {
                    return Err(e);
                },
            }
        } else {
            Vec::new()
        };
        let ghost whole = variations_reading(s, p as int, hs, shared_points@, point_count as int, is_gvar);
        assert(count == (packed_count & 0x0FFFu16));
        assert(whole == tvs_reading(s, pos as int, a, is_gvar, point_count as int));
        let mut variations: Vec<TupleVariation> = Vec::new();
        let mut j: usize = 0;
        proof {
            assert(hs.skip(0) =~= hs);
            assert(store_view(variations@) =~= Seq::empty());
            crate::glyf::reading::lemma_prepend_empty(whole);
        }
        while j < headers.len()
            invariant
                j <= headers@.len(),
                s == data@,
                a == axis_count as int,
                whole == tvs_reading(s, pos as int, a, is_gvar, point_count as int),
                hs == headers_view(headers@),
                whole !is Undefined,
                prepend_all(
                    store_view(variations@),
                    variations_reading(s, p as int, hs.skip(j as int), shared_points@, point_count as int, is_gvar),
                ) == whole,
            decreases headers@.len() - j,
        {
            let ghost rest = hs.skip(j as int);
            assert(rest[0] == headers@[j as int]@);
            assert(rest.drop_first() =~= hs.skip(j + 1));
            let h = &headers[j];
            let (all, next) = match read_variation(data, p, h, &shared_points, point_count, is_gvar) {
                Ok(x) => x,
                Err(e) => {
                    return Err(e);
                },
            };
            p = next;
            let ghost before = variations@;
            variations.push(TupleVariation(copy_header(h), all));
            proof {
                let item = (hs[j as int], all@);
                assert(store_view(variations@) =~= store_view(before).push(item));
                crate::glyf::reading::lemma_prepend_step(
                    store_view(before),
                    item,
                    variations_reading(s, p as int, hs.skip(j + 1), shared_points@, point_count as int, is_gvar),
                );
            }
            j = j + 1;
        }
        proof {
            assert(hs.skip(j as int) =~= Seq::<TupleHeaderData>::empty());
        }
        Ok((TupleVariationStore(variations), p))
    }
}

/// A copy of a list of point numbers.
fn copy_points(v: &Vec<u16>) -> (r: Vec<u16>)
    ensures
        r@ == v@,
{
    let mut out: Vec<u16> = Vec::new();
    let mut i: usize = 0;
    while i < v.len()
        invariant
            i <= v@.len(),
            out@ == v@.take(i as int),
        decreases v@.len() - i,
    {
        out.push(v[i]);
        assert(out@ =~= v@.take(i + 1));
        i = i + 1;
    }
    assert(v@.take(i as int) =~= v@);
    out
}

/// Once header `i` cannot be read, no more headers can.
proof fn lemma_headers_fail(s: Seq<u8>, pos: int, i: nat, n: nat, a: int)
    requires
        i < n,
        headers_decoding(s, pos, i, a) is Some,
        tvh_decoding(s, headers_decoding(s, pos, i, a).unwrap().1, a) is None,
    ensures
        headers_decoding(s, pos, n, a) is None,
    decreases n - i,
{
    if i + 1 < n {
        lemma_headers_none(s, pos, i + 1, n, a);
    }
}

proof fn lemma_headers_none(s: Seq<u8>, pos: int, i: nat, n: nat, a: int)
    requires
        i <= n,
        headers_decoding(s, pos, i, a) is None,
    ensures
        headers_decoding(s, pos, n, a) is None,
    decreases n - i,
{
    if i < n {
        lemma_headers_none(s, pos, i + 1, n, a);
    }
}

} // verus!
