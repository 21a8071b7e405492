//! OpenType coverage tables: the set of glyphs a lookup applies to.
use crate::binary::{
    lemma_be16_seq_index, lemma_be16_seq_len, lemma_u16_at_shift,
    be16, be16_seq, push_u16, push_u16_slice, read_u16, read_u16_vec, u16_at, DeserializationError,
};
use vstd::prelude::*;

verus! {

/// A coverage table.
///
/// OpenType lookups store information about which glyphs are affected by the
/// lookup, as a way to optimize the shaper's operation.
#[derive(Debug, PartialEq, Clone)]
pub struct Coverage {
    /// The glyphs (usually the first glyph in a sequence) affected by this lookup.
    pub glyphs: Vec<u16>,
}

/// The glyph IDs `start..=end`.
pub open spec fn glyph_range(start: u16, end: u16) -> Seq<u16> {
    Seq::new(
        if end >= start { (end - start + 1) as nat } else { 0 },
        |i: int| (start + i) as u16,
    )
}

/// The glyphs listed by the first `count` range records of a format 2 coverage table.
pub open spec fn format2_glyphs(s: Seq<u8>, count: nat) -> Seq<u16>
    decreases count,
{
    if count == 0 {
        Seq::empty()
    } else {
        let k = (count - 1) as nat;
        format2_glyphs(s, k) + glyph_range(u16_at(s, 4 + 6 * k as int), u16_at(s, 6 + 6 * k as int))
    }
}

/// The glyphs that the coverage table in `s` lists, or `None` where `s` is too short.
/// Any format other than 1 is read as format 2.
pub open spec fn coverage_decoding(s: Seq<u8>) -> Option<Seq<u16>> {
    if s.len() < 4 {
        None
    } else {
        let count = u16_at(s, 2);
        if u16_at(s, 0) == 1 {
            if 4 + 2 * count <= s.len() {
                Some(Seq::new(count as nat, |k: int| u16_at(s, 4 + 2 * k)))
            } else {
                None
            }
        } else if 4 + 6 * count <= s.len() {
            Some(format2_glyphs(s, count as nat))
        } else {
            None
        }
    }
}

/// A format 2 table in `s` whose records are all present and one of which ends at glyph 65535.
pub open spec fn coverage_range_overflows(s: Seq<u8>) -> bool {
    &&& s.len() >= 4
    &&& u16_at(s, 0) != 1
    &&& 4 + 6 * u16_at(s, 2) <= s.len()
    &&& exists|k: int| 0 <= k < u16_at(s, 2) && #[trigger] u16_at(s, 6 + 6 * k) == 65535
}

/// Non-decreasing order.
pub open spec fn is_sorted_seq(g: Seq<u16>) -> bool {
    forall|i: int, j: int| 0 <= i <= j < g.len() ==> g[i] <= g[j]
}

/// The maximal runs of `g` in which each glyph is one more than the one before,
/// as half-open index ranges, in order.
pub open spec fn run_bounds(g: Seq<u16>) -> Seq<(nat, nat)>
    decreases g.len(),
{
    if g.len() == 0 {
        Seq::empty()
    } else if g.len() == 1 {
        seq![(0nat, 1nat)]
    } else {
        let p = run_bounds(g.drop_last());
        let n = g.len();
        if g[n - 2] + 1 == g[n - 1] {
            p.update(p.len() - 1, (p.last().0, n))
        } else {
            p.push(((n - 1) as nat, n))
        }
    }
}

/// The range records of the runs in `b`: first glyph, last glyph, coverage index.
pub open spec fn range_records_bytes(g: Seq<u16>, b: Seq<(nat, nat)>) -> Seq<u8>
    decreases b.len(),
{
    if b.len() == 0 {
        Seq::empty()
    } else {
        let r = b.last();
        range_records_bytes(g, b.drop_last()) + be16(g[r.0 as int]) + be16(g[r.1 - 1]) + be16(
            r.0 as u16,
        )
    }
}

/// Whether a coverage table for `g` is written in format 1 (a plain glyph array).
pub open spec fn uses_format1(g: Seq<u16>) -> bool {
    g.len() == 0 || !is_sorted_seq(g) || run_bounds(g).len() * 3 >= g.len()
}

/// The bytes of the coverage table for `g`: format 1 unless `g` is sorted and
/// has fewer than a third as many runs as glyphs, format 2 (one record per run) otherwise.
pub open spec fn coverage_encoding(g: Seq<u16>) -> Seq<u8> {
    if uses_format1(g) {
        be16(1) + be16(g.len() as u16) + be16_seq(g)
    } else {
        be16(2) + be16(run_bounds(g).len() as u16) + range_records_bytes(g, run_bounds(g))
    }
}

/// No glyph but possibly the last is 65535 (the successor of such a glyph cannot be computed).
pub open spec fn no_inner_max_glyph(g: Seq<u16>) -> bool {
    forall|i: int| 0 <= i < g.len() - 1 ==> g[i] != 65535
}

proof fn lemma_run_bounds_shape(g: Seq<u16>)
    ensures
        g.len() == 0 ==> run_bounds(g).len() == 0,
        g.len() > 0 ==> run_bounds(g).len() >= 1 && run_bounds(g).last().1 == g.len(),
        run_bounds(g).len() <= g.len(),
        forall|k: int|
            0 <= k < run_bounds(g).len() ==> #[trigger] run_bounds(g)[k].0 < run_bounds(g)[k].1
                <= g.len(),
        forall|k: int|
            0 <= k < run_bounds(g).len() - 1 ==> #[trigger] run_bounds(g)[k].1 == run_bounds(
                g,
            )[k + 1].0,
        g.len() > 0 ==> run_bounds(g)[0].0 == 0,
    decreases g.len(),
{
    if g.len() > 1 {
        lemma_run_bounds_shape(g.drop_last());
    }
}

/// Within a run each glyph is one more than the one before.
proof fn lemma_run_values(g: Seq<u16>, k: int, t: int)
    requires
        0 <= k < run_bounds(g).len(),
        run_bounds(g)[k].0 <= t < run_bounds(g)[k].1,
    ensures
        g[t] == g[run_bounds(g)[k].0 as int] + (t - run_bounds(g)[k].0),
    decreases g.len(),
{
    lemma_run_bounds_shape(g);
    if g.len() > 1 {
        let gp = g.drop_last();
        let p = run_bounds(gp);
        let n = g.len();
        lemma_run_bounds_shape(gp);
        if g[n - 2] + 1 == g[n - 1] {
            if k == p.len() - 1 {
                if t == n - 1 {
                    if p.last().0 <= n - 2 {
                        lemma_run_values(gp, k, n - 2);
                    }
                } else {
                    lemma_run_values(gp, k, t);
                }
            } else {
                lemma_run_values(gp, k, t);
            }
        } else {
            if k < p.len() {
                lemma_run_values(gp, k, t);
            }
        }
    }
}

/// The runs found by scanning `data[0..i]`.
fn consecutive_slices(data: &[u16]) -> (r: Vec<(usize, usize)>)
    requires
        no_inner_max_glyph(data@),
    ensures
        r@.len() == run_bounds(data@).len(),
        forall|k: int|
            0 <= k < r@.len() ==> (#[trigger] r@[k]).0 == run_bounds(data@)[k].0 && r@[k].1
                == run_bounds(data@)[k].1,
{
    let mut slice_start: usize = 0;
    let mut result: Vec<(usize, usize)> = Vec::new();
    if data.len() == 0 {
        return result;
    }
    let mut i: usize = 1;
    while i < data.len()
        invariant
            1 <= i <= data.len(),
            no_inner_max_glyph(data@),
            slice_start < i,
            result@.len() + 1 == run_bounds(data@.subrange(0, i as int)).len(),
            forall|k: int|
                0 <= k < result@.len() ==> (#[trigger] result@[k]).0 == run_bounds(
                    data@.subrange(0, i as int),
                )[k].0 && result@[k].1 == run_bounds(data@.subrange(0, i as int))[k].1,
            run_bounds(data@.subrange(0, i as int)).last() == (slice_start as nat, i as nat),
        decreases data.len() - i,
    {
        let ghost g = data@.subrange(0, i + 1);
        assert(g.drop_last() == data@.subrange(0, i as int));
        proof {
            lemma_run_bounds_shape(data@.subrange(0, i as int));
        }
        if data[i - 1] + 1 != data[i] {
            result.push((slice_start, i));
            slice_start = i;
        }
        i = i + 1;
    }
    result.push((slice_start, data.len()));
    assert(data@.subrange(0, data.len() as int) == data@);
    result
}

/// Whether `slice` is in non-decreasing order.
fn is_sorted(slice: &[u16]) -> (r: bool)
    ensures
        r == is_sorted_seq(slice@),
{
    let mut i: usize = 1;
    while i < slice.len()
        invariant
            1 <= i,
            forall|a: int, b: int| 0 <= a <= b < i && b < slice@.len() ==> slice@[a] <= slice@[b],
        decreases slice.len() - i,
    {
        if slice[i] < slice[i - 1] {
            return false;
        }
        i = i + 1;
    }
    true
}

impl Coverage {
    /// Reads a coverage table.
    pub fn from_bytes(data: &[u8]) -> (r: Result<Coverage, DeserializationError>)
        requires
            !coverage_range_overflows(data@),
        ensures
            match r {
                Ok(c) => coverage_decoding(data@) == Some(c.glyphs@),
                Err(_) => coverage_decoding(data@) is None,
            },
    {
        let format = match read_u16(data, 0) {
            Some(f) => f,
            None => return Err(DeserializationError::UnexpectedEof),
        };
        let count = match read_u16(data, 2) {
            Some(c) => c,
            None => return Err(DeserializationError::UnexpectedEof),
        };
        if format == 1 {
            match read_u16_vec(data, 4, count as usize) {
                Some(glyphs) => {
                    assert(glyphs@ == Seq::new(count as nat, |k: int| u16_at(data@, 4 + 2 * k)));
                    Ok(Coverage { glyphs })
                },
                None => Err(DeserializationError::UnexpectedEof),
            }
        } else {
            if data.len() < 4 || (data.len() - 4) / 6 < count as usize {
                return Err(DeserializationError::UnexpectedEof);
            }
            let mut glyphs: Vec<u16> = Vec::new();
            let mut k: usize = 0;
            while k < count as usize
                invariant
                    k <= count,
                    4 + 6 * count <= data@.len(),
                    data@.len() == data.len(),
                    count == u16_at(data@, 2),
                    u16_at(data@, 0) != 1,
                    !coverage_range_overflows(data@),
                    glyphs@ == format2_glyphs(data@, k as nat),
                decreases count - k,
            {
                let start = read_u16(data, 4 + 6 * k).unwrap();
                let end = read_u16(data, 6 + 6 * k).unwrap();
                assert(end != 65535);
                let ghost before = glyphs@;
                if start <= end {
                    let mut gid: u32 = start as u32;
                    while gid <= end as u32
                        invariant
                            start <= gid <= end + 1,
                            end < 65535,
                            glyphs@ == before + glyph_range(start, end).subrange(0, gid - start),
                        decreases end + 1 - gid,
                    {
                        glyphs.push(gid as u16);
                        assert(glyph_range(start, end).subrange(0, gid + 1 - start) == glyph_range(
                            start,
                            end,
                        ).subrange(0, gid - start).push(gid as u16));
                        gid = gid + 1;
                    }
                    assert(glyph_range(start, end).subrange(0, end + 1 - start) == glyph_range(
                        start,
                        end,
                    ));
                } else {
                    assert(glyph_range(start, end) == Seq::<u16>::empty());
                    assert(glyphs@ == before + glyph_range(start, end));
                }
                k = k + 1;
            }
            Ok(Coverage { glyphs })
        }
    }

    /// Writes this coverage table in the smaller of its two formats.
    pub fn to_bytes(&self) -> (r: Vec<u8>)
        requires
            self.glyphs@.len() <= 65535,
            no_inner_max_glyph(self.glyphs@),
        ensures
            r@ == coverage_encoding(self.glyphs@),
    {
        let as_consecutive = consecutive_slices(self.glyphs.as_slice());
        let mut out: Vec<u8> = Vec::new();
        if self.glyphs.len() == 0 || !is_sorted(self.glyphs.as_slice()) || as_consecutive.len()
            >= (self.glyphs.len() + 2) / 3 {
            push_u16(&mut out, 1);
            push_u16(&mut out, self.glyphs.len() as u16);
            push_u16_slice(&mut out, self.glyphs.as_slice());
        } else {
            push_u16(&mut out, 2);
            push_u16(&mut out, as_consecutive.len() as u16);
            let ghost head = out@;
            let ghost b = run_bounds(self.glyphs@);
            proof {
                lemma_run_bounds_shape(self.glyphs@);
            }
            let mut j: usize = 0;
            while j < as_consecutive.len()
                invariant
                    j <= as_consecutive@.len(),
                    b == run_bounds(self.glyphs@),
                    as_consecutive@.len() == b.len(),
                    b.len() <= self.glyphs@.len() <= 65535,
                    forall|k: int|
                        0 <= k < b.len() ==> (#[trigger] as_consecutive@[k]).0 == b[k].0
                            && as_consecutive@[k].1 == b[k].1,
                    forall|k: int| 0 <= k < b.len() ==> #[trigger] b[k].0 < b[k].1 <= self.glyphs@.len(),
                    out@ == head + range_records_bytes(self.glyphs@, b.subrange(0, j as int)),
                decreases as_consecutive.len() - j,
            {
                let (s, e) = as_consecutive[j];
                assert(b[j as int].0 < b[j as int].1);
                push_u16(&mut out, self.glyphs[s]);
                push_u16(&mut out, self.glyphs[e - 1]);
                push_u16(&mut out, s as u16);
                proof {
                    let bb = b.subrange(0, j + 1);
                    assert(bb.drop_last() == b.subrange(0, j as int));
                    assert(bb.last() == b[j as int]);
                }
                j = j + 1;
            }
            assert(b.subrange(0, b.len() as int) == b);
        }
        out
    }
}


/// The glyphs spelled out by the range records of the runs in `b`.
pub open spec fn expand_runs(g: Seq<u16>, b: Seq<(nat, nat)>) -> Seq<u16>
    decreases b.len(),
{
    if b.len() == 0 {
        Seq::empty()
    } else {
        expand_runs(g, b.drop_last()) + glyph_range(g[b.last().0 as int], g[b.last().1 - 1])
    }
}

proof fn lemma_expand_runs_prefix(g: Seq<u16>, b: Seq<(nat, nat)>)
    requires
        g.len() > 0,
        forall|k: int| 0 <= k < b.len() ==> #[trigger] b[k].1 <= g.len() - 1 && b[k].0 < b[k].1,
    ensures
        expand_runs(g, b) == expand_runs(g.drop_last(), b),
        range_records_bytes(g, b) == range_records_bytes(g.drop_last(), b),
    decreases b.len(),
{
    if b.len() > 0 {
        lemma_expand_runs_prefix(g, b.drop_last());
    }
}

proof fn lemma_expand_run_bounds(g: Seq<u16>)
    requires
        forall|i: int| 0 <= i < g.len() ==> g[i] != 65535,
    ensures
        expand_runs(g, run_bounds(g)) == g,
    decreases g.len(),
{
    lemma_run_bounds_shape(g);
    if g.len() == 1 {
        assert(glyph_range(g[0], g[0]) == seq![g[0]]);
        let b = run_bounds(g);
        assert(b == seq![(0nat, 1nat)]);
        assert(b.drop_last() == Seq::<(nat, nat)>::empty());
        assert(expand_runs(g, b.drop_last()) == Seq::<u16>::empty());
        assert(seq![g[0]] == g);
    } else if g.len() > 1 {
        let gp = g.drop_last();
        let p = run_bounds(gp);
        let n = g.len();
        lemma_run_bounds_shape(gp);
        lemma_expand_run_bounds(gp);
        let pl = p.drop_last();
        assert forall|k: int| 0 <= k < pl.len() implies #[trigger] pl[k].1 <= g.len() - 1 && pl[k].0
            < pl[k].1 by {
            assert(pl[k] == p[k]);
        }
        lemma_expand_runs_prefix(g, pl);
        if g[n - 2] + 1 == g[n - 1] {
            let b = p.update(p.len() - 1, (p.last().0, n));
            assert(b.drop_last() == pl);
            let x = g[p.last().0 as int];
            lemma_run_values(gp, p.len() - 1, n - 2);
            assert(gp[n - 2] == x + (n - 2 - p.last().0));
            assert(glyph_range(x, g[n - 1]) == glyph_range(x, gp[n - 2]).push(g[n - 1]));
            assert(expand_runs(gp, p) == expand_runs(gp, pl) + glyph_range(gp[p.last().0 as int], gp[n - 2]));
            assert(g == gp.push(g[n - 1]));
        } else {
            let b = p.push(((n - 1) as nat, n));
            assert(b.drop_last() == p);
            assert forall|k: int| 0 <= k < p.len() implies #[trigger] p[k].1 <= g.len() - 1 && p[k].0
                < p[k].1 by {}
            lemma_expand_runs_prefix(g, p);
            assert(glyph_range(g[n - 1], g[n - 1]) == seq![g[n - 1]]);
            assert(g == gp.push(g[n - 1]));
        }
    }
}

proof fn lemma_range_records_read(g: Seq<u16>, b: Seq<(nat, nat)>, k: int)
    requires
        0 <= k < b.len(),
        forall|j: int| 0 <= j < b.len() ==> #[trigger] b[j].0 < b[j].1 <= g.len(),
    ensures
        range_records_bytes(g, b).len() == 6 * b.len(),
        u16_at(range_records_bytes(g, b), 6 * k) == g[b[k].0 as int],
        u16_at(range_records_bytes(g, b), 6 * k + 2) == g[b[k].1 - 1],
    decreases b.len(),
{
    lemma_range_records_len(g, b);
    let r = range_records_bytes(g, b);
    let bl = b.drop_last();
    lemma_range_records_len(g, bl);
    let p = range_records_bytes(g, bl);
    let last = b.last();
    let tail = be16(g[last.0 as int]) + be16(g[last.1 - 1]) + be16(last.0 as u16);
    assert(r == p + tail);
    if k == b.len() - 1 {
        assert(tail.subrange(0, 2) == be16(g[last.0 as int]));
        assert(tail.subrange(2, 4) == be16(g[last.1 - 1]));
        crate::binary::lemma_be16_read(tail, 0, g[last.0 as int]);
        crate::binary::lemma_be16_read(tail, 2, g[last.1 - 1]);
        lemma_u16_at_shift(p, tail, 0);
        lemma_u16_at_shift(p, tail, 2);
    } else {
        assert forall|j: int| 0 <= j < bl.len() implies #[trigger] bl[j].0 < bl[j].1 <= g.len() by {
            assert(bl[j] == b[j]);
        }
        lemma_range_records_read(g, bl, k);
        lemma_u16_at_shift(tail, p, 6 * k);
        lemma_u16_at_shift(tail, p, 6 * k + 2);
    }
}

proof fn lemma_range_records_len(g: Seq<u16>, b: Seq<(nat, nat)>)
    ensures
        range_records_bytes(g, b).len() == 6 * b.len(),
    decreases b.len(),
{
    if b.len() > 0 {
        lemma_range_records_len(g, b.drop_last());
    }
}

proof fn lemma_coverage_roundtrip_format1(g: Seq<u16>)
    requires
        g.len() <= 65535,
        uses_format1(g),
    ensures
        coverage_decoding(coverage_encoding(g)) == Some(g),
        u16_at(coverage_encoding(g), 0) == 1,
{
    let s = coverage_encoding(g);
    let e = Seq::<u8>::empty();
    let body = be16_seq(g);
    lemma_be16_seq_len(g);
    assert(s == be16(1) + be16(g.len() as u16) + body);
    crate::binary::lemma_read_be16(e, 1, be16(g.len() as u16) + body);
    assert(e + be16(1) + (be16(g.len() as u16) + body) == s);
    crate::binary::lemma_read_be16(be16(1), g.len() as u16, body);
    assert forall|k: int| 0 <= k < g.len() implies u16_at(s, 4 + 2 * k) == g[k] by {
        crate::binary::lemma_read_be16_seq(be16(1) + be16(g.len() as u16), g, e, k);
        assert(be16(1) + be16(g.len() as u16) + body + e == s);
    }
    assert(Seq::new(g.len() as nat, |k: int| u16_at(s, 4 + 2 * k)) == g);
}

proof fn lemma_coverage_roundtrip_format2(g: Seq<u16>)
    requires
        g.len() <= 65535,
        !uses_format1(g),
        forall|i: int| 0 <= i < g.len() ==> g[i] != 65535,
    ensures
        !coverage_range_overflows(coverage_encoding(g)),
        coverage_decoding(coverage_encoding(g)) == Some(g),
{
    let s = coverage_encoding(g);
    let e = Seq::<u8>::empty();
    let b = run_bounds(g);
    lemma_run_bounds_shape(g);
    let c = be16(b.len() as u16);
    let body = range_records_bytes(g, b);
    lemma_range_records_len(g, b);
    assert(s == be16(2) + c + body);
    crate::binary::lemma_read_be16(e, 2, c + body);
    assert(e + be16(2) + (c + body) == s);
    crate::binary::lemma_read_be16(be16(2), b.len() as u16, body);
    assert(u16_at(s, 0) == 2);
    assert(u16_at(s, 2) == b.len());
    assert forall|k: int| 0 <= k < b.len() implies u16_at(s, 4 + 6 * k) == g[b[k].0 as int]
        && u16_at(s, 6 + 6 * k) == g[b[k].1 - 1] by {
        lemma_range_records_read(g, b, k);
        crate::binary::lemma_u16_at_embed(be16(2) + c, body, e, 6 * k);
        crate::binary::lemma_u16_at_embed(be16(2) + c, body, e, 6 * k + 2);
        assert(be16(2) + c + body + e == s);
    }
    lemma_format2_prefix(s, g, b, b.len());
    assert(b.subrange(0, b.len() as int) == b);
    lemma_expand_run_bounds(g);
    assert forall|k: int| 0 <= k < u16_at(s, 2) implies #[trigger] u16_at(s, 6 + 6 * k) != 65535 by {
        assert(u16_at(s, 6 + 6 * k) == g[b[k].1 - 1]);
    }
}

/// Reading back a written coverage table gives the same glyphs, for every list
/// of at most 65535 glyphs that is written in format 1 or holds no glyph 65535
/// (a range record that ends at 65535 cannot be read).
pub proof fn lemma_coverage_roundtrip(g: Seq<u16>)
    requires
        g.len() <= 65535,
        uses_format1(g) || forall|i: int| 0 <= i < g.len() ==> g[i] != 65535,
    ensures
        !coverage_range_overflows(coverage_encoding(g)),
        coverage_decoding(coverage_encoding(g)) == Some(g),
{
    if uses_format1(g) {
        lemma_coverage_roundtrip_format1(g);
    } else {
        lemma_coverage_roundtrip_format2(g);
    }
}

proof fn lemma_format2_prefix(s: Seq<u8>, g: Seq<u16>, b: Seq<(nat, nat)>, j: nat)
    requires
        j <= b.len(),
        forall|k: int|
            0 <= k < b.len() ==> u16_at(s, 4 + 6 * k) == g[b[k].0 as int] && u16_at(s, 6 + 6 * k)
                == g[b[k].1 - 1],
    ensures
        format2_glyphs(s, j) == expand_runs(g, b.subrange(0, j as int)),
    decreases j,
{
    if j > 0 {
        lemma_format2_prefix(s, g, b, (j - 1) as nat);
        assert(b.subrange(0, j as int).drop_last() == b.subrange(0, j - 1));
    }
}

/// A coverage table reads the same with anything after it.
pub proof fn lemma_coverage_decoding_prefix(c: Seq<u8>, t: Seq<u8>)
    requires
        coverage_decoding(c) is Some,
    ensures
        coverage_decoding(c + t) == coverage_decoding(c),
        coverage_range_overflows(c + t) == coverage_range_overflows(c),
{
    let s = c + t;
    lemma_u16_at_shift(t, c, 0);
    lemma_u16_at_shift(t, c, 2);
    let count = u16_at(c, 2);
    if u16_at(c, 0) == 1 {
        assert forall|k: int| 0 <= k < count implies #[trigger] u16_at(s, 4 + 2 * k) == u16_at(c, 4 + 2 * k) by {
            lemma_u16_at_shift(t, c, 4 + 2 * k);
        }
        assert(Seq::new(count as nat, |k: int| u16_at(s, 4 + 2 * k)) == Seq::new(
            count as nat,
            |k: int| u16_at(c, 4 + 2 * k),
        ));
    } else {
        assert forall|k: int| 0 <= k < count implies #[trigger] u16_at(s, 4 + 6 * k) == u16_at(c, 4 + 6 * k)
            && u16_at(s, 6 + 6 * k) == u16_at(c, 6 + 6 * k) by {
            lemma_u16_at_shift(t, c, 4 + 6 * k);
            lemma_u16_at_shift(t, c, 6 + 6 * k);
        }
        lemma_format2_glyphs_prefix(c, s, count as nat);
        if coverage_range_overflows(c) {
            let k = choose|k: int| 0 <= k < u16_at(c, 2) && #[trigger] u16_at(c, 6 + 6 * k) == 65535;
            assert(u16_at(s, 6 + 6 * k) == 65535);
        }
        if coverage_range_overflows(s) {
            let k = choose|k: int| 0 <= k < u16_at(s, 2) && #[trigger] u16_at(s, 6 + 6 * k) == 65535;
            assert(u16_at(c, 6 + 6 * k) == 65535);
        }
    }
}

proof fn lemma_format2_glyphs_prefix(c: Seq<u8>, s: Seq<u8>, n: nat)
    requires
        forall|k: int| 0 <= k < n ==> #[trigger] u16_at(s, 4 + 6 * k) == u16_at(c, 4 + 6 * k) && u16_at(s, 6 + 6 * k) == u16_at(c, 6 + 6 * k),
    ensures
        format2_glyphs(s, n) == format2_glyphs(c, n),
    decreases n,
{
    if n > 0 {
        lemma_format2_glyphs_prefix(c, s, (n - 1) as nat);
        let k = (n - 1) as int;
        assert(u16_at(s, 4 + 6 * k) == u16_at(c, 4 + 6 * k));
    }
}

} // verus!
