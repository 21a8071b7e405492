//! Packed point numbers and packed deltas, as stored in tuple variation stores.
use crate::binary::{
    be16, bei16, push_i16, i8_of_byte, i16_at, push_u16, read_i16, read_u16, read_u8, u16_at, DeserializationError,
};
use vstd::prelude::*;

verus! {

/// An array of packed points
///
/// If the option is None, then this represents all points within the glyph.
/// (Including phantom points.) This must be decoded with reference to the
/// glyph's contour and component information. If the option is Some, a vector
/// of the point numbers for which delta information is provided.
#[derive(Debug, PartialEq)]
pub struct PackedPoints {
    /// the array of points
    pub points: Option<Vec<u16>>,
}

/// A run of packed deltas, one per point.
#[derive(Debug, PartialEq)]
pub struct PackedDeltas {
    pub deltas: Option<Vec<i16>>,
}

/// The point count at `pos` and the position after it. A first byte above 127
/// starts a two-byte count made of both bytes.
pub open spec fn packed_point_count(s: Seq<u8>, pos: int) -> Option<(int, int)> {
    if pos < 0 || pos >= s.len() {
        None
    } else if s[pos] > 127 {
        if pos + 1 < s.len() {
            Some((s[pos] * 256 + s[pos + 1], pos + 2))
        } else {
            None
        }
    } else {
        Some((s[pos] as int, pos + 1))
    }
}

/// The values of one run of point-number deltas whose control byte is at `pos`.
pub open spec fn point_run_values(s: Seq<u8>, pos: int) -> Seq<u16> {
    let n = (s[pos] % 128) + 1;
    if s[pos] >= 128 {
        Seq::new(n as nat, |k: int| u16_at(s, pos + 1 + 2 * k))
    } else {
        Seq::new(n as nat, |k: int| s[pos + 1 + k] as u16)
    }
}

/// The length in bytes of the run whose control byte is at `pos`.
pub open spec fn point_run_len(s: Seq<u8>, pos: int) -> int {
    let n = (s[pos] % 128) + 1;
    if s[pos] >= 128 { 1 + 2 * n } else { 1 + n }
}

/// Reads runs from `pos` onwards, appending to `acc`, until at least `count`
/// values are held; the values and the position after the last run read.
pub open spec fn point_runs(s: Seq<u8>, pos: int, count: int, acc: Seq<u16>) -> Option<(Seq<u16>, int)>
    decreases s.len() - pos,
{
    if acc.len() >= count {
        Some((acc, pos))
    } else if pos < 0 || pos >= s.len() {
        None
    } else if pos + point_run_len(s, pos) > s.len() {
        None
    } else {
        point_runs(s, pos + point_run_len(s, pos), count, acc + point_run_values(s, pos))
    }
}

/// The sum of a sequence of `uint16`s.
pub open spec fn sum_u16(d: Seq<u16>) -> int
    decreases d.len(),
{
    if d.len() == 0 { 0 } else { sum_u16(d.drop_last()) + d.last() }
}

/// The running totals of `d`.
pub open spec fn running_totals(d: Seq<u16>) -> Seq<u16> {
    Seq::new(d.len(), |i: int| sum_u16(d.take(i + 1)) as u16)
}

/// The point-number deltas read from `pos`, if any were read.
pub open spec fn packed_point_deltas(s: Seq<u8>, pos: int) -> Option<(Seq<u16>, int)> {
    match packed_point_count(s, pos) {
        None => None,
        Some((c, p)) => if c == 0 {
            None
        } else {
            point_runs(s, p, c, Seq::empty())
        },
    }
}

/// The packed points at `pos` and the position after them; `Some(None)`
/// stands for "all points".
pub open spec fn packed_points_decoding(s: Seq<u8>, pos: int) -> Option<(Option<Seq<u16>>, int)> {
    match packed_point_count(s, pos) {
        None => None,
        Some((c, p)) => if c == 0 {
            Some((None, p))
        } else {
            match point_runs(s, p, c, Seq::empty()) {
                None => None,
                Some((d, q)) => Some((Some(running_totals(d)), q)),
            }
        },
    }
}

/// The running total of the deltas at `pos` would exceed 65535.
pub open spec fn packed_points_overflow(s: Seq<u8>, pos: int) -> bool {
    match packed_point_deltas(s, pos) {
        Some((d, _)) => sum_u16(d) > 65535,
        None => false,
    }
}

proof fn lemma_sum_take_mono(d: Seq<u16>, i: int)
    requires
        0 <= i <= d.len(),
    ensures
        sum_u16(d.take(i)) <= sum_u16(d),
        sum_u16(d.take(i)) >= 0,
    decreases d.len() - i,
{
    if i < d.len() {
        lemma_sum_take_mono(d, i + 1);
        assert(d.take(i + 1).drop_last() == d.take(i));
    } else {
        assert(d.take(i) == d);
    }
    lemma_sum_nonneg(d.take(i));
}

proof fn lemma_sum_nonneg(d: Seq<u16>)
    ensures
        sum_u16(d) >= 0,
    decreases d.len(),
{
    if d.len() > 0 {
        lemma_sum_nonneg(d.drop_last());
    }
}

/// The point number before point `j`, counting from an implicit zero.
pub open spec fn prev_point(p: Seq<u16>, j: int) -> int {
    if j == 0 { 0 } else { p[j - 1] as int }
}

/// Where a run of byte-sized deltas that has taken `taken` points and reached
/// point `i` ends: at most 126 points, each at most 255 after the one before.
pub open spec fn byte_run_end(p: Seq<u16>, i: int, taken: int) -> int
    decreases p.len() - i,
{
    if i < 0 || i >= p.len() || taken >= 126 || p[i] - prev_point(p, i) > 255 {
        i
    } else {
        byte_run_end(p, i + 1, taken + 1)
    }
}

/// Whether the run starting at point `i` stores its deltas as bytes.
pub open spec fn run_uses_bytes(p: Seq<u16>, i: int) -> bool {
    p[i] - prev_point(p, i) <= 255
}

/// Where the run starting at point `i` ends.
pub open spec fn run_end(p: Seq<u16>, i: int) -> int {
    if run_uses_bytes(p, i) {
        byte_run_end(p, i, 0)
    } else if p.len() < i + 63 {
        p.len() as int
    } else {
        i + 63
    }
}

/// The deltas of points `i..e` as 16-bit words.
pub open spec fn word_deltas(p: Seq<u16>, i: int, e: int) -> Seq<u8>
    decreases e - i,
{
    if e <= i {
        Seq::empty()
    } else {
        word_deltas(p, i, e - 1) + be16((p[e - 1] - prev_point(p, e - 1)) as u16)
    }
}

/// The bytes of the run of points `i..e`: a control byte, then the deltas.
/// The control byte of a byte run holds the number of points less one; that
/// of a word run holds its number of delta bytes less one, with the high bit set.
pub open spec fn run_bytes(p: Seq<u16>, i: int, e: int) -> Seq<u8> {
    if run_uses_bytes(p, i) {
        seq![(e - i - 1) as u8] + Seq::new((e - i) as nat, |t: int| (p[i + t] - prev_point(p, i + t)) as u8)
    } else {
        seq![(2 * (e - i) - 1 + 128) as u8] + word_deltas(p, i, e)
    }
}

/// The runs of points from `i` onwards.
pub open spec fn point_runs_encoding(p: Seq<u16>, i: int) -> Seq<u8>
    decreases p.len() - i,
{
    if i < 0 || i >= p.len() || run_end(p, i) <= i || run_end(p, i) > p.len() {
        Seq::empty()
    } else {
        run_bytes(p, i, run_end(p, i)) + point_runs_encoding(p, run_end(p, i))
    }
}

/// The bytes that represent `points`: a zero byte for "all points", otherwise the
/// count (one byte up to 128, else two bytes with the high bit set) and the runs.
pub open spec fn packed_points_encoding(points: Option<Seq<u16>>) -> Seq<u8> {
    match points {
        None => seq![0u8],
        Some(p) => {
            let n = p.len() as u16;
            (if n <= 0x80 { seq![n as u8] } else { be16(n | 0x8000) }) + point_runs_encoding(p, 0)
        },
    }
}

/// Non-decreasing point numbers.
pub open spec fn points_sorted(p: Seq<u16>) -> bool {
    forall|i: int, j: int| 0 <= i <= j < p.len() ==> p[i] <= p[j]
}

proof fn lemma_byte_run_end_bounds(p: Seq<u16>, i: int, taken: int)
    requires
        0 <= i <= p.len(),
        0 <= taken <= 126,
    ensures
        i <= byte_run_end(p, i, taken) <= p.len(),
        byte_run_end(p, i, taken) - i <= 126 - taken,
        forall|t: int| i <= t < byte_run_end(p, i, taken) ==> #[trigger] p[t] - prev_point(p, t) <= 255,
        i < p.len() && taken < 126 && p[i] - prev_point(p, i) <= 255 ==> byte_run_end(p, i, taken) > i,
    decreases p.len() - i,
{
    if !(i >= p.len() || taken >= 126 || p[i] - prev_point(p, i) > 255) {
        lemma_byte_run_end_bounds(p, i + 1, taken + 1);
    }
}

impl PackedPoints {
    /// Reads packed point numbers starting at `pos`; returns them and the position after them.
    pub fn from_bytes(data: &[u8], pos: usize) -> (r: Result<(PackedPoints, usize), DeserializationError>)
        requires
            !packed_points_overflow(data@, pos as int),
        ensures
            match r {
                Ok((pp, next)) => packed_points_decoding(data@, pos as int) == Some(
                    (
                        match pp.points {
                            Some(v) => Some(v@),
                            None => None,
                        },
                        next as int,
                    ),
                ),
                Err(_) => packed_points_decoding(data@, pos as int) is None,
            },
    {
        if pos >= data.len() {
            return Err(DeserializationError::UnexpectedEof);
        }
        let b0 = data[pos];
        let mut p: usize = pos + 1;
        let mut count: u16 = b0 as u16;
        if count > 127 {
            let b1 = match read_u8(data, p) {
                Some(b) => b,
                None => return Err(DeserializationError::UnexpectedEof),
            };
            // the high byte keeps all eight of its bits
            count = (b0 as u16) * 256 + b1 as u16;
            p = p + 1;
        }
        assert(packed_point_count(data@, pos as int) == Some((count as int, p as int)));
        let ghost p0 = p as int;
        if count == 0 {
            return Ok((PackedPoints { points: None }, p));
        }
        let mut res: Vec<u16> = Vec::new();
        while res.len() < count as usize
            invariant
                p <= data.len() + 1,
                p > pos,
                count > 0,
                packed_point_count(data@, pos as int) == Some((count as int, p0)),
                point_runs(data@, p as int, count as int, res@) == point_runs(
                    data@,
                    p0,
                    count as int,
                    Seq::empty(),
                ),
                res@.len() <= count + 127 * 2,
            decreases data.len() + 1 - p,
        {
            let control = match read_u8(data, p) {
                Some(b) => b,
                None => return Err(DeserializationError::UnexpectedEof),
            };
            let run_count: usize = (control & 0x7f) as usize + 1;
            assert(control & 0x7f == control % 128) by (bit_vector);
            assert((control & 0x80 > 0) == (control >= 128)) by (bit_vector);
            let ghost vals = point_run_values(data@, p as int);
            if control & 0x80 > 0 {
                if data.len() - (p + 1) < 2 * run_count {
                    return Err(DeserializationError::UnexpectedEof);
                }
                let mut k: usize = 0;
                let ghost before = res@;
                while k < run_count
                    invariant
                        k <= run_count,
                        run_count == control % 128 + 1,
                        control >= 128,
                        p + 1 + 2 * run_count <= data.len(),
                        control == data@[p as int],
                        vals == point_run_values(data@, p as int),
                        res@ == before + vals.take(k as int),
                    decreases run_count - k,
                {
                    let v = read_u16(data, p + 1 + 2 * k).unwrap();
                    res.push(v);
                    assert(vals.take(k + 1) == vals.take(k as int).push(v));
                    k = k + 1;
                }
                assert(vals.take(run_count as int) == vals);
                p = p + 1 + 2 * run_count;
            } else {
                if data.len() - (p + 1) < run_count {
                    return Err(DeserializationError::UnexpectedEof);
                }
                let mut k: usize = 0;
                let ghost before = res@;
                while k < run_count
                    invariant
                        k <= run_count,
                        run_count == control % 128 + 1,
                        control < 128,
                        p + 1 + run_count <= data.len(),
                        control == data@[p as int],
                        vals == point_run_values(data@, p as int),
                        res@ == before + vals.take(k as int),
                    decreases run_count - k,
                {
                    let v = data[p + 1 + k] as u16;
                    res.push(v);
                    assert(vals.take(k + 1) == vals.take(k as int).push(v));
                    k = k + 1;
                }
                assert(vals.take(run_count as int) == vals);
                p = p + 1 + run_count;
            }
        }
        let ghost d = res@;
        proof {
            lemma_sum_take_mono(d, d.len() as int);
        }
        let mut totals: Vec<u16> = Vec::new();
        let mut acc: u16 = 0;
        let mut i: usize = 0;
        while i < res.len()
            invariant
                i <= res@.len(),
                d == res@,
                sum_u16(d) <= 65535,
                acc == sum_u16(d.take(i as int)),
                totals@.len() == i,
                forall|j: int| 0 <= j < i ==> #[trigger] totals@[j] == running_totals(d)[j],
            decreases res.len() - i,
        {
            proof {
                lemma_sum_take_mono(d, i + 1);
                assert(d.take(i + 1).drop_last() == d.take(i as int));
            }
            acc = acc + res[i];
            totals.push(acc);
            i = i + 1;
        }
        assert(totals@ == running_totals(d));
        Ok((PackedPoints { points: Some(totals) }, p))
    }
}


proof fn lemma_prev_point_le(p: Seq<u16>, i: int)
    requires
        points_sorted(p),
        0 <= i < p.len(),
    ensures
        prev_point(p, i) <= p[i],
{
    if i > 0 {
        assert(p[i - 1] <= p[i]);
    }
}

/// Builds the byte-sized run that starts at point `start`.
fn byte_run(points: &Vec<u16>, start: usize, last: u16) -> (r: (Vec<u8>, usize, u16))
    requires
        points_sorted(points@),
        start < points@.len(),
        last == prev_point(points@, start as int),
        run_uses_bytes(points@, start as int),
    ensures
        r.1 == run_end(points@, start as int),
        start < r.1 <= points@.len(),
        r.0@ == run_bytes(points@, start as int, r.1 as int),
        r.2 == prev_point(points@, r.1 as int),
{
    let ghost p = points@;
    let mut run: Vec<u8> = Vec::new();
    run.push(0);
    let mut pos = start;
    let mut last_value = last;
    proof {
        lemma_byte_run_end_bounds(p, start as int, 0);
    }
    while pos < points.len() && run.len() < 127
        invariant
            p == points@,
            points_sorted(p),
            start <= pos <= p.len(),
            start < p.len(),
            run_uses_bytes(p, start as int),
            last_value == prev_point(p, pos as int),
            run@.len() == 1 + pos - start,
            run@[0] == 0,
            pos - start <= 126,
            byte_run_end(p, start as int, 0) == byte_run_end(p, pos as int, pos - start),
            run@.subrange(1, run@.len() as int) == Seq::new(
                (pos - start) as nat,
                |t: int| (p[start + t] - prev_point(p, start + t)) as u8,
            ),
        ensures
            byte_run_end(p, start as int, 0) == pos,
            start <= pos <= p.len(),
            last_value == prev_point(p, pos as int),
            run@.len() == 1 + pos - start,
            run@[0] == 0,
            run@.subrange(1, run@.len() as int) == Seq::new(
                (pos - start) as nat,
                |t: int| (p[start + t] - prev_point(p, start + t)) as u8,
            ),
        decreases p.len() - pos,
    {
        let current = points[pos];
        proof {
            lemma_prev_point_le(p, pos as int);
        }
        let delta = current - last_value;
        if delta > 0xff {
            break;
        }
        let ghost old_run = run@;
        run.push(delta as u8);
        assert(run@.subrange(1, run@.len() as int) == old_run.subrange(1, old_run.len() as int).push(
            delta as u8,
        ));
        last_value = current;
        pos = pos + 1;
    }
    proof {
        lemma_byte_run_end_bounds(p, start as int, 0);
    }
    let ghost e = pos as int;
    run.set(0, (run.len() as u8) - 2);
    assert(run@ =~= seq![(e - start - 1) as u8] + run@.subrange(1, run@.len() as int));
    (run, pos, last_value)
}

/// Builds the word-sized run that starts at point `start`.
fn word_run(points: &Vec<u16>, start: usize, last: u16) -> (r: (Vec<u8>, usize, u16))
    requires
        points_sorted(points@),
        start < points@.len(),
        last == prev_point(points@, start as int),
        !run_uses_bytes(points@, start as int),
    ensures
        r.1 == run_end(points@, start as int),
        start < r.1 <= points@.len(),
        r.0@ == run_bytes(points@, start as int, r.1 as int),
        r.2 == prev_point(points@, r.1 as int),
{
    let ghost p = points@;
    let mut run: Vec<u8> = Vec::new();
    run.push(0);
    let mut pos = start;
    let mut last_value = last;
    let ghost e: int = if p.len() < start + 63 { p.len() as int } else { start + 63 };
    while pos < points.len() && run.len() < 127
        invariant
            p == points@,
            points_sorted(p),
            start <= pos <= p.len(),
            start < p.len(),
            last_value == prev_point(p, pos as int),
            run@.len() == 1 + 2 * (pos - start),
            run@[0] == 0,
            pos <= e,
            e == if p.len() < start + 63 { p.len() as int } else { start + 63 },
            run@.subrange(1, run@.len() as int) == word_deltas(p, start as int, pos as int),
        decreases p.len() - pos,
    {
        let current = points[pos];
        proof {
            lemma_prev_point_le(p, pos as int);
        }
        let delta = current - last_value;
        let ghost old_run = run@;
        run.push((delta / 256) as u8);
        run.push((delta % 256) as u8);
        assert(run@.subrange(1, run@.len() as int) == old_run.subrange(1, old_run.len() as int) + be16(
            delta,
        ));
        last_value = current;
        pos = pos + 1;
    }
    let x: u8 = run.len() as u8 - 2;
    let ctl = x | 0x80;
    assert(ctl == x + 128) by (bit_vector)
        requires
            x < 128,
            ctl == x | 0x80,
    ;
    run.set(0, ctl);
    assert(run@ =~= seq![ctl] + run@.subrange(1, run@.len() as int));
    (run, pos, last_value)
}

impl PackedPoints {
    /// Writes these point numbers in packed form.
    pub fn to_bytes(&self) -> (r: Vec<u8>)
        requires
            match self.points {
                Some(v) => v@.len() <= 65535 && points_sorted(v@),
                None => true,
            },
        ensures
            r@ == packed_points_encoding(
                match self.points {
                    Some(v) => Some(v@),
                    None => None,
                },
            ),
    {
        let mut out: Vec<u8> = Vec::new();
        let points = match &self.points {
            None => {
                out.push(0);
                return out;
            },
            Some(p) => p,
        };
        let num_points = points.len() as u16;
        if num_points <= 0x80 {
            out.push(num_points as u8);
        } else {
            push_u16(&mut out, num_points | 0x8000);
        }
        let ghost p = points@;
        let ghost header = out@;
        let mut pos: usize = 0;
        let mut last_value: u16 = 0;
        while pos < points.len()
            invariant
                p == points@,
                p.len() <= 65535,
                points_sorted(p),
                pos <= p.len(),
                last_value == prev_point(p, pos as int),
                out@ + point_runs_encoding(p, pos as int) == header + point_runs_encoding(p, 0),
            decreases p.len() - pos,
        {
            let ghost start = pos as int;
            let current = points[pos];
            proof {
                lemma_prev_point_le(p, start);
            }
            let (run, end, last) = if current - last_value <= 0xff {
                byte_run(points, pos, last_value)
            } else {
                word_run(points, pos, last_value)
            };
            let ghost before = out@;
            crate::binary::push_bytes(&mut out, run.as_slice());
            assert(point_runs_encoding(p, start) == run@ + point_runs_encoding(p, end as int));
            assert(before + point_runs_encoding(p, start) == out@ + point_runs_encoding(p, end as int));
            pos = end;
            last_value = last;
        }
        assert(out@ + point_runs_encoding(p, pos as int) == out@);
        out
    }
}

/// The differences between the first `i` points and the points before them.
pub open spec fn point_deltas(p: Seq<u16>, i: int) -> Seq<u16> {
    Seq::new(i as nat, |t: int| (p[t] - prev_point(p, t)) as u16)
}

/// Consecutive point numbers differ by at most 255 (the first counting from zero).
pub open spec fn small_point_steps(p: Seq<u16>) -> bool {
    forall|t: int| 0 <= t < p.len() ==> p[t] - #[trigger] prev_point(p, t) <= 255
}

proof fn lemma_sum_point_deltas(p: Seq<u16>, j: int)
    requires
        points_sorted(p),
        0 <= j <= p.len(),
    ensures
        sum_u16(point_deltas(p, j)) == prev_point(p, j),
    decreases j,
{
    if j > 0 {
        lemma_sum_point_deltas(p, j - 1);
        assert(point_deltas(p, j).drop_last() == point_deltas(p, j - 1));
        lemma_prev_point_le(p, j - 1);
    }
}

proof fn lemma_byte_run_shape(p: Seq<u16>, i: int)
    requires
        points_sorted(p),
        small_point_steps(p),
        0 <= i < p.len(),
    ensures
        i < run_end(p, i) <= p.len(),
        run_end(p, i) - i <= 126,
        run_bytes(p, i, run_end(p, i)).len() == 1 + run_end(p, i) - i,
        run_bytes(p, i, run_end(p, i))[0] == (run_end(p, i) - i - 1) as u8,
        forall|k: int|
            0 <= k < run_end(p, i) - i ==> #[trigger] run_bytes(p, i, run_end(p, i))[1 + k] as u16
                == point_deltas(p, run_end(p, i))[i + k],
{
    lemma_byte_run_end_bounds(p, i, 0);
    let e = run_end(p, i);
    assert(run_uses_bytes(p, i));
    assert forall|k: int| 0 <= k < e - i implies #[trigger] run_bytes(p, i, e)[1 + k] as u16
        == point_deltas(p, e)[i + k] by {
        lemma_prev_point_le(p, i + k);
    }
}

proof fn lemma_decode_point_runs(p: Seq<u16>, a: Seq<u8>, i: int)
    requires
        points_sorted(p),
        small_point_steps(p),
        0 <= i <= p.len(),
        p.len() <= 127,
    ensures
        point_runs(a + point_runs_encoding(p, i), a.len() as int, p.len() as int, point_deltas(p, i))
            == Some((point_deltas(p, p.len() as int), (a + point_runs_encoding(p, i)).len() as int)),
    decreases p.len() - i,
{
    let s = a + point_runs_encoding(p, i);
    if i == p.len() {
        assert(point_runs_encoding(p, i) == Seq::<u8>::empty());
        assert(point_deltas(p, i) == point_deltas(p, p.len() as int));
    } else {
        lemma_byte_run_shape(p, i);
        let e = run_end(p, i);
        let rb = run_bytes(p, i, e);
        let rest = point_runs_encoding(p, e);
        assert(point_runs_encoding(p, i) == rb + rest);
        let pos = a.len() as int;
        assert(s == (a + rb) + rest);
        assert(s[pos] == rb[0]);
        let vals = point_run_values(s, pos);
        assert(vals == point_deltas(p, e).subrange(i, e)) by {
            assert forall|k: int| 0 <= k < e - i implies #[trigger] vals[k] == point_deltas(p, e).subrange(i, e)[k] by {
                assert(s[pos + 1 + k] == rb[1 + k]);
            }
        }
        assert(point_deltas(p, i) + vals == point_deltas(p, e));
        lemma_decode_point_runs(p, a + rb, e);
        assert((a + rb).len() == pos + point_run_len(s, pos));
        assert(point_runs(s, pos, p.len() as int, point_deltas(p, i)) == point_runs(
            s,
            pos + point_run_len(s, pos),
            p.len() as int,
            point_deltas(p, i) + vals,
        ));
    }
}

/// Reading back written point numbers gives them again, for sorted lists of 1 to
/// 127 points each at most 255 after the one before (the first counting from zero);
/// "all points" reads back as itself.
pub proof fn lemma_packed_points_roundtrip(points: Option<Seq<u16>>)
    requires
        match points {
            Some(p) => 1 <= p.len() <= 127 && points_sorted(p) && small_point_steps(p),
            None => true,
        },
    ensures
        packed_points_decoding(packed_points_encoding(points), 0) == Some(
            (points, packed_points_encoding(points).len() as int),
        ),
        !packed_points_overflow(packed_points_encoding(points), 0),
{
    match points {
        None => {},
        Some(p) => {
            let s = packed_points_encoding(points);
            let n = p.len();
            let h = seq![n as u8];
            assert(s == h + point_runs_encoding(p, 0));
            assert(packed_point_count(s, 0) == Some((n as int, 1int)));
            lemma_decode_point_runs(p, h, 0);
            assert(point_deltas(p, 0) == Seq::<u16>::empty());
            assert forall|j: int| 0 <= j < n implies running_totals(point_deltas(p, n as int))[j] == p[j] by {
                let d = point_deltas(p, n as int);
                assert(d.take(j + 1) == point_deltas(p, j + 1));
                lemma_sum_point_deltas(p, j + 1);
            }
            assert(running_totals(point_deltas(p, n as int)) == p);
            lemma_sum_point_deltas(p, n as int);
        },
    }
}

/// The values of one run of packed deltas whose control byte is at `pos`.
pub open spec fn delta_run_values(s: Seq<u8>, pos: int) -> Seq<i16> {
    let n = (s[pos] % 64) + 1;
    if s[pos] >= 128 {
        Seq::new(n as nat, |k: int| 0i16)
    } else if s[pos] % 128 >= 64 {
        Seq::new(n as nat, |k: int| i16_at(s, pos + 1 + 2 * k))
    } else {
        Seq::new(n as nat, |k: int| i8_of_byte(s[pos + 1 + k]))
    }
}

/// The length in bytes of the delta run whose control byte is at `pos`.
pub open spec fn delta_run_len(s: Seq<u8>, pos: int) -> int {
    let n = (s[pos] % 64) + 1;
    if s[pos] >= 128 {
        1
    } else if s[pos] % 128 >= 64 {
        1 + 2 * n
    } else {
        1 + n
    }
}

/// Reads delta runs from `pos` onwards, appending to `acc`, until at least
/// `count` deltas are held.
pub open spec fn delta_runs(s: Seq<u8>, pos: int, count: int, acc: Seq<i16>) -> Option<(Seq<i16>, int)>
    decreases s.len() - pos,
{
    if acc.len() >= count {
        Some((acc, pos))
    } else if pos < 0 || pos >= s.len() {
        None
    } else if pos + delta_run_len(s, pos) > s.len() {
        None
    } else {
        delta_runs(s, pos + delta_run_len(s, pos), count, acc + delta_run_values(s, pos))
    }
}

/// Reads packed deltas for `num_points` points starting at `pos`; returns them and the
/// position after them.
pub fn packed_deltas_from_bytes(data: &[u8], pos: usize, num_points: u16) -> (r: Result<
    (PackedDeltas, usize),
    DeserializationError,
>)
    ensures
        match r {
            Ok((pd, next)) => pd.deltas is Some && delta_runs(data@, pos as int, num_points as int, Seq::empty())
                == Some((pd.deltas->0@, next as int)),
            Err(_) => delta_runs(data@, pos as int, num_points as int, Seq::empty()) is None,
        },
{
    let mut res: Vec<i16> = Vec::new();
    let mut p: usize = pos;
    while res.len() < num_points as usize
        invariant
            delta_runs(data@, p as int, num_points as int, res@) == delta_runs(
                data@,
                pos as int,
                num_points as int,
                Seq::empty(),
            ),
            res@.len() <= num_points + 64,
        decreases data.len() + 1 - p,
    {
        let control = match read_u8(data, p) {
            Some(b) => b,
            None => return Err(DeserializationError::UnexpectedEof),
        };
        let run_count: usize = (control & 0x3f) as usize + 1;
        assert(control & 0x3f == control % 64) by (bit_vector);
        assert((control & 0x80 > 0) == (control >= 128)) by (bit_vector);
        assert((control & 0x40 > 0) == (control % 128 >= 64)) by (bit_vector);
        let ghost vals = delta_run_values(data@, p as int);
        let ghost before = res@;
        if control & 0x80 > 0 {
            let mut k: usize = 0;
            while k < run_count
                invariant
                    k <= run_count,
                    run_count == control % 64 + 1,
                    control >= 128,
                    control == data@[p as int],
                    vals == delta_run_values(data@, p as int),
                    res@ == before + vals.take(k as int),
                decreases run_count - k,
            {
                res.push(0);
                assert(vals.take(k + 1) == vals.take(k as int).push(0));
                k = k + 1;
            }
            assert(vals.take(run_count as int) == vals);
            p = p + 1;
        } else if control & 0x40 > 0 {
            if data.len() - (p + 1) < 2 * run_count {
                return Err(DeserializationError::UnexpectedEof);
            }
            let mut k: usize = 0;
            while k < run_count
                invariant
                    k <= run_count,
                    run_count == control % 64 + 1,
                    control < 128,
                    control % 128 >= 64,
                    p + 1 + 2 * run_count <= data.len(),
                    control == data@[p as int],
                    vals == delta_run_values(data@, p as int),
                    res@ == before + vals.take(k as int),
                decreases run_count - k,
            {
                let v = read_i16(data, p + 1 + 2 * k).unwrap();
                res.push(v);
                assert(vals.take(k + 1) == vals.take(k as int).push(v));
                k = k + 1;
            }
            assert(vals.take(run_count as int) == vals);
            p = p + 1 + 2 * run_count;
        } else {
            if data.len() - (p + 1) < run_count {
                return Err(DeserializationError::UnexpectedEof);
            }
            let mut k: usize = 0;
            while k < run_count
                invariant
                    k <= run_count,
                    run_count == control % 64 + 1,
                    control < 64,
                    p + 1 + run_count <= data.len(),
                    control == data@[p as int],
                    vals == delta_run_values(data@, p as int),
                    res@ == before + vals.take(k as int),
                decreases run_count - k,
            {
                let b = data[p + 1 + k];
                let v: i16 = if b >= 128 { b as i16 - 256 } else { b as i16 };
                res.push(v);
                assert(vals.take(k + 1) == vals.take(k as int).push(v));
                k = k + 1;
            }
            assert(vals.take(run_count as int) == vals);
            p = p + 1 + run_count;
        }
    }
    Ok((PackedDeltas { deltas: Some(res) }, p))
}

} // verus!
