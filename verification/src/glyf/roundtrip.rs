//! Reading back a written simple glyph gives the glyph.
use crate::binary::{
    be16, be16_seq, bei16, i16_at, i16_bits, i16_of_bits, lemma_be16_seq_index, lemma_be16_seq_len,
    lemma_i16_bits_roundtrip, u16_at,
};
use crate::glyf::glyph::{
    contours_view, coord_bytes, deltas_fit, end_points_of, flags_bytes, flat, glyph_encoding,
    glyph_writable, point_flag, prev_x, prev_y, simple_body, xs_bytes, ys_bytes, Glyph, GlyphData,
    Point,
    X_IS_SAME_OR_POSITIVE_X_SHORT_VECTOR, X_SHORT_VECTOR, Y_IS_SAME_OR_POSITIVE_Y_SHORT_VECTOR,
    Y_SHORT_VECTOR, OVERLAP_SIMPLE, ON_CURVE_POINT, REPEAT_FLAG,
};
use crate::glyf::reading::{
    any_flag, axis_at, end_points_at, ends_ordered, flags_at, glyph_at, instructions_at,
    points_of, simple_glyph_at, split_contours, then_prepend, Reading,
};
use vstd::prelude::*;

verus! {

proof fn lemma_flag_bits(a: u8, b: u8, c: u8, f: u8)
    by (bit_vector)
    requires
        a == 0 || a == 1,
        b == 0 || b == 2 || b == 16 || b == 18,
        c == 0 || c == 4 || c == 32 || c == 36,
        f == a + b + c,
    ensures
        (f & 1 != 0) == (a == 1),
        (f & 2 != 0) == (b == 2 || b == 18),
        (f & 16 != 0) == (b == 16 || b == 18),
        (f & 4 != 0) == (c == 4 || c == 36),
        (f & 32 != 0) == (c == 32 || c == 36),
        f & 8 == 0,
        f & 64 == 0,
{
}

/// What the flag of point `i` says of it.
proof fn lemma_point_flag(pts: Seq<Point>, i: int)
    requires
        0 <= i < pts.len(),
    ensures
        ({
            let f = point_flag(pts, i);
            let dx = pts[i].x - prev_x(pts, i);
            let dy = pts[i].y - prev_y(pts, i);
            &&& (f & ON_CURVE_POINT != 0) == pts[i].on_curve
            &&& (f & X_SHORT_VECTOR != 0) == (dx != 0 && -255 <= dx <= 255)
            &&& (f & X_IS_SAME_OR_POSITIVE_X_SHORT_VECTOR != 0) == (dx == 0 || 0 < dx <= 255)
            &&& (f & Y_SHORT_VECTOR != 0) == (dy != 0 && -255 <= dy <= 255)
            &&& (f & Y_IS_SAME_OR_POSITIVE_Y_SHORT_VECTOR != 0) == (dy == 0 || 0 < dy <= 255)
            &&& f & REPEAT_FLAG == 0
            &&& f & OVERLAP_SIMPLE == 0
        }),
{
    let dx = pts[i].x - prev_x(pts, i);
    let dy = pts[i].y - prev_y(pts, i);
    let a: u8 = if pts[i].on_curve { 1 } else { 0 };
    let b: u8 = if dx == 0 { 16 } else if -255 <= dx <= 255 { if dx > 0 { 18 } else { 2 } } else { 0 };
    let c: u8 = if dy == 0 { 32 } else if -255 <= dy <= 255 { if dy > 0 { 36 } else { 4 } } else { 0 };
    let f = point_flag(pts, i);
    assert(f == a + b + c);
    lemma_flag_bits(a, b, c, f);
}

proof fn lemma_flags_bytes(pts: Seq<Point>, n: int)
    requires
        0 <= n <= pts.len(),
    ensures
        flags_bytes(pts, n).len() == n,
        forall|i: int| 0 <= i < n ==> #[trigger] flags_bytes(pts, n)[i] == point_flag(pts, i),
    decreases n,
{
    if n > 0 {
        lemma_flags_bytes(pts, n - 1);
    }
}

proof fn lemma_flags_bytes_at(pts: Seq<Point>, n: int, k: int)
    requires
        0 <= k < n <= pts.len(),
    ensures
        flags_bytes(pts, n)[k] == point_flag(pts, k),
        flags_bytes(pts, n).len() == n,
{
    lemma_flags_bytes(pts, n);
}

proof fn lemma_xs_prefix(pts: Seq<Point>, k: int, n: int)
    requires
        0 <= k <= n <= pts.len(),
    ensures
        xs_bytes(pts, k).len() <= xs_bytes(pts, n).len(),
        xs_bytes(pts, n).subrange(0, xs_bytes(pts, k).len() as int) == xs_bytes(pts, k),
    decreases n - k,
{
    if k < n {
        lemma_xs_prefix(pts, k, n - 1);
        let a = xs_bytes(pts, n - 1);
        assert(xs_bytes(pts, n) == a + coord_bytes(pts[n - 1].x - prev_x(pts, n - 1)));
        assert(xs_bytes(pts, n).subrange(0, a.len() as int) == a);
        assert(xs_bytes(pts, n).subrange(0, xs_bytes(pts, k).len() as int) == a.subrange(
            0,
            xs_bytes(pts, k).len() as int,
        ));
    }
}

proof fn lemma_ys_prefix(pts: Seq<Point>, k: int, n: int)
    requires
        0 <= k <= n <= pts.len(),
    ensures
        ys_bytes(pts, k).len() <= ys_bytes(pts, n).len(),
        ys_bytes(pts, n).subrange(0, ys_bytes(pts, k).len() as int) == ys_bytes(pts, k),
    decreases n - k,
{
    if k < n {
        lemma_ys_prefix(pts, k, n - 1);
        let a = ys_bytes(pts, n - 1);
        assert(ys_bytes(pts, n) == a + coord_bytes(pts[n - 1].y - prev_y(pts, n - 1)));
        assert(ys_bytes(pts, n).subrange(0, a.len() as int) == a);
        assert(ys_bytes(pts, n).subrange(0, ys_bytes(pts, k).len() as int) == a.subrange(
            0,
            ys_bytes(pts, k).len() as int,
        ));
    }
}

/// The bytes of one coordinate difference `v`, found at `pos` in `d`, read back
/// as the value they were written from.
proof fn lemma_read_coord(d: Seq<u8>, pos: int, v: int)
    requires
        -32768 <= v <= 32767,
        0 <= pos,
        pos + coord_bytes(v).len() <= d.len(),
        forall|j: int| 0 <= j < coord_bytes(v).len() ==> d[pos + j] == #[trigger] coord_bytes(v)[j],
    ensures
        v != 0 && -255 <= v <= 255 ==> coord_bytes(v).len() == 1 && d[pos] as int == (if v > 0 { v } else { -v }),
        v == 0 ==> coord_bytes(v).len() == 0,
        !(-255 <= v <= 255) ==> coord_bytes(v).len() == 2 && i16_at(d, pos) as int == v,
{
    if !(-255 <= v <= 255) {
        let w = v as i16;
        let e = bei16(w);
        assert(d[pos] == e[0]);
        assert(d[pos + 1] == e[1]);
        assert(u16_at(d, pos) == i16_bits(w));
        lemma_i16_bits_roundtrip(w);
    } else if v != 0 {
        assert(d[pos] == coord_bytes(v)[0]);
    }
}

/// The bytes of the x difference of point `k` sit where the x stream put them.
proof fn lemma_x_window(d: Seq<u8>, p: int, pts: Seq<Point>, k: int)
    requires
        0 <= k < pts.len(),
        0 <= p,
        p + xs_bytes(pts, pts.len() as int).len() <= d.len(),
        forall|j: int|
            0 <= j < xs_bytes(pts, pts.len() as int).len() ==> d[p + j] == #[trigger] xs_bytes(
                pts,
                pts.len() as int,
            )[j],
    ensures
        ({
            let cb = coord_bytes(pts[k].x - prev_x(pts, k));
            let pos = p + xs_bytes(pts, k).len();
            &&& xs_bytes(pts, k + 1) == xs_bytes(pts, k) + cb
            &&& pos + cb.len() <= d.len()
            &&& forall|j: int| 0 <= j < cb.len() ==> d[pos + j] == #[trigger] cb[j]
        }),
{
    let n = pts.len() as int;
    let whole = xs_bytes(pts, n);
    lemma_xs_prefix(pts, k + 1, n);
    let a = xs_bytes(pts, k);
    let cb = coord_bytes(pts[k].x - prev_x(pts, k));
    assert(xs_bytes(pts, k + 1) == a + cb);
    assert forall|j: int| 0 <= j < cb.len() implies d[p + a.len() + j] == #[trigger] cb[j] by {
        assert(whole.subrange(0, (a + cb).len() as int)[a.len() + j] == (a + cb)[a.len() + j]);
        assert(d[p + (a.len() + j)] == whole[a.len() + j]);
    }
}

/// One step of reading the x coordinates: point `k` comes out, then the rest.
#[verifier::spinoff_prover]
proof fn lemma_read_xs_step(d: Seq<u8>, p: int, pts: Seq<Point>, k: int)
    requires
        0 <= k < pts.len(),
        0 <= p,
        -32768 <= pts[k].x - prev_x(pts, k) <= 32767,
        p + xs_bytes(pts, pts.len() as int).len() <= d.len(),
        forall|j: int|
            0 <= j < xs_bytes(pts, pts.len() as int).len() ==> d[p + j] == #[trigger] xs_bytes(
                pts,
                pts.len() as int,
            )[j],
    ensures
        axis_at(
            d,
            p + xs_bytes(pts, k).len(),
            flags_bytes(pts, pts.len() as int),
            k,
            prev_x(pts, k),
            X_SHORT_VECTOR,
            X_IS_SAME_OR_POSITIVE_X_SHORT_VECTOR,
        ) == then_prepend(
            pts[k].x,
            axis_at(
                d,
                p + xs_bytes(pts, k + 1).len(),
                flags_bytes(pts, pts.len() as int),
                k + 1,
                prev_x(pts, k + 1),
                X_SHORT_VECTOR,
                X_IS_SAME_OR_POSITIVE_X_SHORT_VECTOR,
            ),
        ),
{
    let n = pts.len() as int;
    let fl = flags_bytes(pts, n);
    let pos = p + xs_bytes(pts, k).len();
    let last = prev_x(pts, k);
    let dv = pts[k].x - last;
    lemma_flags_bytes_at(pts, n, k);
    lemma_point_flag(pts, k);
    lemma_x_window(d, p, pts, k);
    lemma_read_coord(d, pos, dv);
    assert(prev_x(pts, k + 1) == pts[k].x);
    let f = fl[k];
    let rest = axis_at(d, p + xs_bytes(pts, k + 1).len(), fl, k + 1, pts[k].x as int, X_SHORT_VECTOR, X_IS_SAME_OR_POSITIVE_X_SHORT_VECTOR);
    if dv == 0 {
        assert(f & X_SHORT_VECTOR == 0);
        assert(f & X_IS_SAME_OR_POSITIVE_X_SHORT_VECTOR != 0);
        assert(axis_at(d, pos, fl, k, last, X_SHORT_VECTOR, X_IS_SAME_OR_POSITIVE_X_SHORT_VECTOR) == then_prepend(last as i16, rest));
    } else if -255 <= dv <= 255 {
        assert(f & X_SHORT_VECTOR != 0);
        assert(axis_at(d, pos, fl, k, last, X_SHORT_VECTOR, X_IS_SAME_OR_POSITIVE_X_SHORT_VECTOR) == then_prepend(pts[k].x, rest));
    } else {
        assert(f & X_SHORT_VECTOR == 0);
        assert(f & X_IS_SAME_OR_POSITIVE_X_SHORT_VECTOR == 0);
        assert(axis_at(d, pos, fl, k, last, X_SHORT_VECTOR, X_IS_SAME_OR_POSITIVE_X_SHORT_VECTOR) == then_prepend(pts[k].x, rest));
    }
}

/// Reading the x coordinates from point `k` on gives back the points' x values.
#[verifier::spinoff_prover]
proof fn lemma_read_xs(d: Seq<u8>, p: int, pts: Seq<Point>, k: int)
    requires
        0 <= k <= pts.len(),
        0 <= p,
        deltas_fit(pts),
        p + xs_bytes(pts, pts.len() as int).len() <= d.len(),
        forall|j: int|
            0 <= j < xs_bytes(pts, pts.len() as int).len() ==> d[p + j] == #[trigger] xs_bytes(
                pts,
                pts.len() as int,
            )[j],
    ensures
        axis_at(
            d,
            p + xs_bytes(pts, k).len(),
            flags_bytes(pts, pts.len() as int),
            k,
            prev_x(pts, k),
            X_SHORT_VECTOR,
            X_IS_SAME_OR_POSITIVE_X_SHORT_VECTOR,
        ) == Reading::Value(
            Seq::new((pts.len() - k) as nat, |i: int| pts[k + i].x),
            p + xs_bytes(pts, pts.len() as int).len(),
        ),
    decreases pts.len() - k,
{
    let n = pts.len() as int;
    let tail = Seq::new((n - k) as nat, |i: int| pts[k + i].x);
    lemma_flags_bytes(pts, n);
    if k == n {
        assert(tail =~= Seq::<i16>::empty());
    } else {
        assert(-32768 <= pts[k].x - prev_x(pts, k) <= 32767 && -32768 <= pts[k].y - prev_y(pts, k) <= 32767);
        lemma_read_xs_step(d, p, pts, k);
        lemma_read_xs(d, p, pts, k + 1);
        let rest = Seq::new((n - k - 1) as nat, |i: int| pts[k + 1 + i].x);
        assert(seq![pts[k].x] + rest =~= tail);
    }
}

/// The bytes of the y difference of point `k` sit where the y stream put them.
proof fn lemma_y_window(d: Seq<u8>, p: int, pts: Seq<Point>, k: int)
    requires
        0 <= k < pts.len(),
        0 <= p,
        p + ys_bytes(pts, pts.len() as int).len() <= d.len(),
        forall|j: int|
            0 <= j < ys_bytes(pts, pts.len() as int).len() ==> d[p + j] == #[trigger] ys_bytes(
                pts,
                pts.len() as int,
            )[j],
    ensures
        ({
            let cb = coord_bytes(pts[k].y - prev_y(pts, k));
            let pos = p + ys_bytes(pts, k).len();
            &&& ys_bytes(pts, k + 1) == ys_bytes(pts, k) + cb
            &&& pos + cb.len() <= d.len()
            &&& forall|j: int| 0 <= j < cb.len() ==> d[pos + j] == #[trigger] cb[j]
        }),
{
    let n = pts.len() as int;
    let whole = ys_bytes(pts, n);
    lemma_ys_prefix(pts, k + 1, n);
    let a = ys_bytes(pts, k);
    let cb = coord_bytes(pts[k].y - prev_y(pts, k));
    assert(ys_bytes(pts, k + 1) == a + cb);
    assert forall|j: int| 0 <= j < cb.len() implies d[p + a.len() + j] == #[trigger] cb[j] by {
        assert(whole.subrange(0, (a + cb).len() as int)[a.len() + j] == (a + cb)[a.len() + j]);
        assert(d[p + (a.len() + j)] == whole[a.len() + j]);
    }
}

/// One step of reading the y coordinates: point `k` comes out, then the rest.
#[verifier::spinoff_prover]
proof fn lemma_read_ys_step(d: Seq<u8>, p: int, pts: Seq<Point>, k: int)
    requires
        0 <= k < pts.len(),
        0 <= p,
        -32768 <= pts[k].y - prev_y(pts, k) <= 32767,
        p + ys_bytes(pts, pts.len() as int).len() <= d.len(),
        forall|j: int|
            0 <= j < ys_bytes(pts, pts.len() as int).len() ==> d[p + j] == #[trigger] ys_bytes(
                pts,
                pts.len() as int,
            )[j],
    ensures
        axis_at(
            d,
            p + ys_bytes(pts, k).len(),
            flags_bytes(pts, pts.len() as int),
            k,
            prev_y(pts, k),
            Y_SHORT_VECTOR,
            Y_IS_SAME_OR_POSITIVE_Y_SHORT_VECTOR,
        ) == then_prepend(
            pts[k].y,
            axis_at(
                d,
                p + ys_bytes(pts, k + 1).len(),
                flags_bytes(pts, pts.len() as int),
                k + 1,
                prev_y(pts, k + 1),
                Y_SHORT_VECTOR,
                Y_IS_SAME_OR_POSITIVE_Y_SHORT_VECTOR,
            ),
        ),
{
    let n = pts.len() as int;
    let fl = flags_bytes(pts, n);
    let pos = p + ys_bytes(pts, k).len();
    let last = prev_y(pts, k);
    let dv = pts[k].y - last;
    lemma_flags_bytes_at(pts, n, k);
    lemma_point_flag(pts, k);
    lemma_y_window(d, p, pts, k);
    lemma_read_coord(d, pos, dv);
    assert(prev_y(pts, k + 1) == pts[k].y);
    let f = fl[k];
    let rest = axis_at(d, p + ys_bytes(pts, k + 1).len(), fl, k + 1, pts[k].y as int, Y_SHORT_VECTOR, Y_IS_SAME_OR_POSITIVE_Y_SHORT_VECTOR);
    if dv == 0 {
        assert(f & Y_SHORT_VECTOR == 0);
        assert(f & Y_IS_SAME_OR_POSITIVE_Y_SHORT_VECTOR != 0);
        assert(axis_at(d, pos, fl, k, last, Y_SHORT_VECTOR, Y_IS_SAME_OR_POSITIVE_Y_SHORT_VECTOR) == then_prepend(last as i16, rest));
    } else if -255 <= dv <= 255 {
        assert(f & Y_SHORT_VECTOR != 0);
        assert(axis_at(d, pos, fl, k, last, Y_SHORT_VECTOR, Y_IS_SAME_OR_POSITIVE_Y_SHORT_VECTOR) == then_prepend(pts[k].y, rest));
    } else {
        assert(f & Y_SHORT_VECTOR == 0);
        assert(f & Y_IS_SAME_OR_POSITIVE_Y_SHORT_VECTOR == 0);
        assert(axis_at(d, pos, fl, k, last, Y_SHORT_VECTOR, Y_IS_SAME_OR_POSITIVE_Y_SHORT_VECTOR) == then_prepend(pts[k].y, rest));
    }
}

/// Reading the y coordinates from point `k` on gives back the points' y values.
#[verifier::spinoff_prover]
proof fn lemma_read_ys(d: Seq<u8>, p: int, pts: Seq<Point>, k: int)
    requires
        0 <= k <= pts.len(),
        0 <= p,
        deltas_fit(pts),
        p + ys_bytes(pts, pts.len() as int).len() <= d.len(),
        forall|j: int|
            0 <= j < ys_bytes(pts, pts.len() as int).len() ==> d[p + j] == #[trigger] ys_bytes(
                pts,
                pts.len() as int,
            )[j],
    ensures
        axis_at(
            d,
            p + ys_bytes(pts, k).len(),
            flags_bytes(pts, pts.len() as int),
            k,
            prev_y(pts, k),
            Y_SHORT_VECTOR,
            Y_IS_SAME_OR_POSITIVE_Y_SHORT_VECTOR,
        ) == Reading::Value(
            Seq::new((pts.len() - k) as nat, |i: int| pts[k + i].y),
            p + ys_bytes(pts, pts.len() as int).len(),
        ),
    decreases pts.len() - k,
{
    let n = pts.len() as int;
    let tail = Seq::new((n - k) as nat, |i: int| pts[k + i].y);
    lemma_flags_bytes(pts, n);
    if k == n {
        assert(tail =~= Seq::<i16>::empty());
    } else {
        assert(-32768 <= pts[k].x - prev_x(pts, k) <= 32767 && -32768 <= pts[k].y - prev_y(pts, k) <= 32767);
        lemma_read_ys_step(d, p, pts, k);
        lemma_read_ys(d, p, pts, k + 1);
        let rest = Seq::new((n - k - 1) as nat, |i: int| pts[k + 1 + i].y);
        assert(seq![pts[k].y] + rest =~= tail);
    }
}

/// Flags without the repeat bit read back one byte per point.
proof fn lemma_read_flags(d: Seq<u8>, p: int, fl: Seq<u8>, k: int)
    requires
        0 <= k <= fl.len(),
        0 <= p,
        p + fl.len() <= d.len(),
        forall|j: int| 0 <= j < fl.len() ==> d[p + j] == #[trigger] fl[j],
        forall|j: int| 0 <= j < fl.len() ==> #[trigger] fl[j] & REPEAT_FLAG == 0,
    ensures
        flags_at(d, p + k, fl.len() - k) == Some((fl.subrange(k, fl.len() as int), p + fl.len())),
    decreases fl.len() - k,
{
    if k < fl.len() {
        lemma_read_flags(d, p, fl, k + 1);
        assert(d[p + k] == fl[k]);
        assert(seq![fl[k]] + fl.subrange(k + 1, fl.len() as int) =~= fl.subrange(k, fl.len() as int));
    } else {
        assert(fl.subrange(k, fl.len() as int) =~= Seq::<u8>::empty());
    }
}

proof fn lemma_flat_prefix_len(cs: Seq<Seq<Point>>, i: int, j: int)
    requires
        0 <= i <= j <= cs.len(),
    ensures
        flat(cs.take(i)).len() <= flat(cs.take(j)).len(),
        flat(cs.take(j)).subrange(0, flat(cs.take(i)).len() as int) == flat(cs.take(i)),
    decreases j - i,
{
    if i < j {
        lemma_flat_prefix_len(cs, i, j - 1);
        let a = flat(cs.take(j - 1));
        assert(cs.take(j).drop_last() == cs.take(j - 1));
        assert(flat(cs.take(j)) == a + cs[j - 1]);
        assert(flat(cs.take(j)).subrange(0, a.len() as int) == a);
        assert(flat(cs.take(j)).subrange(0, flat(cs.take(i)).len() as int) == a.subrange(
            0,
            flat(cs.take(i)).len() as int,
        ));
    }
}

proof fn lemma_end_point(cs: Seq<Seq<Point>>, k: int)
    requires
        0 <= k < cs.len(),
        cs[0].len() >= 1,
        flat(cs).len() <= 32767,
    ensures
        end_points_of(cs)[k] as int == flat(cs.take(k + 1)).len() - 1,
        flat(cs.take(k + 1)).len() >= 1,
{
    lemma_flat_prefix_len(cs, 1, k + 1);
    lemma_flat_prefix_len(cs, k + 1, cs.len() as int);
    assert(cs.take(cs.len() as int) == cs);
    assert(cs.take(1).drop_last() == cs.take(0));
    assert(flat(cs.take(0)) == Seq::<Point>::empty());
    assert(flat(cs.take(1)) == flat(cs.take(0)) + cs.take(1)[0]);
}

#[verifier::spinoff_prover]
proof fn lemma_split_at(cs: Seq<Seq<Point>>, k: int)
    requires
        0 <= k < cs.len(),
        cs[0].len() >= 1,
        flat(cs).len() <= 32767,
    ensures
        split_contours(flat(cs), end_points_of(cs))[k] == cs[k],
{
    let ends = end_points_of(cs);
    let pts = flat(cs);
    lemma_end_point(cs, k);
    if k > 0 {
        lemma_end_point(cs, k - 1);
    }
    lemma_flat_prefix_len(cs, k, k + 1);
    lemma_flat_prefix_len(cs, k + 1, cs.len() as int);
    assert(cs.take(cs.len() as int) == cs);
    assert(cs.take(k + 1).drop_last() == cs.take(k));
    let a = flat(cs.take(k));
    let b = flat(cs.take(k + 1));
    assert(b == a + cs[k]);
    if k == 0 {
        assert(cs.take(0) == Seq::<Seq<Point>>::empty());
        assert(a.len() == 0);
    }
    assert(pts.subrange(0, b.len() as int) == b);
    assert forall|i: int| a.len() <= i < b.len() implies #[trigger] pts[i] == b[i] by {
        assert(pts.subrange(0, b.len() as int)[i] == pts[i]);
    }
    assert(pts.subrange(a.len() as int, b.len() as int) =~= cs[k]);
}

/// The end points of `cs` are in order, none is 65535, the last one ends the points,
/// and cutting the points at them gives back `cs`.
#[verifier::opaque]
spec fn cut_back(cs: Seq<Seq<Point>>) -> bool {
    &&& split_contours(flat(cs), end_points_of(cs)) == cs
    &&& ends_ordered(end_points_of(cs))
    &&& forall|k: int| 0 <= k < cs.len() ==> #[trigger] end_points_of(cs)[k] != 65535
    &&& end_points_of(cs).last() + 1 == flat(cs).len()
}

/// The contours of `cs` are cut back out of their points at their end points.
#[verifier::spinoff_prover]
proof fn lemma_split_flat(cs: Seq<Seq<Point>>)
    requires
        cs.len() >= 1,
        cs[0].len() >= 1,
        flat(cs).len() <= 32767,
    ensures
        cut_back(cs),
{
    reveal(cut_back);
    let ends = end_points_of(cs);
    let pts = flat(cs);
    assert forall|k: int| 0 <= k < cs.len() implies #[trigger] ends[k] != 65535 by {
        lemma_end_point(cs, k);
        lemma_flat_prefix_len(cs, k + 1, cs.len() as int);
        assert(cs.take(cs.len() as int) == cs);
    }
    assert forall|k: int| 0 <= k < cs.len() - 1 implies #[trigger] ends[k] <= ends[k + 1] by {
        lemma_end_point(cs, k);
        lemma_end_point(cs, k + 1);
        lemma_flat_prefix_len(cs, k + 1, k + 2);
    }
    assert forall|k: int| 0 <= k < cs.len() implies #[trigger] split_contours(pts, ends)[k] == cs[k] by {
        lemma_split_at(cs, k);
    }
    assert(split_contours(pts, ends) =~= cs);
    lemma_end_point(cs, cs.len() - 1);
    assert(cs.take(cs.len() as int) == cs);
}

/// `w` sits in `d` at position `p`.
pub open spec fn window(d: Seq<u8>, p: int, w: Seq<u8>) -> bool {
    &&& 0 <= p
    &&& p + w.len() <= d.len()
    &&& forall|j: int| 0 <= j < w.len() ==> d[p + j] == #[trigger] w[j]
}

pub(crate) proof fn lemma_window(a: Seq<u8>, b: Seq<u8>, c: Seq<u8>)
    ensures
        window(a + b + c, a.len() as int, b),
{
    assert forall|j: int| 0 <= j < b.len() implies (a + b + c)[a.len() + j] == #[trigger] b[j] by {}
}

pub(crate) proof fn lemma_read_i16_window(d: Seq<u8>, p: int, v: i16)
    requires
        window(d, p, bei16(v)),
    ensures
        i16_at(d, p) == v,
{
    assert(d[p] == bei16(v)[0]);
    assert(d[p + 1] == bei16(v)[1]);
    lemma_i16_bits_roundtrip(v);
}

proof fn lemma_read_ends(d: Seq<u8>, ends: Seq<u16>)
    requires
        window(d, 10, be16_seq(ends)),
    ensures
        end_points_at(d, ends.len() as int) == ends,
{
    lemma_be16_seq_len(ends);
    assert forall|k: int| 0 <= k < ends.len() implies #[trigger] end_points_at(d, ends.len() as int)[k] == ends[k] by {
        lemma_be16_seq_index(ends, k);
        assert(d[10 + 2 * k] == be16_seq(ends)[2 * k]);
        assert(d[10 + 2 * k + 1] == be16_seq(ends)[2 * k + 1]);
    }
    assert(end_points_at(d, ends.len() as int) =~= ends);
}

pub(crate) proof fn lemma_read_instructions(d: Seq<u8>, q: int, ins: Seq<u8>)
    requires
        ins.len() <= 32767,
        window(d, q, be16(ins.len() as u16) + ins),
    ensures
        instructions_at(d, q) == Reading::Value(ins, q + 2 + ins.len()),
{
    let w = be16(ins.len() as u16) + ins;
    if ins.len() == 0 {
        assert(ins =~= Seq::<u8>::empty());
    }
    assert(d[q] == w[0]);
    assert(d[q + 1] == w[1]);
    assert(u16_at(d, q) == ins.len() as u16);
    assert(i16_of_bits(ins.len() as u16) == ins.len() as i16);
    assert forall|j: int| 0 <= j < ins.len() implies #[trigger] d.subrange(q + 2, q + 2 + ins.len())[j] == ins[j] by {
        assert(d[q + 2 + j] == w[2 + j]);
    }
    assert(d.subrange(q + 2, q + 2 + ins.len()) =~= ins);
}

/// The flags and coordinate streams of `pts`, where they were written, read back
/// as the points.
#[verifier::spinoff_prover]
#[verifier::rlimit(40)]
proof fn lemma_read_points(d: Seq<u8>, q2: int, pts: Seq<Point>)
    requires
        deltas_fit(pts),
        window(d, q2, flags_bytes(pts, pts.len() as int)),
        window(d, q2 + pts.len(), xs_bytes(pts, pts.len() as int)),
        window(d, q2 + pts.len() + xs_bytes(pts, pts.len() as int).len(), ys_bytes(pts, pts.len() as int)),
    ensures
        ({
            let n = pts.len() as int;
            let fl = flags_bytes(pts, n);
            let q3 = q2 + n;
            let q4 = q3 + xs_bytes(pts, n).len();
            let xs = Seq::new(n as nat, |i: int| pts[0 + i].x);
            let ys = Seq::new(n as nat, |i: int| pts[0 + i].y);
            &&& flags_at(d, q2, n) == Some((fl, q3))
            &&& axis_at(d, q3, fl, 0, 0, X_SHORT_VECTOR, X_IS_SAME_OR_POSITIVE_X_SHORT_VECTOR) == Reading::Value(xs, q4)
            &&& axis_at(d, q4, fl, 0, 0, Y_SHORT_VECTOR, Y_IS_SAME_OR_POSITIVE_Y_SHORT_VECTOR) == Reading::Value(ys, q4 + ys_bytes(pts, n).len())
            &&& points_of(fl, xs, ys) == pts
            &&& !any_flag(fl, OVERLAP_SIMPLE)
        }),
{
    let n = pts.len() as int;
    let fl = flags_bytes(pts, n);
    lemma_flags_bytes(pts, n);
    assert forall|j: int| 0 <= j < fl.len() implies #[trigger] fl[j] & REPEAT_FLAG == 0 by {
        lemma_point_flag(pts, j);
    }
    lemma_read_flags(d, q2, fl, 0);
    assert(fl.subrange(0, n) == fl);
    assert(xs_bytes(pts, 0).len() == 0 && ys_bytes(pts, 0).len() == 0);
    lemma_read_xs(d, q2 + n, pts, 0);
    lemma_read_ys(d, q2 + n + xs_bytes(pts, n).len(), pts, 0);
    let xs = Seq::new(n as nat, |i: int| pts[0 + i].x);
    let ys = Seq::new(n as nat, |i: int| pts[0 + i].y);
    assert forall|i: int| 0 <= i < n implies #[trigger] points_of(fl, xs, ys)[i] == pts[i] by {
        lemma_point_flag(pts, i);
    }
    assert(points_of(fl, xs, ys) =~= pts);
    assert forall|j: int| 0 <= j < fl.len() implies !(#[trigger] fl[j] & OVERLAP_SIMPLE != 0) by {
        lemma_point_flag(pts, j);
    }
}

proof fn lemma_window_extend(x: Seq<u8>, p: int, w: Seq<u8>, z: Seq<u8>)
    requires
        window(x, p, w),
    ensures
        window(x + z, p, w),
{
    assert forall|j: int| 0 <= j < w.len() implies (x + z)[p + j] == #[trigger] w[j] by {
        assert(x[p + j] == w[j]);
    }
}

#[verifier::spinoff_prover]
proof fn lemma_glyph_windows(
    h0: Seq<u8>,
    h1: Seq<u8>,
    h2: Seq<u8>,
    h3: Seq<u8>,
    h4: Seq<u8>,
    eb: Seq<u8>,
    ib: Seq<u8>,
    fl: Seq<u8>,
    xb: Seq<u8>,
    yb: Seq<u8>,
)
    requires
        h0.len() == 2,
        h1.len() == 2,
        h2.len() == 2,
        h3.len() == 2,
        h4.len() == 2,
    ensures
        ({
            let d = h0 + h1 + h2 + h3 + h4 + eb + ib + fl + xb + yb;
            &&& window(d, 0, h0)
            &&& window(d, 2, h1)
            &&& window(d, 4, h2)
            &&& window(d, 6, h3)
            &&& window(d, 8, h4)
            &&& window(d, 10, eb)
            &&& window(d, 10 + eb.len() as int, ib)
            &&& window(d, 10 + eb.len() as int + ib.len(), fl)
            &&& window(d, 10 + eb.len() as int + ib.len() + fl.len(), xb)
            &&& window(d, 10 + eb.len() as int + ib.len() + fl.len() + xb.len(), yb)
        }),
{
    let e = Seq::<u8>::empty();
    let p1 = h0;
    let p2 = p1 + h1;
    let p3 = p2 + h2;
    let p4 = p3 + h3;
    let p5 = p4 + h4;
    let p6 = p5 + eb;
    let p7 = p6 + ib;
    let p8 = p7 + fl;
    let p9 = p8 + xb;
    let d = p9 + yb;
    lemma_window(e, h0, e);
    assert(e + h0 + e == p1);
    lemma_window(p1, h1, e);
    assert(p1 + h1 + e == p2);
    lemma_window(p2, h2, e);
    assert(p2 + h2 + e == p3);
    lemma_window(p3, h3, e);
    assert(p3 + h3 + e == p4);
    lemma_window(p4, h4, e);
    assert(p4 + h4 + e == p5);
    lemma_window(p5, eb, e);
    assert(p5 + eb + e == p6);
    lemma_window(p6, ib, e);
    assert(p6 + ib + e == p7);
    lemma_window(p7, fl, e);
    assert(p7 + fl + e == p8);
    lemma_window(p8, xb, e);
    assert(p8 + xb + e == p9);
    lemma_window(p9, yb, e);
    assert(p9 + yb + e == d);
    lemma_window_extend(p1, 0, h0, h1);
    lemma_window_extend(p2, 0, h0, h2);
    lemma_window_extend(p2, 2, h1, h2);
    lemma_window_extend(p3, 0, h0, h3);
    lemma_window_extend(p3, 2, h1, h3);
    lemma_window_extend(p3, 4, h2, h3);
    lemma_window_extend(p4, 0, h0, h4);
    lemma_window_extend(p4, 2, h1, h4);
    lemma_window_extend(p4, 4, h2, h4);
    lemma_window_extend(p4, 6, h3, h4);
    lemma_window_extend(p5, 0, h0, eb);
    lemma_window_extend(p5, 2, h1, eb);
    lemma_window_extend(p5, 4, h2, eb);
    lemma_window_extend(p5, 6, h3, eb);
    lemma_window_extend(p5, 8, h4, eb);
    lemma_window_extend(p6, 0, h0, ib);
    lemma_window_extend(p6, 2, h1, ib);
    lemma_window_extend(p6, 4, h2, ib);
    lemma_window_extend(p6, 6, h3, ib);
    lemma_window_extend(p6, 8, h4, ib);
    lemma_window_extend(p6, 10, eb, ib);
    lemma_window_extend(p7, 0, h0, fl);
    lemma_window_extend(p7, 2, h1, fl);
    lemma_window_extend(p7, 4, h2, fl);
    lemma_window_extend(p7, 6, h3, fl);
    lemma_window_extend(p7, 8, h4, fl);
    lemma_window_extend(p7, 10, eb, fl);
    lemma_window_extend(p7, 10 + eb.len() as int, ib, fl);
    lemma_window_extend(p8, 0, h0, xb);
    lemma_window_extend(p8, 2, h1, xb);
    lemma_window_extend(p8, 4, h2, xb);
    lemma_window_extend(p8, 6, h3, xb);
    lemma_window_extend(p8, 8, h4, xb);
    lemma_window_extend(p8, 10, eb, xb);
    lemma_window_extend(p8, 10 + eb.len() as int, ib, xb);
    lemma_window_extend(p8, 10 + eb.len() as int + ib.len(), fl, xb);
    lemma_window_extend(p9, 0, h0, yb);
    lemma_window_extend(p9, 2, h1, yb);
    lemma_window_extend(p9, 4, h2, yb);
    lemma_window_extend(p9, 6, h3, yb);
    lemma_window_extend(p9, 8, h4, yb);
    lemma_window_extend(p9, 10, eb, yb);
    lemma_window_extend(p9, 10 + eb.len() as int, ib, yb);
    lemma_window_extend(p9, 10 + eb.len() as int + ib.len(), fl, yb);
    lemma_window_extend(p9, 10 + eb.len() as int + ib.len() + fl.len(), xb, yb);
}

#[verifier::spinoff_prover]
proof fn lemma_simple_glyph_at_value(
    d: Seq<u8>,
    cs: Seq<Seq<Point>>,
    bounds: (i16, i16, i16, i16),
    ins: Seq<u8>,
    fl: Seq<u8>,
    xs: Seq<i16>,
    ys: Seq<i16>,
    q2: int,
    q3: int,
    q4: int,
    q5: int,
)
    requires
        cs.len() >= 1,
        d.len() >= 10 + 2 * cs.len(),
        cut_back(cs),
        end_points_at(d, cs.len() as int) == end_points_of(cs),
        instructions_at(d, 10 + 2 * cs.len() as int) == Reading::Value(ins, q2),
        flags_at(d, q2, flat(cs).len() as int) == Some((fl, q3)),
        axis_at(d, q3, fl, 0, 0, X_SHORT_VECTOR, X_IS_SAME_OR_POSITIVE_X_SHORT_VECTOR) == Reading::Value(xs, q4),
        axis_at(d, q4, fl, 0, 0, Y_SHORT_VECTOR, Y_IS_SAME_OR_POSITIVE_Y_SHORT_VECTOR) == Reading::Value(ys, q5),
        points_of(fl, xs, ys) == flat(cs),
    ensures
        simple_glyph_at(d, cs.len() as int, bounds) == Reading::Value(
            GlyphData {
                x_min: bounds.0,
                y_min: bounds.1,
                x_max: bounds.2,
                y_max: bounds.3,
                contours: cs,
                instructions: ins,
                components: Seq::empty(),
                overlap: any_flag(fl, OVERLAP_SIMPLE),
            },
            q5,
        ),
{
    reveal(cut_back);
    let nc = cs.len() as int;
    assert(!(exists|k: int| 0 <= k < nc && #[trigger] end_points_at(d, nc)[k] == 65535));
}

/// Writing a simple glyph and reading it back gives the same glyph, when its first
/// contour has a point, its instructions fit a signed count and it claims no overlap.
#[verifier::spinoff_prover]
#[verifier::rlimit(100)]
pub proof fn lemma_simple_glyph_roundtrip(g: Glyph)
    requires
        glyph_writable(g),
        g.components@.len() == 0,
        g.contours@.len() >= 1,
        g.contours@[0]@.len() >= 1,
        g.instructions@.len() <= 32767,
        !g.overlap,
    ensures
        glyph_at(glyph_encoding(g)) matches Reading::Value(v, _) && v == g@,
{
    let cs = contours_view(g.contours@);
    let pts = flat(cs);
    let n = pts.len() as int;
    let ends = end_points_of(cs);
    let ins = g.instructions@;
    let nc = g.contours@.len() as int;
    let d = glyph_encoding(g);
    assert(cs[0] == g.contours@[0]@);
    lemma_split_flat(cs);
    let fl = flags_bytes(pts, n);
    let xb = xs_bytes(pts, n);
    let yb = ys_bytes(pts, n);
    lemma_flags_bytes(pts, n);
    lemma_be16_seq_len(ends);
    let h0 = bei16(nc as i16);
    let h1 = bei16(g.xMin);
    let h2 = bei16(g.yMin);
    let h3 = bei16(g.xMax);
    let h4 = bei16(g.yMax);
    let eb = be16_seq(ends);
    let ib = be16(ins.len() as u16) + ins;
    assert(d == h0 + h1 + h2 + h3 + h4 + simple_body(cs, ins));
    let q: int = 10 + 2 * nc;
    let q2: int = q + 2 + ins.len();
    let q3: int = q2 + n;
    let q4: int = q3 + xb.len();
    assert(d =~= h0 + h1 + h2 + h3 + h4 + eb + ib + fl + xb + yb);
    lemma_glyph_windows(h0, h1, h2, h3, h4, eb, ib, fl, xb, yb);
    lemma_read_i16_window(d, 0, nc as i16);
    lemma_read_i16_window(d, 2, g.xMin);
    lemma_read_i16_window(d, 4, g.yMin);
    lemma_read_i16_window(d, 6, g.xMax);
    lemma_read_i16_window(d, 8, g.yMax);
    lemma_read_ends(d, ends);
    lemma_read_instructions(d, q, ins);
    lemma_read_points(d, q2, pts);
    let xs = Seq::new(n as nat, |i: int| pts[0 + i].x);
    let ys = Seq::new(n as nat, |i: int| pts[0 + i].y);
    lemma_simple_glyph_at_value(d, cs, (g.xMin, g.yMin, g.xMax, g.yMax), ins, fl, xs, ys, q2, q3, q4, q4 + yb.len());
    assert(g.components@ =~= Seq::empty());
}

} // verus!
