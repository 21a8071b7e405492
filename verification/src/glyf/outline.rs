//! Working on the outlines of glyphs: transforming points, making implied
//! on-curve points explicit, bounds, decomposing components, and the point list
//! that variation data refers to.
use crate::glyf::component::{Component, Transform};
use crate::glyf::glyph::{contours_view, flat, Glyph, Point};
use vstd::prelude::*;

verus! {

/// `a / b` rounded toward zero.
pub open spec fn div_toward_zero(a: int, b: int) -> int {
    if a >= 0 { a / b } else { -((-a) / b) }
}

/// `v` brought into the 16-bit range.
pub open spec fn saturate16(v: int) -> i16 {
    if v < -32768 { -32768i16 } else if v > 32767 { 32767i16 } else { v as i16 }
}

/// One coordinate of a transformed point: `(a·x + b·y) / 16384 + t`, rounded
/// toward zero and brought into range.
pub open spec fn affine_coord(a: i16, b: i16, t: i16, x: i16, y: i16) -> i16 {
    saturate16(div_toward_zero(a * x + b * y + t * 16384, 16384))
}

/// The point `p` moved by the transformation `t`.
pub open spec fn transformed(p: Point, t: Transform) -> Point {
    Point {
        x: affine_coord(t.x_scale, t.scale10, t.translate_x, p.x, p.y),
        y: affine_coord(t.scale01, t.y_scale, t.translate_y, p.x, p.y),
        on_curve: p.on_curve,
    }
}

fn affine_coord_exec(a: i16, b: i16, t: i16, x: i16, y: i16) -> (r: i16)
    ensures
        r == affine_coord(a, b, t, x, y),
{
    assert(-1073741824 <= (a as int) * (x as int) <= 1073741824) by (nonlinear_arith)
        requires
            -32768 <= a <= 32767,
            -32768 <= x <= 32767,
    ;
    assert(-1073741824 <= (b as int) * (y as int) <= 1073741824) by (nonlinear_arith)
        requires
            -32768 <= b <= 32767,
            -32768 <= y <= 32767,
    ;
    let ax: i64 = a as i64 * x as i64;
    let by: i64 = b as i64 * y as i64;
    let v: i64 = ax + by + t as i64 * 16384;
    let q: i64 = if v >= 0 { v / 16384 } else { -((-v) / 16384) };
    if q < -32768 {
        -32768
    } else if q > 32767 {
        32767
    } else {
        q as i16
    }
}

impl Point {
    /// This point moved by `t`.
    pub fn transform(&self, t: Transform) -> (r: Point)
        ensures
            r == transformed(*self, t),
    {
        Point {
            x: affine_coord_exec(t.x_scale, t.scale10, t.translate_x, self.x, self.y),
            y: affine_coord_exec(t.scale01, t.y_scale, t.translate_y, self.x, self.y),
            on_curve: self.on_curve,
        }
    }
}

/// The on-curve point halfway between `a` and `b`, rounded toward zero.
pub open spec fn midpoint(a: Point, b: Point) -> Point {
    Point {
        x: div_toward_zero(a.x + b.x, 2) as i16,
        y: div_toward_zero(a.y + b.y, 2) as i16,
        on_curve: true,
    }
}

/// The contour `c` with an on-curve point inserted between each two consecutive
/// off-curve points.
pub open spec fn with_midpoints(c: Seq<Point>) -> Seq<Point>
    decreases c.len(),
{
    if c.len() <= 1 {
        c
    } else if !c[0].on_curve && !c[1].on_curve {
        seq![c[0], midpoint(c[0], c[1])] + with_midpoints(c.drop_first())
    } else {
        seq![c[0]] + with_midpoints(c.drop_first())
    }
}

/// The midpoints that would be inserted in `c` have 16-bit sums.
pub open spec fn midpoints_fit(c: Seq<Point>) -> bool {
    forall|i: int|
        0 <= i < c.len() - 1 && !c[i].on_curve && !(#[trigger] c[i + 1]).on_curve ==> -32768 <= c[i].x
            + c[i + 1].x <= 32767 && -32768 <= c[i].y + c[i + 1].y <= 32767
}

fn half(a: i16, b: i16) -> (r: i16)
    requires
        -32768 <= a + b <= 32767,
    ensures
        r == div_toward_zero(a + b, 2),
{
    let s = a + b;
    s / 2
}

/// The contour `c` from point `i` on, with midpoints inserted.
proof fn lemma_with_midpoints_suffix(c: Seq<Point>, i: int)
    requires
        0 <= i < c.len() - 1,
    ensures
        with_midpoints(c.subrange(i, c.len() as int)) == if !c[i].on_curve && !c[i + 1].on_curve {
            seq![c[i], midpoint(c[i], c[i + 1])] + with_midpoints(c.subrange(i + 1, c.len() as int))
        } else {
            seq![c[i]] + with_midpoints(c.subrange(i + 1, c.len() as int))
        },
{
    assert(c.subrange(i, c.len() as int).drop_first() =~= c.subrange(i + 1, c.len() as int));
}

fn contour_with_midpoints(c: &Vec<Point>) -> (r: Vec<Point>)
    requires
        c@.len() >= 1,
        midpoints_fit(c@),
    ensures
        r@ == with_midpoints(c@),
{
    let mut out: Vec<Point> = Vec::new();
    let mut i: usize = 0;
    let n = c.len();
    assert(c@.subrange(0, n as int) =~= c@);
    assert(out@ + with_midpoints(c@) =~= with_midpoints(c@));
    while i < n - 1
        invariant
            n == c@.len(),
            n >= 1,
            i <= n - 1,
            midpoints_fit(c@),
            with_midpoints(c@) == out@ + with_midpoints(c@.subrange(i as int, n as int)),
        decreases n - i,
    {
        proof {
            lemma_with_midpoints_suffix(c@, i as int);
        }
        let ghost before = out@;
        out.push(c[i]);
        if !c[i].on_curve && !c[i + 1].on_curve {
            let m = Point { x: half(c[i].x, c[i + 1].x), y: half(c[i].y, c[i + 1].y), on_curve: true };
            out.push(m);
            assert(before + (seq![c@[i as int], m] + with_midpoints(c@.subrange(i + 1, n as int))) =~= out@
                + with_midpoints(c@.subrange(i + 1, n as int)));
        } else {
            assert(before + (seq![c@[i as int]] + with_midpoints(c@.subrange(i + 1, n as int))) =~= out@
                + with_midpoints(c@.subrange(i + 1, n as int)));
        }
        i = i + 1;
    }
    assert(c@.subrange(i as int, n as int) =~= seq![c@[i as int]]);
    out.push(c[i]);
    assert(c@.subrange(0, n as int) =~= c@);
    out
}

/// The lowest and highest x and y over the points `pts` (all zero when there are none).
pub open spec fn bounds_of(pts: Seq<Point>) -> (i16, i16, i16, i16)
    decreases pts.len(),
{
    if pts.len() == 0 {
        (0, 0, 0, 0)
    } else if pts.len() == 1 {
        (pts[0].x, pts[0].y, pts[0].x, pts[0].y)
    } else {
        let b = bounds_of(pts.drop_last());
        let p = pts.last();
        (
            if p.x < b.0 { p.x } else { b.0 },
            if p.y < b.1 { p.y } else { b.1 },
            if p.x > b.2 { p.x } else { b.2 },
            if p.y > b.3 { p.y } else { b.3 },
        )
    }
}

/// The indices of the last point of each contour, counting on from one contour to
/// the next.
pub open spec fn running_ends(cs: Seq<Seq<Point>>) -> Seq<int> {
    Seq::new(cs.len(), |i: int| flat(cs.take(i + 1)).len() - 1)
}

/// The point list that variation data refers to: the outline's points, one per
/// component offset, and four phantom points at the origin; and the end index of
/// each contour, then of each component and phantom point, each one past the
/// end before it (the first of them 0 when there are no contours).
pub open spec fn gvar_points(g: Glyph) -> (Seq<(i16, i16)>, Seq<int>) {
    let cs = contours_view(g.contours@);
    let pts = flat(cs).map_values(|p: Point| (p.x, p.y));
    let offs = g.components@.map_values(
        |c: Component| (c.transformation.translate_x, c.transformation.translate_y),
    );
    let phantom = seq![(0i16, 0i16), (0i16, 0i16), (0i16, 0i16), (0i16, 0i16)];
    let last: int = if cs.len() == 0 { -1 } else { flat(cs).len() - 1 };
    (
        pts + offs + phantom,
        running_ends(cs) + Seq::new(g.components@.len() + 4, |j: int| last + 1 + j),
    )
}

impl Glyph {
    /// Insert an on-curve point between each two consecutive off-curve points.
    pub fn insert_explicit_oncurves(&mut self)
        requires
            forall|i: int| 0 <= i < old(self).contours@.len() ==> (#[trigger] old(self).contours@[i])@.len() >= 1,
            forall|i: int| 0 <= i < old(self).contours@.len() ==> midpoints_fit(#[trigger] old(self).contours@[i]@),
        ensures
            contours_view(final(self).contours@) == contours_view(old(self).contours@).map_values(
                |c: Seq<Point>| with_midpoints(c),
            ),
            final(self).components@ == old(self).components@,
            final(self).instructions@ == old(self).instructions@,
            final(self).xMin == old(self).xMin && final(self).xMax == old(self).xMax,
            final(self).yMin == old(self).yMin && final(self).yMax == old(self).yMax,
            final(self).overlap == old(self).overlap,
    {
        let mut new_contours: Vec<Vec<Point>> = Vec::new();
        let mut i: usize = 0;
        while i < self.contours.len()
            invariant
                forall|j: int| 0 <= j < self.contours@.len() ==> (#[trigger] self.contours@[j])@.len() >= 1,
                forall|j: int| 0 <= j < self.contours@.len() ==> midpoints_fit(#[trigger] self.contours@[j]@),
                i <= self.contours@.len(),
                new_contours@.len() == i,
                forall|j: int| 0 <= j < i ==> (#[trigger] new_contours@[j])@ == with_midpoints(self.contours@[j]@),
            decreases self.contours@.len() - i,
        {
            let c = contour_with_midpoints(&self.contours[i]);
            new_contours.push(c);
            i = i + 1;
        }
        assert(contours_view(new_contours@) =~= contours_view(self.contours@).map_values(
            |c: Seq<Point>| with_midpoints(c),
        ));
        self.contours = new_contours;
    }

    /// Set the bounds to those of the outline's points; a composite glyph is left as it is.
    pub fn recalc_bounds(&mut self)
        ensures
            old(self).components@.len() > 0 ==> *final(self) == *old(self),
            old(self).components@.len() == 0 ==> ({
                let b = bounds_of(flat(contours_view(old(self).contours@)));
                &&& final(self).xMin == b.0 && final(self).yMin == b.1
                &&& final(self).xMax == b.2 && final(self).yMax == b.3
                &&& final(self).contours == old(self).contours
                &&& final(self).components == old(self).components
                &&& final(self).instructions == old(self).instructions
                &&& final(self).overlap == old(self).overlap
            }),
    {
        if self.has_components() {
            return;
        }
        let pts = self.flat_points();
        let mut b: (i16, i16, i16, i16) = (0, 0, 0, 0);
        let mut i: usize = 0;
        while i < pts.len()
            invariant
                i <= pts@.len(),
                b == bounds_of(pts@.take(i as int)),
            decreases pts@.len() - i,
        {
            let p = pts[i];
            proof {
                assert(pts@.take(i + 1).drop_last() =~= pts@.take(i as int));
            }
            if i == 0 {
                b = (p.x, p.y, p.x, p.y);
            } else {
                b = (
                    if p.x < b.0 { p.x } else { b.0 },
                    if p.y < b.1 { p.y } else { b.1 },
                    if p.x > b.2 { p.x } else { b.2 },
                    if p.y > b.3 { p.y } else { b.3 },
                );
            }
            i = i + 1;
        }
        assert(pts@.take(i as int) =~= pts@);
        self.xMin = b.0;
        self.yMin = b.1;
        self.xMax = b.2;
        self.yMax = b.3;
    }

    /// The glyph with its components replaced by their glyphs' contours, each
    /// point moved by the component's transformation; a component whose glyph is
    /// not in `glyphs` is left out. The bounds are those of the new outline.
    pub fn decompose(&self, glyphs: &[Glyph]) -> (r: Glyph)
        ensures
            contours_view(r.contours@) == contours_view(self.contours@) + decomposed(self.components@, glyphs@),
            r.contours@.len() == self.contours@.len() + brought_contours(
                self.components@,
                glyphs@,
                self.components@.len() as int,
            ),
            forall|k: int, j: int|
                0 <= k < self.components@.len() && (self.components@[k].glyph_index as int)
                    < glyphs@.len() && 0 <= j < glyphs@[self.components@[k].glyph_index as int].contours@.len()
                    ==> (#[trigger] r.contours@[self.contours@.len() + brought_contours(
                    self.components@,
                    glyphs@,
                    k,
                ) + j])@ == glyphs@[self.components@[k].glyph_index as int].contours@[j]@.map_values(
                    |p: Point| transformed(p, self.components@[k].transformation),
                ),
            r.components@.len() == 0,
            r.instructions@.len() == 0,
            r.overlap == self.overlap,
            ({
                let b = bounds_of(flat(contours_view(r.contours@)));
                if r.contours@.len() > 0 {
                    r.xMin == b.0 && r.yMin == b.1 && r.xMax == b.2 && r.yMax == b.3
                } else {
                    r.xMin == 0 && r.yMin == 0 && r.xMax == 0 && r.yMax == 0
                }
            }),
    {
        let mut new_contours: Vec<Vec<Point>> = Vec::new();
        let mut i: usize = 0;
        while i < self.contours.len()
            invariant
                i <= self.contours@.len(),
                new_contours@.len() == i,
                forall|j: int| 0 <= j < i ==> (#[trigger] new_contours@[j])@ == self.contours@[j]@,
            decreases self.contours@.len() - i,
        {
            new_contours.push(copy_contour(&self.contours[i]));
            i = i + 1;
        }
        assert(contours_view(new_contours@) =~= contours_view(self.contours@) + decomposed(
            self.components@.take(0),
            glyphs@,
        ));
        let mut k: usize = 0;
        while k < self.components.len()
            invariant
                k <= self.components@.len(),
                contours_view(new_contours@) == contours_view(self.contours@) + decomposed(
                    self.components@.take(k as int),
                    glyphs@,
                ),
            decreases self.components@.len() - k,
        {
            let comp = self.components[k];
            let ghost before = new_contours@;
            proof {
                assert(self.components@.take(k + 1).drop_last() =~= self.components@.take(k as int));
            }
            let ix = comp.glyph_index as usize;
            if ix < glyphs.len() {
                let other = &glyphs[ix];
                let mut j: usize = 0;
                while j < other.contours.len()
                    invariant
                        ix < glyphs@.len(),
                        other == &glyphs@[ix as int],
                        j <= other.contours@.len(),
                        new_contours@.len() == before.len() + j,
                        forall|q: int| 0 <= q < before.len() ==> (#[trigger] new_contours@[q]) == before[q],
                        forall|q: int| before.len() <= q < before.len() + j ==> (#[trigger] new_contours@[q])@ == transformed_contour(other.contours@[q - before.len()]@, comp.transformation),
                    decreases other.contours@.len() - j,
                {
                    let c = transform_contour(&other.contours[j], comp.transformation);
                    new_contours.push(c);
                    j = j + 1;
                }
                assert(contours_view(new_contours@) =~= contours_view(before) + contours_view(other.contours@).map_values(
                    |c: Seq<Point>| transformed_contour(c, comp.transformation),
                ));
                assert(contours_view(new_contours@) =~= contours_view(self.contours@) + decomposed(
                    self.components@.take(k + 1),
                    glyphs@,
                ));
            } else {
                assert(contours_view(new_contours@) =~= contours_view(self.contours@) + decomposed(
                    self.components@.take(k + 1),
                    glyphs@,
                ));
            }
            k = k + 1;
        }
        assert(self.components@.take(k as int) =~= self.components@);
        let mut g = Glyph {
            xMin: 0,
            xMax: 0,
            yMin: 0,
            yMax: 0,
            contours: new_contours,
            instructions: Vec::new(),
            components: Vec::new(),
            overlap: self.overlap,
        };
        if g.contours.len() > 0 {
            g.recalc_bounds();
        }
        proof {
            lemma_decompose_contours(*self, glyphs@);
            let d = contours_view(self.contours@) + decomposed(self.components@, glyphs@);
            assert(contours_view(g.contours@) == d);
            assert forall|i: int| 0 <= i < g.contours@.len() implies #[trigger] g.contours@[i]@ == d[i] by {
                assert(contours_view(g.contours@)[i] == g.contours@[i]@);
            }
            let cs = self.components@;
            let own = self.contours@.len() as int;
            assert forall|k: int, j: int|
                0 <= k < cs.len() && (cs[k].glyph_index as int) < glyphs@.len() && 0 <= j
                    < glyphs@[cs[k].glyph_index as int].contours@.len() implies (#[trigger] g.contours@[own
                    + brought_contours(cs, glyphs@, k) + j])@ == glyphs@[cs[k].glyph_index as int].contours@[j]@.map_values(
                |p: Point| transformed(p, cs[k].transformation),
            ) by {
                lemma_brought_mono(cs, glyphs@, k, k);
                lemma_brought_mono(cs, glyphs@, k + 1, cs.len() as int);
                let idx = own + brought_contours(cs, glyphs@, k) + j;
                assert(idx < g.contours@.len());
                assert(g.contours@[idx]@ == d[idx]);
                assert(d[idx] == glyphs@[cs[k].glyph_index as int].contours@[j]@.map_values(
                    |p: Point| transformed(p, cs[k].transformation),
                ));
            }
        }
        g
    }

    /// The point list that variation data refers to, and the end index of each
    /// contour, component and phantom point.
    pub fn gvar_coords_and_ends(&self) -> (r: (Vec<(i16, i16)>, Vec<usize>))
        requires
            self.contours@.len() > 0 ==> self.contours@[0]@.len() >= 1,
            flat(contours_view(self.contours@)).len() + self.components@.len() + 4 <= usize::MAX,
        ensures
            r.0@ == gvar_points(*self).0,
            r.1@.map_values(|e: usize| e as int) == gvar_points(*self).1,
            r.1@.len() > 0 && r.1@.last() + 1 == r.0@.len(),
    {
        let ghost cs = contours_view(self.contours@);
        let mut ends: Vec<usize> = Vec::new();
        let mut acc: usize = 0;
        let mut i: usize = 0;
        while i < self.contours.len()
            invariant
                cs == contours_view(self.contours@),
                self.contours@.len() > 0 ==> self.contours@[0]@.len() >= 1,
                flat(cs).len() + self.components@.len() + 4 <= usize::MAX,
                i <= cs.len(),
                acc == flat(cs.take(i as int)).len(),
                ends@.len() == i,
                forall|j: int| 0 <= j < i ==> #[trigger] ends@[j] as int == running_ends(cs)[j],
            decreases cs.len() - i,
        {
            proof {
                lemma_flat_take(cs, i as int);
                lemma_flat_prefix_len(cs, i + 1);
                if i > 0 {
                    lemma_flat_first(cs, i + 1);
                }
            }
            assert(cs[i as int] == self.contours@[i as int]@);
            acc = acc + self.contours[i].len();
            ends.push(acc - 1);
            i = i + 1;
        }
        assert(ends@.map_values(|e: usize| e as int) =~= running_ends(cs));
        let pts = self.flat_points();
        let mut coords: Vec<(i16, i16)> = Vec::new();
        let mut j: usize = 0;
        while j < pts.len()
            invariant
                j <= pts@.len(),
                coords@ == pts@.take(j as int).map_values(|p: Point| (p.x, p.y)),
            decreases pts@.len() - j,
        {
            coords.push((pts[j].x, pts[j].y));
            assert(coords@ =~= pts@.take(j + 1).map_values(|p: Point| (p.x, p.y)));
            j = j + 1;
        }
        assert(pts@.take(j as int) =~= pts@);
        let ghost base = coords@;
        let ghost base_ends = ends@.map_values(|e: usize| e as int);
        let ghost last: int = if cs.len() == 0 { -1 } else { flat(cs).len() - 1 };
        proof {
            if cs.len() > 0 {
                assert(cs.take(cs.len() as int) =~= cs);
                assert(base_ends.last() == last);
            }
        }
        let ghost extra = self.components@.map_values(
            |c: Component| (c.transformation.translate_x, c.transformation.translate_y),
        ) + seq![(0i16, 0i16), (0i16, 0i16), (0i16, 0i16), (0i16, 0i16)];
        let mut k: usize = 0;
        while k < self.components.len() + 4
            invariant
                k <= self.components@.len() + 4,
                extra.len() == self.components@.len() + 4,
                extra == self.components@.map_values(
                    |c: Component| (c.transformation.translate_x, c.transformation.translate_y),
                ) + seq![(0i16, 0i16), (0i16, 0i16), (0i16, 0i16), (0i16, 0i16)],
                flat(cs).len() + self.components@.len() + 4 <= usize::MAX,
                base_ends == running_ends(cs),
                cs.len() > 0 ==> base_ends.len() > 0 && base_ends.last() == last,
                cs.len() == 0 ==> base_ends.len() == 0 && last == -1,
                last <= flat(cs).len(),
                coords@ == base + extra.take(k as int),
                ends@.len() == base_ends.len() + k,
                forall|j: int| 0 <= j < base_ends.len() ==> #[trigger] ends@[j] as int == base_ends[j],
                forall|j: int| 0 <= j < k ==> #[trigger] ends@[base_ends.len() + j] as int == last + 1 + j,
            decreases self.components@.len() + 4 - k,
        {
            if k < self.components.len() {
                let t = self.components[k].transformation;
                coords.push((t.translate_x, t.translate_y));
            } else {
                coords.push((0, 0));
            }
            assert(coords@ =~= base + extra.take(k + 1));
            proof {
                if ends@.len() == 0 {
                    assert(k == 0 && cs.len() == 0);
                } else if k == 0 {
                    assert(ends@[base_ends.len() - 1] as int == base_ends[base_ends.len() - 1]);
                } else {
                    assert(ends@[base_ends.len() + (k - 1)] as int == last + 1 + (k - 1));
                }
                assert(ends@.len() > 0 ==> ends@[ends@.len() - 1] as int == last + k);
            }
            let next: usize = if ends.len() == 0 { 0 } else { ends[ends.len() - 1] + 1 };
            assert(next as int == last + 1 + k);
            ends.push(next);
            assert(ends@[base_ends.len() + k] == next);
            k = k + 1;
        }
        assert(extra.take(k as int) =~= extra);
        assert(coords@ =~= base + extra);
        let ghost full_ends = ends@.map_values(|e: usize| e as int);
        let ghost expected = base_ends + Seq::new(self.components@.len() + 4, |j: int| last + 1 + j);
        assert forall|j: int| 0 <= j < ends@.len() implies #[trigger] full_ends[j] == expected[j] by {
            if j >= base_ends.len() {
                assert(ends@[base_ends.len() + (j - base_ends.len())] as int == last + 1 + (j
                    - base_ends.len()));
            }
        }
        assert(ends@.map_values(|e: usize| e as int) =~= base_ends + Seq::new(
            self.components@.len() + 4,
            |j: int| last + 1 + j,
        ));
        assert(ends@[base_ends.len() + (self.components@.len() + 3) as int] as int == last + 1 + (
        self.components@.len() + 3));
        assert(coords@.len() == flat(cs).len() + self.components@.len() + 4);
        (coords, ends)
    }
}

/// The contour `c` with each point moved by `t`.
pub open spec fn transformed_contour(c: Seq<Point>, t: Transform) -> Seq<Point> {
    c.map_values(|p: Point| transformed(p, t))
}

/// The contours that components `cs` bring in from `glyphs`, in order.
pub open spec fn decomposed(cs: Seq<Component>, glyphs: Seq<Glyph>) -> Seq<Seq<Point>>
    decreases cs.len(),
{
    if cs.len() == 0 {
        Seq::empty()
    } else {
        let c = cs.last();
        decomposed(cs.drop_last(), glyphs) + (if (c.glyph_index as int) < glyphs.len() {
            contours_view(glyphs[c.glyph_index as int].contours@).map_values(
                |k: Seq<Point>| transformed_contour(k, c.transformation),
            )
        } else {
            Seq::empty()
        })
    }
}

/// How many contours the first `n` components bring in: for each whose glyph
/// is among `glyphs`, all the contours of that glyph.
pub open spec fn brought_contours(cs: Seq<Component>, glyphs: Seq<Glyph>, n: int) -> int
    decreases n,
{
    if n <= 0 {
        0
    } else {
        brought_contours(cs, glyphs, n - 1) + (if (cs[n - 1].glyph_index as int) < glyphs.len() {
            glyphs[cs[n - 1].glyph_index as int].contours@.len() as int
        } else {
            0
        })
    }
}

proof fn lemma_brought_mono(cs: Seq<Component>, glyphs: Seq<Glyph>, a: int, b: int)
    requires
        0 <= a <= b,
    ensures
        0 <= brought_contours(cs, glyphs, a) <= brought_contours(cs, glyphs, b),
    decreases b,
{
    if b > 0 {
        if a < b {
            lemma_brought_mono(cs, glyphs, a, b - 1);
        } else {
            lemma_brought_mono(cs, glyphs, a - 1, a - 1);
            lemma_brought_mono(cs, glyphs, 0, a - 1);
        }
    }
}

proof fn lemma_decomposed_shape(cs: Seq<Component>, glyphs: Seq<Glyph>)
    ensures
        decomposed(cs, glyphs).len() == brought_contours(cs, glyphs, cs.len() as int),
        forall|k: int, j: int|
            0 <= k < cs.len() && (cs[k].glyph_index as int) < glyphs.len() && 0 <= j
                < glyphs[cs[k].glyph_index as int].contours@.len() ==> #[trigger] decomposed(cs, glyphs)[brought_contours(
                cs,
                glyphs,
                k,
            ) + j] == glyphs[cs[k].glyph_index as int].contours@[j]@.map_values(
                |p: Point| transformed(p, cs[k].transformation),
            ),
    decreases cs.len(),
{
    if cs.len() > 0 {
        let init = cs.drop_last();
        let n = cs.len() as int;
        let c = cs.last();
        lemma_decomposed_shape(init, glyphs);
        lemma_brought_prefix(init, cs, glyphs, init.len() as int);
        let d0 = decomposed(init, glyphs);
        let added = if (c.glyph_index as int) < glyphs.len() {
            contours_view(glyphs[c.glyph_index as int].contours@).map_values(
                |q: Seq<Point>| transformed_contour(q, c.transformation),
            )
        } else {
            Seq::empty()
        };
        assert(decomposed(cs, glyphs) == d0 + added);
        assert(d0.len() == brought_contours(init, glyphs, init.len() as int));
        assert forall|k: int, j: int|
            0 <= k < cs.len() && (cs[k].glyph_index as int) < glyphs.len() && 0 <= j
                < glyphs[cs[k].glyph_index as int].contours@.len() implies #[trigger] decomposed(cs, glyphs)[brought_contours(
                cs,
                glyphs,
                k,
            ) + j] == glyphs[cs[k].glyph_index as int].contours@[j]@.map_values(
                |p: Point| transformed(p, cs[k].transformation),
            ) by {
            let want = glyphs[cs[k].glyph_index as int].contours@[j]@.map_values(
                |p: Point| transformed(p, cs[k].transformation),
            );
            if k < n - 1 {
                assert(init[k] == cs[k]);
                lemma_brought_prefix(init, cs, glyphs, k);
                lemma_brought_mono(init, glyphs, k, k);
                lemma_brought_mono(init, glyphs, k + 1, init.len() as int);
                let idx = brought_contours(init, glyphs, k) + j;
                assert(brought_contours(init, glyphs, k + 1) == brought_contours(init, glyphs, k)
                    + glyphs[init[k].glyph_index as int].contours@.len());
                assert(idx < d0.len());
                assert(d0[idx] == want);
                assert((d0 + added)[idx] == d0[idx]);
            } else {
                assert(k == n - 1);
                assert(c == cs[k]);
                assert(brought_contours(cs, glyphs, k) == d0.len());
                assert(added.len() == glyphs[c.glyph_index as int].contours@.len());
                assert(contours_view(glyphs[c.glyph_index as int].contours@)[j]
                    == glyphs[c.glyph_index as int].contours@[j]@);
                assert(added[j] =~= want);
                assert((d0 + added)[d0.len() + j] == added[j]);
            }
        }
    }
}

proof fn lemma_brought_prefix(init: Seq<Component>, cs: Seq<Component>, glyphs: Seq<Glyph>, k: int)
    requires
        cs.len() > 0,
        init == cs.drop_last(),
        0 <= k <= init.len(),
    ensures
        brought_contours(init, glyphs, k) == brought_contours(cs, glyphs, k),
    decreases k,
{
    if k > 0 {
        lemma_brought_prefix(init, cs, glyphs, k - 1);
        assert(init.len() == cs.len() - 1);
        assert(init[k - 1] == cs[k - 1]);
    }
}

/// Decomposing a glyph keeps its own contours first, then brings in every
/// contour of each component's glyph (where `glyphs` has it), in order, each
/// point moved by the component's transformation: the contour count is the
/// glyph's own plus, for each such component, its glyph's.
pub proof fn lemma_decompose_contours(g: Glyph, glyphs: Seq<Glyph>)
    ensures
        ({
            let d = contours_view(g.contours@) + decomposed(g.components@, glyphs);
            let own = g.contours@.len() as int;
            let cs = g.components@;
            &&& d.len() == own + brought_contours(cs, glyphs, cs.len() as int)
            &&& forall|i: int| 0 <= i < own ==> #[trigger] d[i] == g.contours@[i]@
            &&& forall|k: int, j: int|
                0 <= k < cs.len() && (cs[k].glyph_index as int) < glyphs.len() && 0 <= j
                    < glyphs[cs[k].glyph_index as int].contours@.len() ==> #[trigger] d[own + brought_contours(
                    cs,
                    glyphs,
                    k,
                ) + j] == glyphs[cs[k].glyph_index as int].contours@[j]@.map_values(
                    |p: Point| transformed(p, cs[k].transformation),
                )
        }),
{
    let cs = g.components@;
    let own = g.contours@.len() as int;
    let base = contours_view(g.contours@);
    let d = base + decomposed(cs, glyphs);
    lemma_decomposed_shape(cs, glyphs);
    assert forall|k: int, j: int|
        0 <= k < cs.len() && (cs[k].glyph_index as int) < glyphs.len() && 0 <= j
            < glyphs[cs[k].glyph_index as int].contours@.len() implies #[trigger] d[own + brought_contours(
            cs,
            glyphs,
            k,
        ) + j] == glyphs[cs[k].glyph_index as int].contours@[j]@.map_values(
            |p: Point| transformed(p, cs[k].transformation),
        ) by {
        lemma_brought_mono(cs, glyphs, k, k);
        lemma_brought_mono(cs, glyphs, k + 1, cs.len() as int);
        assert(decomposed(cs, glyphs)[brought_contours(cs, glyphs, k) + j] == glyphs[cs[k].glyph_index as int].contours@[j]@.map_values(
            |p: Point| transformed(p, cs[k].transformation),
        ));
    }
}

fn copy_contour(c: &Vec<Point>) -> (r: Vec<Point>)
    ensures
        r@ == c@,
{
    let mut out: Vec<Point> = Vec::new();
    let mut i: usize = 0;
    while i < c.len()
        invariant
            i <= c@.len(),
            out@ == c@.take(i as int),
        decreases c@.len() - i,
    {
        out.push(c[i]);
        assert(out@ =~= c@.take(i + 1));
        i = i + 1;
    }
    assert(c@.take(i as int) =~= c@);
    out
}

fn transform_contour(c: &Vec<Point>, t: Transform) -> (r: Vec<Point>)
    ensures
        r@ == transformed_contour(c@, t),
{
    let mut out: Vec<Point> = Vec::new();
    let mut i: usize = 0;
    while i < c.len()
        invariant
            i <= c@.len(),
            out@ == transformed_contour(c@.take(i as int), t),
        decreases c@.len() - i,
    {
        out.push(c[i].transform(t));
        assert(out@ =~= transformed_contour(c@.take(i + 1), t));
        i = i + 1;
    }
    assert(c@.take(i as int) =~= c@);
    out
}

proof fn lemma_flat_take(cs: Seq<Seq<Point>>, i: int)
    requires
        0 <= i < cs.len(),
    ensures
        flat(cs.take(i + 1)) == flat(cs.take(i)) + cs[i],
{
    assert(cs.take(i + 1).drop_last() == cs.take(i));
}

proof fn lemma_flat_prefix_len(cs: Seq<Seq<Point>>, i: int)
    requires
        0 <= i <= cs.len(),
    ensures
        flat(cs.take(i)).len() <= flat(cs).len(),
    decreases cs.len() - i,
{
    if i < cs.len() {
        lemma_flat_prefix_len(cs, i + 1);
        lemma_flat_take(cs, i);
    } else {
        assert(cs.take(i) == cs);
    }
}

/// The first contour's points come first.
proof fn lemma_flat_first(cs: Seq<Seq<Point>>, i: int)
    requires
        1 <= i <= cs.len(),
    ensures
        flat(cs.take(i)).len() >= cs[0].len(),
    decreases i,
{
    if i == 1 {
        lemma_flat_take(cs, 0);
        assert(cs.take(0) == Seq::<Seq<Point>>::empty());
    } else {
        lemma_flat_first(cs, i - 1);
        lemma_flat_take(cs, i - 1);
    }
}

} // verus!
