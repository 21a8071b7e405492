//! TrueType outline glyphs and their binary form.
use crate::binary::{
    be16, be16_seq, bei16, push_bytes, push_i16, push_u16, push_u16_slice,
};
use crate::glyf::component::{
    component_flags, Component, Transform, ARGS_ARE_XY_VALUES, ARG_1_AND_2_ARE_WORDS,
    MORE_COMPONENTS, USER_FLAGS, WE_HAVE_AN_X_AND_Y_SCALE, WE_HAVE_A_SCALE, WE_HAVE_A_TWO_BY_TWO,
    WE_HAVE_INSTRUCTIONS,
};
use vstd::prelude::*;

verus! {

pub const ON_CURVE_POINT: u8 = 0x01u8;

pub const X_SHORT_VECTOR: u8 = 0x02u8;

pub const Y_SHORT_VECTOR: u8 = 0x04u8;

pub const REPEAT_FLAG: u8 = 0x08u8;

pub const X_IS_SAME_OR_POSITIVE_X_SHORT_VECTOR: u8 = 0x10u8;

pub const Y_IS_SAME_OR_POSITIVE_Y_SHORT_VECTOR: u8 = 0x20u8;

pub const OVERLAP_SIMPLE: u8 = 0x40u8;

/// A point of a TrueType contour.
#[derive(Debug, PartialEq, Copy, Clone)]
pub struct Point {
    pub x: i16,
    pub y: i16,
    pub on_curve: bool,
}

/// A higher-level representation of a TrueType outline glyph.
#[derive(Debug, PartialEq, Clone)]
pub struct Glyph {
    /// The minimum X coordinate of points (including transformed component points) within this glyph
    pub xMin: i16,
    /// The maximum X coordinate of points (including transformed component points) within this glyph
    pub xMax: i16,
    /// The minimum Y coordinate of points (including transformed component points) within this glyph
    pub yMin: i16,
    /// The maximum Y coordinate of points (including transformed component points) within this glyph
    pub yMax: i16,
    /// A list of contours, each contour represented as a list of `Point` objects.
    pub contours: Vec<Vec<Point>>,
    /// Truetype instructions (binary)
    pub instructions: Vec<u8>,
    /// A vector of components
    pub components: Vec<Component>,
    /// A flag used in the low-level glyph representation to determine if this
    /// glyph has overlaps. This *appears* to be unused in OpenType implementations.
    pub overlap: bool,
}

/// What a glyph holds, in mathematical form.
pub struct GlyphData {
    pub x_min: i16,
    pub y_min: i16,
    pub x_max: i16,
    pub y_max: i16,
    pub contours: Seq<Seq<Point>>,
    pub instructions: Seq<u8>,
    pub components: Seq<Component>,
    pub overlap: bool,
}

impl View for Glyph {
    type V = GlyphData;

    open spec fn view(&self) -> GlyphData {
        GlyphData {
            x_min: self.xMin,
            y_min: self.yMin,
            x_max: self.xMax,
            y_max: self.yMax,
            contours: contours_view(self.contours@),
            instructions: self.instructions@,
            components: self.components@,
            overlap: self.overlap,
        }
    }
}

pub open spec fn contours_view(c: Seq<Vec<Point>>) -> Seq<Seq<Point>> {
    c.map_values(|v: Vec<Point>| v@)
}

/// All the points of `cs`, contour after contour.
pub open spec fn flat(cs: Seq<Seq<Point>>) -> Seq<Point>
    decreases cs.len(),
{
    if cs.len() == 0 {
        Seq::empty()
    } else {
        flat(cs.drop_last()) + cs.last()
    }
}

/// The index of the last point of each contour (65535 for an empty first contour).
pub open spec fn end_points_of(cs: Seq<Seq<Point>>) -> Seq<u16> {
    Seq::new(
        cs.len(),
        |i: int|
            {
                let t = flat(cs.take(i + 1)).len();
                if t == 0 { 65535u16 } else { (t - 1) as u16 }
            },
    )
}

/// The point before point `i` of `pts`, the first counting from the origin.
pub open spec fn prev_x(pts: Seq<Point>, i: int) -> int {
    if i == 0 { 0 } else { pts[i - 1].x as int }
}

pub open spec fn prev_y(pts: Seq<Point>, i: int) -> int {
    if i == 0 { 0 } else { pts[i - 1].y as int }
}

/// The flag bits for one coordinate difference: "same" for zero, "short" (with
/// "positive") for a difference within ±255, nothing for a two-byte difference.
pub open spec fn axis_flag(d: int, short_bit: int, same_bit: int) -> int {
    if d == 0 {
        same_bit
    } else if -255 <= d <= 255 {
        if d > 0 { short_bit + same_bit } else { short_bit }
    } else {
        0
    }
}

/// The flag byte of point `i`.
pub open spec fn point_flag(pts: Seq<Point>, i: int) -> u8 {
    ((if pts[i].on_curve { 1int } else { 0 }) + axis_flag(pts[i].x - prev_x(pts, i), 2, 16)
        + axis_flag(pts[i].y - prev_y(pts, i), 4, 32)) as u8
}

/// The bytes of one coordinate difference.
pub open spec fn coord_bytes(d: int) -> Seq<u8> {
    if d == 0 {
        Seq::empty()
    } else if -255 <= d <= 255 {
        seq![(if d > 0 { d } else { -d }) as u8]
    } else {
        bei16(d as i16)
    }
}

pub open spec fn flags_bytes(pts: Seq<Point>, n: int) -> Seq<u8>
    decreases n,
{
    if n <= 0 { Seq::empty() } else { flags_bytes(pts, n - 1).push(point_flag(pts, n - 1)) }
}

pub open spec fn xs_bytes(pts: Seq<Point>, n: int) -> Seq<u8>
    decreases n,
{
    if n <= 0 {
        Seq::empty()
    } else {
        xs_bytes(pts, n - 1) + coord_bytes(pts[n - 1].x - prev_x(pts, n - 1))
    }
}

pub open spec fn ys_bytes(pts: Seq<Point>, n: int) -> Seq<u8>
    decreases n,
{
    if n <= 0 {
        Seq::empty()
    } else {
        ys_bytes(pts, n - 1) + coord_bytes(pts[n - 1].y - prev_y(pts, n - 1))
    }
}

/// Every coordinate differs from the one before by an amount that fits in 16 bits.
pub open spec fn deltas_fit(pts: Seq<Point>) -> bool {
    forall|i: int|
        0 <= i < pts.len() ==> -32768 <= #[trigger] pts[i].x - prev_x(pts, i) <= 32767 && -32768
            <= pts[i].y - prev_y(pts, i) <= 32767
}

/// The byte of an 8-bit argument.
pub open spec fn byte_of(v: int) -> u8 {
    if v < 0 { (v + 256) as u8 } else { v as u8 }
}

/// The arguments of a component: offsets or point numbers, as words or bytes.
pub open spec fn component_args(c: Component, f: u16) -> Seq<u8> {
    if f & ARGS_ARE_XY_VALUES != 0 {
        if f & ARG_1_AND_2_ARE_WORDS != 0 {
            bei16(c.transformation.translate_x) + bei16(c.transformation.translate_y)
        } else {
            seq![byte_of(c.transformation.translate_x as int), byte_of(c.transformation.translate_y as int)]
        }
    } else {
        let (x, y) = c.match_points.unwrap();
        if f & ARG_1_AND_2_ARE_WORDS != 0 {
            be16(x) + be16(y)
        } else {
            seq![x as u8, y as u8]
        }
    }
}

/// The matrix entries a component stores for flags `f`.
pub open spec fn component_scales(t: Transform, f: u16) -> Seq<u8> {
    if f & WE_HAVE_A_TWO_BY_TWO != 0 {
        bei16(t.x_scale) + bei16(t.scale01) + bei16(t.scale10) + bei16(t.y_scale)
    } else if f & WE_HAVE_AN_X_AND_Y_SCALE != 0 {
        bei16(t.x_scale) + bei16(t.y_scale)
    } else if f & WE_HAVE_A_SCALE != 0 {
        bei16(t.x_scale)
    } else {
        Seq::empty()
    }
}

/// The bytes of component `c` written with flags `f`, followed by the glyph's
/// instructions where `f` says they follow.
pub open spec fn component_bytes(c: Component, f: u16, ins: Seq<u8>) -> Seq<u8> {
    be16(f) + be16(c.glyph_index) + component_args(c, f) + component_scales(c.transformation, f) + (
    if f & WE_HAVE_INSTRUCTIONS != 0 {
        be16(ins.len() as u16) + ins
    } else {
        Seq::empty()
    })
}

/// The bytes of the first `n` components of a glyph with `cs.len()` components.
pub open spec fn components_bytes(cs: Seq<Component>, ins: Seq<u8>, n: int) -> Seq<u8>
    decreases n,
{
    if n <= 0 {
        Seq::empty()
    } else {
        components_bytes(cs, ins, n - 1) + component_bytes(
            cs[n - 1],
            component_flags(cs[n - 1], n - 1 < cs.len() - 1, ins.len() > 0),
            ins,
        )
    }
}

/// The bytes of a simple glyph after its header.
pub open spec fn simple_body(cs: Seq<Seq<Point>>, ins: Seq<u8>) -> Seq<u8> {
    let pts = flat(cs);
    be16_seq(end_points_of(cs)) + be16(ins.len() as u16) + ins + flags_bytes(pts, pts.len() as int)
        + xs_bytes(pts, pts.len() as int) + ys_bytes(pts, pts.len() as int)
}

/// The bytes of a glyph: nothing for an empty glyph; otherwise the contour count
/// (-1 for a composite), the bounds, and the components or the outline.
pub open spec fn glyph_encoding(g: Glyph) -> Seq<u8> {
    if g.components@.len() == 0 && g.contours@.len() == 0 {
        Seq::empty()
    } else {
        let nc: i16 = if g.components@.len() > 0 { -1i16 } else { g.contours@.len() as i16 };
        bei16(nc) + bei16(g.xMin) + bei16(g.yMin) + bei16(g.xMax) + bei16(g.yMax) + (
        if g.components@.len() > 0 {
            components_bytes(g.components@, g.instructions@, g.components@.len() as int)
        } else {
            simple_body(contours_view(g.contours@), g.instructions@)
        })
    }
}

/// What writing a glyph needs: counts that fit their fields and, for an outline,
/// coordinate differences that fit 16 bits.
pub open spec fn glyph_writable(g: Glyph) -> bool {
    &&& g.contours@.len() <= 32767
    &&& g.instructions@.len() <= 65535
    &&& flat(contours_view(g.contours@)).len() <= 32767
    &&& (g.components@.len() == 0 ==> deltas_fit(flat(contours_view(g.contours@))))
}

proof fn lemma_flat_take(cs: Seq<Seq<Point>>, i: int)
    requires
        0 <= i < cs.len(),
    ensures
        flat(cs.take(i + 1)) == flat(cs.take(i)) + cs[i],
{
    assert(cs.take(i + 1).drop_last() == cs.take(i));
}

proof fn lemma_flat_len_mono(cs: Seq<Seq<Point>>, i: int)
    requires
        0 <= i <= cs.len(),
    ensures
        flat(cs.take(i)).len() <= flat(cs).len(),
    decreases cs.len() - i,
{
    if i < cs.len() {
        lemma_flat_len_mono(cs, i + 1);
        lemma_flat_take(cs, i);
    } else {
        assert(cs.take(i) == cs);
    }
}


/// Offsets are written exactly when the component has no matching points.
proof fn lemma_xy_flag(c: Component, more: bool, instructions: bool)
    ensures
        (component_flags(c, more, instructions) & ARGS_ARE_XY_VALUES != 0) <==> c.match_points is None,
{
    let cf = c.flags;
    let f0 = cf & USER_FLAGS;
    assert(f0 & 2 == 0) by (bit_vector)
        requires
            f0 == cf & 0x1e04u16,
    ;
    let f1 = if more {
        f0 | MORE_COMPONENTS
    } else if instructions {
        f0 | WE_HAVE_INSTRUCTIONS
    } else {
        f0
    };
    assert(f1 & 2 == 0) by (bit_vector)
        requires
            f0 & 2 == 0,
            f1 == f0 || f1 == f0 | 0x20u16 || f1 == f0 | 0x100u16,
    ;
    let t = c.transformation;
    let f2 = match c.match_points {
        Some((x, y)) => if !(x <= 255 && y <= 255) {
            f1 | ARG_1_AND_2_ARE_WORDS
        } else {
            f1
        },
        None => {
            let g = f1 | ARGS_ARE_XY_VALUES;
            if !(-128 <= t.translate_x <= 127 && -128 <= t.translate_y <= 127) {
                g | ARG_1_AND_2_ARE_WORDS
            } else {
                g
            }
        },
    };
    let r = component_flags(c, more, instructions);
    assert(r == f2 || r == f2 | 0x80u16 || r == f2 | 0x40u16 || r == f2 | 8u16);
    if c.match_points is None {
        assert(f2 & 2 != 0) by (bit_vector)
            requires
                f2 == f1 | 2u16 || f2 == (f1 | 2u16) | 1u16,
        ;
        assert(r & 2 != 0) by (bit_vector)
            requires
                f2 & 2 != 0,
                r == f2 || r == f2 | 0x80u16 || r == f2 | 0x40u16 || r == f2 | 8u16,
        ;
    } else {
        assert(f2 & 2 == 0) by (bit_vector)
            requires
                f1 & 2 == 0,
                f2 == f1 || f2 == f1 | 1u16,
        ;
        assert(r & 2 == 0) by (bit_vector)
            requires
                f2 & 2 == 0,
                r == f2 || r == f2 | 0x80u16 || r == f2 | 0x40u16 || r == f2 | 8u16,
        ;
    }
}

/// Append the arguments of `comp` as flags `f` lay them out.
fn write_component_args(out: &mut Vec<u8>, comp: &Component, f: u16, more: bool, instructions: bool)
    requires
        f == component_flags(*comp, more, instructions),
    ensures
        final(out)@ == old(out)@ + component_args(*comp, f),
{
    let t = comp.transformation;
    proof {
        lemma_xy_flag(*comp, more, instructions);
    }
    if f & ARGS_ARE_XY_VALUES != 0 {
        if f & ARG_1_AND_2_ARE_WORDS != 0 {
            push_i16(out, t.translate_x);
            push_i16(out, t.translate_y);
        } else {
            out.push(signed_byte(t.translate_x));
            out.push(signed_byte(t.translate_y));
        }
    } else {
        let (x, y) = comp.match_points.unwrap();
        if f & ARG_1_AND_2_ARE_WORDS != 0 {
            push_u16(out, x);
            push_u16(out, y);
        } else {
            out.push(x as u8);
            out.push(y as u8);
        }
    }
}

/// The byte that holds `v` as a signed 8-bit value (for -128..=127).
fn signed_byte(v: i16) -> (r: u8)
    ensures
        r == byte_of(v as int),
{
    if v < 0 {
        (v as i32 + 256) as u8
    } else {
        v as u8
    }
}

/// Append the matrix entries that flags `f` call for.
fn write_component_scales(out: &mut Vec<u8>, t: Transform, f: u16)
    ensures
        final(out)@ == old(out)@ + component_scales(t, f),
{
    if f & WE_HAVE_A_TWO_BY_TWO != 0 {
        push_i16(out, t.x_scale);
        push_i16(out, t.scale01);
        push_i16(out, t.scale10);
        push_i16(out, t.y_scale);
    } else if f & WE_HAVE_AN_X_AND_Y_SCALE != 0 {
        push_i16(out, t.x_scale);
        push_i16(out, t.y_scale);
    } else if f & WE_HAVE_A_SCALE != 0 {
        push_i16(out, t.x_scale);
    }
}

/// Append component `comp` written with flags `f`, and the instructions if `f` says so.
fn write_component(
    out: &mut Vec<u8>,
    comp: &Component,
    f: u16,
    more: bool,
    instructions: bool,
    ins: &Vec<u8>,
)
    requires
        f == component_flags(*comp, more, instructions),
        ins@.len() <= 65535,
    ensures
        final(out)@ == old(out)@ + component_bytes(*comp, f, ins@),
{
    push_u16(out, f);
    push_u16(out, comp.glyph_index);
    write_component_args(out, comp, f, more, instructions);
    write_component_scales(out, comp.transformation, f);
    if f & WE_HAVE_INSTRUCTIONS != 0 {
        push_u16(out, ins.len() as u16);
        push_bytes(out, ins.as_slice());
    }
}

impl Glyph {
    pub fn has_components(&self) -> (r: bool)
        ensures
            r == (self.components@.len() > 0),
    {
        self.components.len() > 0
    }

    pub fn is_empty(&self) -> (r: bool)
        ensures
            r == (self.components@.len() == 0 && self.contours@.len() == 0),
    {
        self.components.len() == 0 && self.contours.len() == 0
    }

    /// All points, contour after contour.
    pub fn flat_points(&self) -> (r: Vec<Point>)
        ensures
            r@ == flat(contours_view(self.contours@)),
    {
        let ghost cs = contours_view(self.contours@);
        let mut out: Vec<Point> = Vec::new();
        let mut i: usize = 0;
        while i < self.contours.len()
            invariant
                cs == contours_view(self.contours@),
                i <= cs.len(),
                out@ == flat(cs.take(i as int)),
            decreases self.contours.len() - i,
        {
            let c = &self.contours[i];
            let ghost before = out@;
            let mut j: usize = 0;
            while j < c.len()
                invariant
                    j <= c@.len(),
                    out@ == before + c@.take(j as int),
                decreases c.len() - j,
            {
                out.push(c[j]);
                assert(c@.take(j + 1) == c@.take(j as int).push(c@[j as int]));
                j = j + 1;
            }
            proof {
                lemma_flat_take(cs, i as int);
                assert(c@.take(j as int) == c@);
                assert(cs[i as int] == c@);
            }
            i = i + 1;
        }
        assert(cs.take(i as int) == cs);
        out
    }

    /// The index of the last point of each contour.
    pub fn end_points(&self) -> (r: Vec<u16>)
        requires
            flat(contours_view(self.contours@)).len() <= 32767,
        ensures
            r@ == end_points_of(contours_view(self.contours@)),
    {
        let ghost cs = contours_view(self.contours@);
        let mut count: i16 = -1;
        let mut end_points: Vec<u16> = Vec::new();
        let mut i: usize = 0;
        while i < self.contours.len()
            invariant
                cs == contours_view(self.contours@),
                flat(cs).len() <= 32767,
                i <= cs.len(),
                count == flat(cs.take(i as int)).len() - 1,
                end_points@ == end_points_of(cs).take(i as int),
            decreases self.contours.len() - i,
        {
            proof {
                lemma_flat_take(cs, i as int);
                lemma_flat_len_mono(cs, i + 1);
                assert(cs[i as int] == self.contours@[i as int]@);
            }
            count = count + self.contours[i].len() as i16;
            if count < 0 {
                end_points.push(65535);
            } else {
                end_points.push(count as u16);
            }
            assert(end_points_of(cs).take(i + 1) == end_points_of(cs).take(i as int).push(
                end_points_of(cs)[i as int],
            ));
            i = i + 1;
        }
        assert(end_points_of(cs).take(i as int) == end_points_of(cs));
        end_points
    }

    /// The flags and the x and y coordinate streams of an outline, one flag per
    /// point and no repeated flags.
    fn compile_deltas_greedy(&self) -> (r: (Vec<u8>, Vec<u8>, Vec<u8>))
        requires
            deltas_fit(flat(contours_view(self.contours@))),
        ensures
            ({
                let pts = flat(contours_view(self.contours@));
                &&& r.0@ == flags_bytes(pts, pts.len() as int)
                &&& r.1@ == xs_bytes(pts, pts.len() as int)
                &&& r.2@ == ys_bytes(pts, pts.len() as int)
            }),
    {
        let pts = self.flat_points();
        let ghost p = pts@;
        let mut last_x: i16 = 0;
        let mut last_y: i16 = 0;
        let mut compressed_flags: Vec<u8> = Vec::new();
        let mut compressed_xs: Vec<u8> = Vec::new();
        let mut compressed_ys: Vec<u8> = Vec::new();
        let mut i: usize = 0;
        while i < pts.len()
            invariant
                p == pts@,
                deltas_fit(p),
                i <= p.len(),
                last_x == prev_x(p, i as int),
                last_y == prev_y(p, i as int),
                compressed_flags@ == flags_bytes(p, i as int),
                compressed_xs@ == xs_bytes(p, i as int),
                compressed_ys@ == ys_bytes(p, i as int),
            decreases p.len() - i,
        {
            let point = pts[i];
            assert(-32768 <= p[i as int].x - prev_x(p, i as int) <= 32767);
            let mut x: i16 = point.x - last_x;
            let mut y: i16 = point.y - last_y;
            let mut flag: u8 = if point.on_curve { ON_CURVE_POINT } else { 0 };
            if x == 0 {
                flag = flag + X_IS_SAME_OR_POSITIVE_X_SHORT_VECTOR;
            } else if -255 <= x && x <= 255 {
                flag = flag + X_SHORT_VECTOR;
                if x > 0 {
                    flag = flag + X_IS_SAME_OR_POSITIVE_X_SHORT_VECTOR;
                } else {
                    x = -x;
                }
                compressed_xs.push(x as u8);
            } else {
                push_i16(&mut compressed_xs, x);
            }
            if y == 0 {
                flag = flag + Y_IS_SAME_OR_POSITIVE_Y_SHORT_VECTOR;
            } else if -255 <= y && y <= 255 {
                flag = flag + Y_SHORT_VECTOR;
                if y > 0 {
                    flag = flag + Y_IS_SAME_OR_POSITIVE_Y_SHORT_VECTOR;
                } else {
                    y = -y;
                }
                compressed_ys.push(y as u8);
            } else {
                push_i16(&mut compressed_ys, y);
            }
            compressed_flags.push(flag);
            last_x = point.x;
            last_y = point.y;
            i = i + 1;
        }
        (compressed_flags, compressed_xs, compressed_ys)
    }

    /// The glyph in binary form (nothing for an empty glyph).
    pub fn to_bytes(&self) -> (r: Vec<u8>)
        requires
            glyph_writable(*self),
        ensures
            r@ == glyph_encoding(*self),
    {
        let mut out: Vec<u8> = Vec::new();
        if self.is_empty() {
            return out;
        }
        let nc: i16 = if self.has_components() { -1 } else { self.contours.len() as i16 };
        push_i16(&mut out, nc);
        push_i16(&mut out, self.xMin);
        push_i16(&mut out, self.yMin);
        push_i16(&mut out, self.xMax);
        push_i16(&mut out, self.yMax);
        let ghost head = out@;
        if self.has_components() {
            let n = self.components.len();
            let has_instructions = self.instructions.len() > 0;
            let mut i: usize = 0;
            while i < n
                invariant
                    n == self.components@.len(),
                    has_instructions == (self.instructions@.len() > 0),
                    self.instructions@.len() <= 65535,
                    i <= n,
                    out@ == head + components_bytes(self.components@, self.instructions@, i as int),
                decreases n - i,
            {
                let comp = &self.components[i];
                let flags = comp.recompute_flags(i < n - 1, has_instructions);
                let ghost before = out@;
                write_component(&mut out, comp, flags, i < n - 1, has_instructions, &self.instructions);
                assert(components_bytes(self.components@, self.instructions@, i + 1)
                    == components_bytes(self.components@, self.instructions@, i as int)
                    + component_bytes(self.components@[i as int], flags, self.instructions@));
                i = i + 1;
            }
        } else {
            let end_pts_of_contour = self.end_points();
            push_u16_slice(&mut out, end_pts_of_contour.as_slice());
            push_u16(&mut out, self.instructions.len() as u16);
            push_bytes(&mut out, self.instructions.as_slice());
            let (compressed_flags, compressed_xs, compressed_ys) = self.compile_deltas_greedy();
            push_bytes(&mut out, compressed_flags.as_slice());
            push_bytes(&mut out, compressed_xs.as_slice());
            push_bytes(&mut out, compressed_ys.as_slice());
        }
        out
    }
}

} // verus!
