//! Reading back a written composite glyph gives its components, with the flags
//! that writing gave them.
use crate::binary::{
    be16, bei16, i16_at, i16_of_bits, i8_of_byte, lemma_i16_bits_roundtrip, lemma_read_be16,
    lemma_read_bei16, u16_at,
};
use crate::glyf::component::{component_flags, Component, Transform, F2DOT14_ONE};
use crate::glyf::glyph::{
    byte_of, component_args, component_bytes, component_scales, components_bytes, glyph_encoding,
    glyph_writable, Glyph, GlyphData,
};
use crate::glyf::reading::{
    any_component_flag, args_len, component_at, component_len, components_at, composite_glyph_at, glyph_at,
    instructions_at, scales_len, then_prepend, transform_at, Reading,
};
use crate::glyf::roundtrip::{lemma_read_i16_window, lemma_read_instructions, lemma_window, window};
use vstd::prelude::*;

verus! {

/// The "more components" or "instructions follow" bit that writing sets.
pub open spec fn flag_m(more: bool, instructions: bool) -> u16 {
    if more {
        0x20
    } else if instructions {
        0x100
    } else {
        0
    }
}

/// The "offsets" bit: set unless the component is placed by point numbers.
pub open spec fn flag_x(c: Component) -> u16 {
    if c.match_points is Some {
        0
    } else {
        2
    }
}

/// The "word arguments" bit.
pub open spec fn flag_w(c: Component) -> u16 {
    match c.match_points {
        Some((a, b)) => if !(a <= 255 && b <= 255) {
            1
        } else {
            0
        },
        None => if !(-128 <= c.transformation.translate_x <= 127 && -128 <= c.transformation.translate_y
            <= 127) {
            1
        } else {
            0
        },
    }
}

/// The matrix bit: a full matrix, separate scales, one scale, or none.
pub open spec fn flag_s(t: Transform) -> u16 {
    if t.scale01 != 0 || t.scale10 != 0 {
        0x80
    } else if t.x_scale != t.y_scale {
        0x40
    } else if t.x_scale != F2DOT14_ONE {
        8
    } else {
        0
    }
}

proof fn lemma_or_zero(v: u16)
    by (bit_vector)
    ensures
        v | 0 == v,
{
}

proof fn lemma_chain_bits(cf: u16, m: u16, x: u16, w: u16, s: u16, f: u16)
    by (bit_vector)
    requires
        m == 0 || m == 0x20 || m == 0x100,
        x == 0 || x == 2,
        w == 0 || w == 1,
        s == 0 || s == 8 || s == 0x40 || s == 0x80,
        f == ((((cf & 0x1e04) | m) | x) | w) | s,
    ensures
        (f & 0x20 != 0) == (m == 0x20),
        (f & 0x100 != 0) == (m == 0x100),
        (f & 2 != 0) == (x == 2),
        (f & 1 != 0) == (w == 1),
        (f & 8 != 0) == (s == 8),
        (f & 0x40 != 0) == (s == 0x40),
        (f & 0x80 != 0) == (s == 0x80),
        (f & 0x400 != 0) == (cf & 0x400 != 0),
{
}

/// What the flags written for a component say.
pub proof fn lemma_component_flag_bits(c: Component, more: bool, instructions: bool)
    ensures
        ({
            let f = component_flags(c, more, instructions);
            &&& (f & 0x20 != 0) == more
            &&& (f & 0x100 != 0) == (!more && instructions)
            &&& (f & 2 != 0) == (c.match_points is None)
            &&& (f & 1 != 0) == (flag_w(c) == 1)
            &&& (f & 8 != 0) == (flag_s(c.transformation) == 8)
            &&& (f & 0x40 != 0) == (flag_s(c.transformation) == 0x40)
            &&& (f & 0x80 != 0) == (flag_s(c.transformation) == 0x80)
            &&& (f & 0x400 != 0) == (c.flags & 0x400 != 0)
        }),
{
    let f0 = c.flags & 0x1e04;
    let m = flag_m(more, instructions);
    let x = flag_x(c);
    let w = flag_w(c);
    let s = flag_s(c.transformation);
    lemma_or_zero(f0);
    lemma_or_zero(f0 | m);
    lemma_or_zero((f0 | m) | x);
    lemma_or_zero(((f0 | m) | x) | w);
    assert(component_flags(c, more, instructions) == ((((f0 | m) | x) | w) | s));
    lemma_chain_bits(c.flags, m, x, w, s, component_flags(c, more, instructions));
}

/// The component that reading back a written one gives: the flags that writing
/// gives it, and no offset where it is placed by point numbers.
pub open spec fn written_component(c: Component, more: bool, instructions: bool) -> Component {
    Component {
        flags: component_flags(c, more, instructions),
        transformation: if c.match_points is Some {
            Transform { translate_x: 0, translate_y: 0, ..c.transformation }
        } else {
            c.transformation
        },
        ..c
    }
}

proof fn lemma_w16(d: Seq<u8>, p: int, w: Seq<u8>, k: int)
    requires
        window(d, p, w),
        0 <= k,
        k + 2 <= w.len(),
    ensures
        u16_at(d, p + k) == u16_at(w, k),
        i16_at(d, p + k) == i16_at(w, k),
{
    assert(d[p + k] == w[k]);
    assert(d[p + k + 1] == w[k + 1]);
}

/// A 16-bit value at byte `a.len()` of `a + be16(v) + b`.
proof fn lemma_at16(w: Seq<u8>, a: Seq<u8>, v: u16, b: Seq<u8>)
    requires
        w == a + be16(v) + b,
    ensures
        u16_at(w, a.len() as int) == v,
{
    lemma_read_be16(a, v, b);
}

proof fn lemma_ati16(w: Seq<u8>, a: Seq<u8>, v: i16, b: Seq<u8>)
    requires
        w == a + bei16(v) + b,
    ensures
        i16_at(w, a.len() as int) == v,
{
    lemma_read_bei16(a, v, b);
}

/// The matrix written for a transform reads back as it, offsets aside.
proof fn lemma_scales_read(d: Seq<u8>, p: int, t: Transform, f: u16, dx: i16, dy: i16)
    requires
        window(d, p, component_scales(t, f)),
        (f & 8 != 0) == (flag_s(t) == 8),
        (f & 0x40 != 0) == (flag_s(t) == 0x40),
        (f & 0x80 != 0) == (flag_s(t) == 0x80),
    ensures
        scales_len(f) == component_scales(t, f).len(),
        transform_at(d, p, f, dx, dy) == (Transform { translate_x: dx, translate_y: dy, ..t }),
{
    let sc = component_scales(t, f);
    let e = Seq::<u8>::empty();
    if flag_s(t) == 0x80 {
        assert(sc == bei16(t.x_scale) + bei16(t.scale01) + bei16(t.scale10) + bei16(t.y_scale));
        assert(sc =~= e + bei16(t.x_scale) + (bei16(t.scale01) + bei16(t.scale10) + bei16(t.y_scale)));
        lemma_ati16(sc, e, t.x_scale, bei16(t.scale01) + bei16(t.scale10) + bei16(t.y_scale));
        assert(sc =~= bei16(t.x_scale) + bei16(t.scale01) + (bei16(t.scale10) + bei16(t.y_scale)));
        lemma_ati16(sc, bei16(t.x_scale), t.scale01, bei16(t.scale10) + bei16(t.y_scale));
        lemma_ati16(sc, bei16(t.x_scale) + bei16(t.scale01), t.scale10, bei16(t.y_scale));
        assert(sc =~= bei16(t.x_scale) + bei16(t.scale01) + bei16(t.scale10) + bei16(t.y_scale) + e);
        lemma_ati16(sc, bei16(t.x_scale) + bei16(t.scale01) + bei16(t.scale10), t.y_scale, e);
        lemma_w16(d, p, sc, 0);
        lemma_w16(d, p, sc, 2);
        lemma_w16(d, p, sc, 4);
        lemma_w16(d, p, sc, 6);
    } else if flag_s(t) == 0x40 {
        assert(sc == bei16(t.x_scale) + bei16(t.y_scale));
        assert(sc =~= e + bei16(t.x_scale) + bei16(t.y_scale));
        lemma_ati16(sc, e, t.x_scale, bei16(t.y_scale));
        assert(sc =~= bei16(t.x_scale) + bei16(t.y_scale) + e);
        lemma_ati16(sc, bei16(t.x_scale), t.y_scale, e);
        lemma_w16(d, p, sc, 0);
        lemma_w16(d, p, sc, 2);
    } else if flag_s(t) == 8 {
        assert(sc == bei16(t.x_scale));
        assert(sc =~= e + bei16(t.x_scale) + e);
        lemma_ati16(sc, e, t.x_scale, e);
        lemma_w16(d, p, sc, 0);
    } else {
    }
}

/// The middle part of a window is a window.
proof fn lemma_subwindow(d: Seq<u8>, p: int, x: Seq<u8>, y: Seq<u8>, z: Seq<u8>)
    requires
        window(d, p, x + y + z),
    ensures
        window(d, p + x.len(), y),
        window(d, p, x),
{
    assert forall|j: int| 0 <= j < y.len() implies d[p + x.len() + j] == #[trigger] y[j] by {
        assert((x + y + z)[x.len() + j] == y[j]);
    }
    assert forall|j: int| 0 <= j < x.len() implies d[p + j] == #[trigger] x[j] by {
        assert((x + y + z)[j] == x[j]);
    }
}

/// The arguments written for a component read back: its point numbers, or its offsets.
#[verifier::spinoff_prover]
proof fn lemma_args_read(d: Seq<u8>, ap: int, c: Component, f: u16)
    requires
        window(d, ap, component_args(c, f)),
        (f & 2 != 0) == (c.match_points is None),
        (f & 1 != 0) == (flag_w(c) == 1),
    ensures
        args_len(f) == component_args(c, f).len(),
        c.match_points matches Some(mp) ==> mp == (if f & 1 != 0 {
            (u16_at(d, ap), u16_at(d, ap + 2))
        } else {
            (d[ap] as u16, d[ap + 1] as u16)
        }),
        c.match_points is None ==> c.transformation.translate_x == (if f & 1 != 0 {
            i16_at(d, ap)
        } else {
            i8_of_byte(d[ap])
        }) && c.transformation.translate_y == (if f & 1 != 0 {
            i16_at(d, ap + 2)
        } else {
            i8_of_byte(d[ap + 1])
        }),
{
    let t = c.transformation;
    let a = component_args(c, f);
    let e = Seq::<u8>::empty();
    match c.match_points {
        Some((x, y)) => {
            if f & 1 != 0 {
                assert(a == be16(x) + be16(y));
                assert(a =~= e + be16(x) + be16(y));
                lemma_at16(a, e, x, be16(y));
                assert(a =~= be16(x) + be16(y) + e);
                lemma_at16(a, be16(x), y, e);
                lemma_w16(d, ap, a, 0);
                lemma_w16(d, ap, a, 2);
            } else {
                assert(a == seq![x as u8, y as u8]);
                assert(d[ap] == a[0]);
                assert(d[ap + 1] == a[1]);
            }
        },
        None => {
            if f & 1 != 0 {
                assert(a == bei16(t.translate_x) + bei16(t.translate_y));
                assert(a =~= e + bei16(t.translate_x) + bei16(t.translate_y));
                lemma_ati16(a, e, t.translate_x, bei16(t.translate_y));
                assert(a =~= bei16(t.translate_x) + bei16(t.translate_y) + e);
                lemma_ati16(a, bei16(t.translate_x), t.translate_y, e);
                lemma_w16(d, ap, a, 0);
                lemma_w16(d, ap, a, 2);
            } else {
                assert(a == seq![byte_of(t.translate_x as int), byte_of(t.translate_y as int)]);
                assert(d[ap] == a[0]);
                assert(d[ap + 1] == a[1]);
            }
        },
    }
}

/// A written component reads back as the component that writing gives.
#[verifier::spinoff_prover]
proof fn lemma_component_read(d: Seq<u8>, pos: int, c: Component, more: bool, ins: Seq<u8>)
    requires
        window(d, pos, component_bytes(c, component_flags(c, more, ins.len() > 0), ins)),
    ensures
        component_at(d, pos) == Reading::Value(
            written_component(c, more, ins.len() > 0),
            pos + component_len(component_flags(c, more, ins.len() > 0)),
        ),
        component_len(component_flags(c, more, ins.len() > 0)) == 4 + component_args(
            c,
            component_flags(c, more, ins.len() > 0),
        ).len() + component_scales(c.transformation, component_flags(c, more, ins.len() > 0)).len(),
{
    let instr = ins.len() > 0;
    let f = component_flags(c, more, instr);
    lemma_component_flag_bits(c, more, instr);
    let t = c.transformation;
    let a = component_args(c, f);
    let sc = component_scales(t, f);
    let tail = if f & 0x100 != 0 {
        be16(ins.len() as u16) + ins
    } else {
        Seq::empty()
    };
    let w = component_bytes(c, f, ins);
    let e = Seq::<u8>::empty();
    let h = be16(f) + be16(c.glyph_index);
    assert(w == be16(f) + be16(c.glyph_index) + a + sc + tail);
    assert(w =~= e + be16(f) + (be16(c.glyph_index) + a + sc + tail));
    lemma_at16(w, e, f, be16(c.glyph_index) + a + sc + tail);
    assert(w =~= be16(f) + be16(c.glyph_index) + (a + sc + tail));
    lemma_at16(w, be16(f), c.glyph_index, a + sc + tail);
    lemma_w16(d, pos, w, 0);
    lemma_w16(d, pos, w, 2);
    assert(w =~= h + a + (sc + tail));
    lemma_subwindow(d, pos, h, a, sc + tail);
    assert(w =~= (h + a) + sc + tail);
    lemma_subwindow(d, pos, h + a, sc, tail);
    let ap = pos + 4;
    let sp = pos + 4 + a.len();
    lemma_args_read(d, ap, c, f);
    match c.match_points {
        Some(_) => {
            lemma_scales_read(d, sp, t, f, 0, 0);
        },
        None => {
            lemma_scales_read(d, sp, t, f, t.translate_x, t.translate_y);
            assert((Transform { translate_x: t.translate_x, translate_y: t.translate_y, ..t }) == t);
        },
    }
}

/// The components that reading back written ones gives.
pub open spec fn written_components(cs: Seq<Component>, instructions: bool) -> Seq<Component> {
    Seq::new(cs.len(), |i: int| written_component(cs[i], i < cs.len() - 1, instructions))
}

proof fn lemma_window_trans(d: Seq<u8>, p: int, w: Seq<u8>, q: int, x: Seq<u8>)
    requires
        window(d, p, w),
        window(w, q, x),
    ensures
        window(d, p + q, x),
{
    assert forall|j: int| 0 <= j < x.len() implies d[p + q + j] == #[trigger] x[j] by {
        assert(w[q + j] == x[j]);
    }
}

/// The bytes of the first `i` components begin those of the first `n`.
proof fn lemma_components_prefix(cs: Seq<Component>, ins: Seq<u8>, i: int, n: int)
    requires
        0 <= i <= n,
    ensures
        window(components_bytes(cs, ins, n), 0, components_bytes(cs, ins, i)),
    decreases n - i,
{
    if i < n {
        lemma_components_prefix(cs, ins, i, n - 1);
        let p = components_bytes(cs, ins, n - 1);
        let x = components_bytes(cs, ins, i);
        let w = components_bytes(cs, ins, n);
        assert forall|j: int| 0 <= j < x.len() implies w[0 + j] == #[trigger] x[j] by {
            assert(p[0 + j] == x[j]);
        }
    }
}

/// The written components from `i` on read back.
#[verifier::spinoff_prover]
proof fn lemma_components_read(d: Seq<u8>, base: int, cs: Seq<Component>, ins: Seq<u8>, i: int)
    requires
        window(d, base, components_bytes(cs, ins, cs.len() as int)),
        0 <= i < cs.len(),
    ensures
        components_at(d, base + components_bytes(cs, ins, i).len()) == Reading::Value(
            written_components(cs, ins.len() > 0).subrange(i, cs.len() as int),
            base + components_bytes(cs, ins, cs.len() - 1).len() + component_len(
                component_flags(cs.last(), false, ins.len() > 0),
            ),
        ),
    decreases cs.len() - i,
{
    let n = cs.len() as int;
    let instr = ins.len() > 0;
    let more = i < n - 1;
    let f = component_flags(cs[i], more, instr);
    let li = components_bytes(cs, ins, i);
    let cb = component_bytes(cs[i], f, ins);
    let wc = written_components(cs, instr);
    assert(components_bytes(cs, ins, i + 1) == li + cb);
    lemma_components_prefix(cs, ins, i + 1, n);
    lemma_window_trans(d, base, components_bytes(cs, ins, n), 0, li + cb);
    assert(li + cb =~= li + cb + Seq::<u8>::empty());
    lemma_subwindow(d, base, li, cb, Seq::empty());
    lemma_component_read(d, base + li.len(), cs[i], more, ins);
    lemma_component_flag_bits(cs[i], more, instr);
    assert(wc[i] == written_component(cs[i], more, instr));
    if more {
        lemma_components_read(d, base, cs, ins, i + 1);
        assert(cb.len() == component_len(f));
        assert(wc.subrange(i, n) =~= seq![wc[i]] + wc.subrange(i + 1, n));
    } else {
        assert(cs.last() == cs[i]);
        assert(wc.subrange(i, n) =~= seq![wc[i]]);
    }
}

/// The header of a written composite glyph, and where its components start.
#[verifier::spinoff_prover]
proof fn lemma_composite_header(g: Glyph)
    requires
        g.components@.len() >= 1,
    ensures
        ({
            let d = glyph_encoding(g);
            &&& d.len() >= 10
            &&& i16_at(d, 0) == -1
            &&& i16_at(d, 2) == g.xMin
            &&& i16_at(d, 4) == g.yMin
            &&& i16_at(d, 6) == g.xMax
            &&& i16_at(d, 8) == g.yMax
            &&& window(d, 10, components_bytes(g.components@, g.instructions@, g.components@.len() as int))
        }),
{
    let cs = g.components@;
    let ins = g.instructions@;
    let n = cs.len() as int;
    let e = Seq::<u8>::empty();
    let a0 = bei16(-1i16);
    let a1 = bei16(g.xMin);
    let a2 = bei16(g.yMin);
    let a3 = bei16(g.xMax);
    let a4 = bei16(g.yMax);
    let body = components_bytes(cs, ins, n);
    let d = glyph_encoding(g);
    assert(d == a0 + a1 + a2 + a3 + a4 + body);
    assert(d =~= e + a0 + (a1 + a2 + a3 + a4 + body));
    lemma_window(e, a0, a1 + a2 + a3 + a4 + body);
    lemma_read_i16_window(d, 0, -1i16);
    assert(d =~= a0 + a1 + (a2 + a3 + a4 + body));
    lemma_window(a0, a1, a2 + a3 + a4 + body);
    lemma_read_i16_window(d, 2, g.xMin);
    assert(d =~= a0 + a1 + a2 + (a3 + a4 + body));
    lemma_window(a0 + a1, a2, a3 + a4 + body);
    lemma_read_i16_window(d, 4, g.yMin);
    assert(d =~= a0 + a1 + a2 + a3 + (a4 + body));
    lemma_window(a0 + a1 + a2, a3, a4 + body);
    lemma_read_i16_window(d, 6, g.xMax);
    assert(d =~= a0 + a1 + a2 + a3 + a4 + body);
    lemma_window(a0 + a1 + a2 + a3, a4, body);
    lemma_read_i16_window(d, 8, g.yMax);
    assert(d =~= (a0 + a1 + a2 + a3 + a4) + body + e);
    lemma_window(a0 + a1 + a2 + a3 + a4, body, e);
}

/// Which written components say that instructions follow, or that they overlap.
#[verifier::spinoff_prover]
proof fn lemma_written_flags(cs: Seq<Component>, instr: bool)
    requires
        cs.len() >= 1,
    ensures
        any_component_flag(written_components(cs, instr), 0x400) == any_component_flag(cs, 0x400),
        any_component_flag(written_components(cs, instr), 0x100) == instr,
{
    let n = cs.len() as int;
    let wc = written_components(cs, instr);
    assert forall|i: int| 0 <= i < n implies (#[trigger] wc[i].flags & 0x100 != 0) == (i == n - 1 && instr)
        && (wc[i].flags & 0x400 != 0) == (cs[i].flags & 0x400 != 0) by {
        lemma_component_flag_bits(cs[i], i < n - 1, instr);
    }
    if any_component_flag(wc, 0x400) {
        let i = choose|i: int| 0 <= i < wc.len() && #[trigger] wc[i].flags & 0x400 != 0;
        assert(cs[i].flags & 0x400 != 0);
    }
    if any_component_flag(cs, 0x400) {
        let i = choose|i: int| 0 <= i < cs.len() && #[trigger] cs[i].flags & 0x400 != 0;
        assert(wc[i].flags & 0x400 != 0);
    }
    if instr {
        assert(wc[n - 1].flags & 0x100 != 0);
    }
    if any_component_flag(wc, 0x100) {
        let i = choose|i: int| 0 <= i < wc.len() && #[trigger] wc[i].flags & 0x100 != 0;
    }
}

/// The instructions after the last written component read back.
#[verifier::spinoff_prover]
proof fn lemma_trailing_instructions(d: Seq<u8>, cs: Seq<Component>, ins: Seq<u8>)
    requires
        window(d, 10, components_bytes(cs, ins, cs.len() as int)),
        cs.len() >= 1,
        ins.len() > 0,
        ins.len() <= 32767,
    ensures
        instructions_at(
            d,
            10 + components_bytes(cs, ins, cs.len() - 1).len() + component_len(component_flags(cs.last(), false, true)),
        ) matches Reading::Value(v, _) && v == ins,
{
    let n = cs.len() as int;
    let fl = component_flags(cs.last(), false, true);
    let last = component_bytes(cs.last(), fl, ins);
    lemma_component_flag_bits(cs.last(), false, true);
    let core = be16(fl) + be16(cs.last().glyph_index) + component_args(cs.last(), fl) + component_scales(
        cs.last().transformation,
        fl,
    );
    assert(last == core + (be16(ins.len() as u16) + ins));
    assert(components_bytes(cs, ins, n) == components_bytes(cs, ins, n - 1) + last);
    assert(components_bytes(cs, ins, n) =~= components_bytes(cs, ins, n - 1) + last + Seq::<u8>::empty());
    lemma_subwindow(d, 10, components_bytes(cs, ins, n - 1), last, Seq::empty());
    let q = (10 + components_bytes(cs, ins, n - 1).len()) as int;
    lemma_component_read(d, q, cs.last(), false, ins);
    assert(last =~= core + (be16(ins.len() as u16) + ins) + Seq::<u8>::empty());
    lemma_subwindow(d, q, core, be16(ins.len() as u16) + ins, Seq::empty());
    lemma_read_instructions(d, q + core.len(), ins);
}

/// Writing a composite glyph and reading it back gives its bounds, its
/// instructions and its components, each with the flags that writing gave it
/// and no offset where it is placed by point numbers; for every writable glyph
/// with components and no outline whose instructions fit a signed count and
/// whose overlap mark is the one its components carry.
#[verifier::spinoff_prover]
pub proof fn lemma_composite_glyph_roundtrip(g: Glyph)
    requires
        glyph_writable(g),
        g.components@.len() >= 1,
        g.contours@.len() == 0,
        g.instructions@.len() <= 32767,
        g.overlap == any_component_flag(g.components@, 0x400),
    ensures
        glyph_at(glyph_encoding(g)) matches Reading::Value(v, _) && v == (GlyphData {
            components: written_components(g.components@, g.instructions@.len() > 0),
            ..g@
        }),
{
    let cs = g.components@;
    let ins = g.instructions@;
    let n = cs.len() as int;
    let instr = ins.len() > 0;
    let wc = written_components(cs, instr);
    let d = glyph_encoding(g);
    lemma_composite_header(g);
    lemma_components_read(d, 10, cs, ins, 0);
    assert(components_bytes(cs, ins, 0).len() == 0);
    assert(wc.subrange(0, n) =~= wc);
    lemma_written_flags(cs, instr);
    if instr {
        lemma_trailing_instructions(d, cs, ins);
    } else {
        assert(ins =~= Seq::<u8>::empty());
    }
    assert(g@.contours =~= Seq::<Seq<crate::glyf::glyph::Point>>::empty());
}

} // verus!
