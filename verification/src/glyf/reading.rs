//! Reading glyphs from their binary form.
use crate::binary::{
    i16_at, i8_of_byte, read_bytes, read_i16, read_u16, read_u16_vec, u16_at, DeserializationError,
};
use crate::glyf::component::{
    Component, Transform, ARGS_ARE_XY_VALUES, ARG_1_AND_2_ARE_WORDS, F2DOT14_ONE,
    MORE_COMPONENTS, OVERLAP_COMPOUND, WE_HAVE_INSTRUCTIONS, WE_HAVE_AN_X_AND_Y_SCALE, WE_HAVE_A_SCALE, WE_HAVE_A_TWO_BY_TWO,
};
use crate::glyf::glyph::{
    contours_view, Glyph, GlyphData, Point, ON_CURVE_POINT, OVERLAP_SIMPLE, REPEAT_FLAG,
    X_IS_SAME_OR_POSITIVE_X_SHORT_VECTOR, X_SHORT_VECTOR, Y_IS_SAME_OR_POSITIVE_Y_SHORT_VECTOR,
    Y_SHORT_VECTOR,
};
use vstd::prelude::*;

verus! {

/// The outcome of reading a value that starts at some position of the data.
pub enum Reading<T> {
    /// The value read and the position just after it.
    Value(T, int),
    /// The data is not a valid encoding.
    Error(DeserializationError),
    /// The reader gives no outcome for this data (its callers must rule it out).
    Undefined,
}

/// Put `v` in front of the values of a successful reading.
pub open spec fn then_prepend<T>(v: T, r: Reading<Seq<T>>) -> Reading<Seq<T>> {
    match r {
        Reading::Value(s, p) => Reading::Value(seq![v] + s, p),
        Reading::Error(e) => Reading::Error(e),
        Reading::Undefined => Reading::Undefined,
    }
}

/// Put the values `a` in front of the values of a successful reading.
pub open spec fn prepend_all<T>(a: Seq<T>, r: Reading<Seq<T>>) -> Reading<Seq<T>> {
    match r {
        Reading::Value(s, p) => Reading::Value(a + s, p),
        Reading::Error(e) => Reading::Error(e),
        Reading::Undefined => Reading::Undefined,
    }
}

pub proof fn lemma_prepend_step<T>(a: Seq<T>, v: T, r: Reading<Seq<T>>)
    ensures
        prepend_all(a, then_prepend(v, r)) == prepend_all(a.push(v), r),
{
    match r {
        Reading::Value(s, p) => {
            assert(a + (seq![v] + s) == a.push(v) + s);
        },
        _ => {},
    }
}

pub proof fn lemma_prepend_empty<T>(r: Reading<Seq<T>>)
    ensures
        prepend_all(Seq::<T>::empty(), r) == r,
{
    match r {
        Reading::Value(s, p) => {
            assert(Seq::<T>::empty() + s == s);
        },
        _ => {},
    }
}

/// The number of argument bytes of a component with flags `f`.
pub open spec fn args_len(f: u16) -> int {
    if f & ARG_1_AND_2_ARE_WORDS != 0 { 4 } else { 2 }
}

/// The number of matrix bytes of a component with flags `f`: a single scale comes
/// before separate x and y scales, which come before a full matrix.
pub open spec fn scales_len(f: u16) -> int {
    if f & WE_HAVE_A_SCALE != 0 {
        2
    } else if f & WE_HAVE_AN_X_AND_Y_SCALE != 0 {
        4
    } else if f & WE_HAVE_A_TWO_BY_TWO != 0 {
        8
    } else {
        0
    }
}

/// Whether flags `f` set all three matrix flags.
pub open spec fn has_all_scales(f: u16) -> bool {
    f & WE_HAVE_A_SCALE != 0 && f & WE_HAVE_AN_X_AND_Y_SCALE != 0 && f & WE_HAVE_A_TWO_BY_TWO != 0
}

/// The bytes a component with flags `f` takes.
pub open spec fn component_len(f: u16) -> int {
    4 + args_len(f) + scales_len(f)
}

/// The matrix read at `p` for flags `f`, with the offsets `dx`, `dy`.
pub open spec fn transform_at(d: Seq<u8>, p: int, f: u16, dx: i16, dy: i16) -> Transform {
    if f & WE_HAVE_A_SCALE != 0 {
        let s = i16_at(d, p);
        Transform { x_scale: s, scale01: 0, scale10: 0, y_scale: s, translate_x: dx, translate_y: dy }
    } else if f & WE_HAVE_AN_X_AND_Y_SCALE != 0 {
        Transform {
            x_scale: i16_at(d, p),
            scale01: 0,
            scale10: 0,
            y_scale: i16_at(d, p + 2),
            translate_x: dx,
            translate_y: dy,
        }
    } else if f & WE_HAVE_A_TWO_BY_TWO != 0 {
        Transform {
            x_scale: i16_at(d, p),
            scale01: i16_at(d, p + 2),
            scale10: i16_at(d, p + 4),
            y_scale: i16_at(d, p + 6),
            translate_x: dx,
            translate_y: dy,
        }
    } else {
        Transform {
            x_scale: F2DOT14_ONE,
            scale01: 0,
            scale10: 0,
            y_scale: F2DOT14_ONE,
            translate_x: dx,
            translate_y: dy,
        }
    }
}

/// The component at `pos`: flags, glyph index, then either point numbers or
/// signed offsets, then the matrix the flags ask for. Point numbers together
/// with all three matrix flags are refused.
pub open spec fn component_at(d: Seq<u8>, pos: int) -> Reading<Component> {
    if pos + 4 > d.len() {
        Reading::Error(DeserializationError::UnexpectedEof)
    } else {
        let f = u16_at(d, pos);
        let gid = u16_at(d, pos + 2);
        let a = pos + 4;
        if a + args_len(f) > d.len() {
            Reading::Error(DeserializationError::UnexpectedEof)
        } else if f & ARGS_ARE_XY_VALUES == 0 && has_all_scales(f) {
            Reading::Error(DeserializationError::BadFormat)
        } else if a + args_len(f) + scales_len(f) > d.len() {
            Reading::Error(DeserializationError::UnexpectedEof)
        } else {
            let words = f & ARG_1_AND_2_ARE_WORDS != 0;
            let s = a + args_len(f);
            if f & ARGS_ARE_XY_VALUES == 0 {
                let mp: (u16, u16) = if words {
                    (u16_at(d, a), u16_at(d, a + 2))
                } else {
                    (d[a] as u16, d[a + 1] as u16)
                };
                Reading::Value(
                    Component {
                        glyph_index: gid,
                        transformation: transform_at(d, s, f, 0, 0),
                        match_points: Some(mp),
                        flags: f,
                    },
                    s + scales_len(f),
                )
            } else {
                let dx: i16 = if words { i16_at(d, a) } else { i8_of_byte(d[a]) };
                let dy: i16 = if words { i16_at(d, a + 2) } else { i8_of_byte(d[a + 1]) };
                Reading::Value(
                    Component {
                        glyph_index: gid,
                        transformation: transform_at(d, s, f, dx, dy),
                        match_points: None,
                        flags: f,
                    },
                    s + scales_len(f),
                )
            }
        }
    }
}

/// The components from `pos` on: each one followed by another while its flags say so.
pub open spec fn components_at(d: Seq<u8>, pos: int) -> Reading<Seq<Component>>
    decreases d.len() - pos,
{
    match component_at(d, pos) {
        Reading::Value(c, p) => if c.flags & MORE_COMPONENTS != 0 {
            proof {
                lemma_component_at_len(d, pos);
            }
            then_prepend(c, components_at(d, p))
        } else {
            Reading::Value(seq![c], p)
        },
        Reading::Error(e) => Reading::Error(e),
        Reading::Undefined => Reading::Undefined,
    }
}

pub proof fn lemma_component_at_len(d: Seq<u8>, pos: int)
    ensures
        component_at(d, pos) matches Reading::Value(c, p) ==> p == pos + component_len(c.flags)
            && c.flags == u16_at(d, pos) && p <= d.len(),
{
}

fn read_i8(data: &[u8], pos: usize) -> (r: i16)
    requires
        pos < data@.len(),
    ensures
        r == i8_of_byte(data@[pos as int]),
{
    let b = data[pos];
    if b >= 128 {
        b as i16 - 256
    } else {
        b as i16
    }
}

fn read_transform(data: &[u8], p: usize, f: u16, dx: i16, dy: i16) -> (r: Transform)
    requires
        p + scales_len(f) <= data@.len(),
    ensures
        r == transform_at(data@, p as int, f, dx, dy),
{
    let n = data.len();
    assert(p + scales_len(f) <= n);
    if f & WE_HAVE_A_SCALE != 0 {
        let s = read_i16(data, p).unwrap();
        Transform { x_scale: s, scale01: 0, scale10: 0, y_scale: s, translate_x: dx, translate_y: dy }
    } else if f & WE_HAVE_AN_X_AND_Y_SCALE != 0 {
        Transform {
            x_scale: read_i16(data, p).unwrap(),
            scale01: 0,
            scale10: 0,
            y_scale: read_i16(data, p + 2).unwrap(),
            translate_x: dx,
            translate_y: dy,
        }
    } else if f & WE_HAVE_A_TWO_BY_TWO != 0 {
        Transform {
            x_scale: read_i16(data, p).unwrap(),
            scale01: read_i16(data, p + 2).unwrap(),
            scale10: read_i16(data, p + 4).unwrap(),
            y_scale: read_i16(data, p + 6).unwrap(),
            translate_x: dx,
            translate_y: dy,
        }
    } else {
        Transform {
            x_scale: F2DOT14_ONE,
            scale01: 0,
            scale10: 0,
            y_scale: F2DOT14_ONE,
            translate_x: dx,
            translate_y: dy,
        }
    }
}

impl Component {
    /// Read the component at byte `pos` of `data`, with the position after it.
    pub fn from_bytes(data: &[u8], pos: usize) -> (r: Result<(Component, usize), DeserializationError>)
        ensures
            match r {
                Ok((c, p)) => component_at(data@, pos as int) == Reading::Value(c, p as int),
                Err(e) => component_at(data@, pos as int) == Reading::<Component>::Error(e),
            },
    {
        if pos > data.len() || data.len() - pos < 4 {
            return Err(DeserializationError::UnexpectedEof);
        }
        let f = read_u16(data, pos).unwrap();
        let gid = read_u16(data, pos + 2).unwrap();
        let a = pos + 4;
        let words = f & ARG_1_AND_2_ARE_WORDS != 0;
        let alen: usize = if words { 4 } else { 2 };
        if data.len() - a < alen {
            return Err(DeserializationError::UnexpectedEof);
        }
        let xy = f & ARGS_ARE_XY_VALUES != 0;
        if !xy && (f & WE_HAVE_A_SCALE != 0 && f & WE_HAVE_AN_X_AND_Y_SCALE != 0 && f
            & WE_HAVE_A_TWO_BY_TWO != 0) {
            return Err(DeserializationError::BadFormat);
        }
        let slen: usize = if f & WE_HAVE_A_SCALE != 0 {
            2
        } else if f & WE_HAVE_AN_X_AND_Y_SCALE != 0 {
            4
        } else if f & WE_HAVE_A_TWO_BY_TWO != 0 {
            8
        } else {
            0
        };
        if data.len() - a - alen < slen {
            return Err(DeserializationError::UnexpectedEof);
        }
        let s = a + alen;
        if !xy {
            let mp: (u16, u16) = if words {
                (read_u16(data, a).unwrap(), read_u16(data, a + 2).unwrap())
            } else {
                (data[a] as u16, data[a + 1] as u16)
            };
            let c = Component {
                glyph_index: gid,
                transformation: read_transform(data, s, f, 0, 0),
                match_points: Some(mp),
                flags: f,
            };
            Ok((c, s + slen))
        } else {
            let dx: i16 = if words { read_i16(data, a).unwrap() } else { read_i8(data, a) };
            let dy: i16 = if words { read_i16(data, a + 2).unwrap() } else { read_i8(data, a + 1) };
            let c = Component {
                glyph_index: gid,
                transformation: read_transform(data, s, f, dx, dy),
                match_points: None,
                flags: f,
            };
            Ok((c, s + slen))
        }
    }
}

/// Read the components of a composite glyph starting at byte `pos`.
pub fn read_components(data: &[u8], pos: usize) -> (r: Result<(Vec<Component>, usize), DeserializationError>)
    ensures
        match r {
            Ok((cs, p)) => components_at(data@, pos as int) == Reading::Value(cs@, p as int),
            Err(e) => components_at(data@, pos as int) == Reading::<Seq<Component>>::Error(e),
        },
{
    if pos > data.len() {
        return Err(DeserializationError::UnexpectedEof);
    }
    let mut out: Vec<Component> = Vec::new();
    let mut p = pos;
    proof {
        lemma_prepend_empty(components_at(data@, pos as int));
    }
    loop
        invariant
            p <= data@.len() + 4,
            components_at(data@, pos as int) == prepend_all(out@, components_at(data@, p as int)),
        decreases data@.len() + 4 - p,
    {
        let ghost here = p;
        let ghost before = out@;
        proof {
            lemma_component_at_len(data@, p as int);
        }
        match Component::from_bytes(data, p) {
            Err(e) => {
                return Err(e);
            },
            Ok((c, next)) => {
                let more = c.flags & MORE_COMPONENTS != 0;
                proof {
                    lemma_prepend_step(out@, c, components_at(data@, next as int));
                }
                out.push(c);
                if !more {
                    assert(components_at(data@, here as int) == Reading::Value(seq![c], next as int));
                    assert(out@ == before + seq![c]);
                    return Ok((out, next));
                }
                p = next;
                assert(components_at(data@, here as int) == then_prepend(c, components_at(data@, next as int)));
            },
        }
    }
}


/// The flag bytes of `remaining` points starting at `pos`: a flag with the repeat
/// bit is followed by a count of further copies of it, and the copies count
/// towards the points (so the run may overshoot).
pub open spec fn flags_at(d: Seq<u8>, pos: int, remaining: int) -> Option<(Seq<u8>, int)>
    decreases (if remaining > 0 { remaining } else { 0 }),
{
    if remaining <= 0 {
        Some((Seq::empty(), pos))
    } else if !(0 <= pos < d.len()) {
        None
    } else {
        let f = d[pos];
        if f & REPEAT_FLAG != 0 {
            if pos + 1 >= d.len() {
                None
            } else {
                let r = d[pos + 1] as int;
                match flags_at(d, pos + 2, remaining - 1 - r) {
                    Some((s, p)) => Some((Seq::new((r + 1) as nat, |_i: int| f) + s, p)),
                    None => None,
                }
            }
        } else {
            match flags_at(d, pos + 1, remaining - 1) {
                Some((s, p)) => Some((seq![f] + s, p)),
                None => None,
            }
        }
    }
}

/// Read the flags of `n` points starting at byte `pos`.
fn read_flags(data: &[u8], pos: usize, n: usize) -> (r: Option<(Vec<u8>, usize)>)
    requires
        n <= 65536,
    ensures
        match r {
            Some((fl, p)) => flags_at(data@, pos as int, n as int) == Some((fl@, p as int)),
            None => flags_at(data@, pos as int, n as int) is None,
        },
{
    let mut flags: Vec<u8> = Vec::new();
    let mut p = pos;
    let mut i: usize = 0;
    assert(flags@ + Seq::<u8>::empty() == flags@);
    while i < n
        invariant
            n <= 65536,
            i <= n + 256,
            match flags_at(data@, pos as int, n as int) {
                Some((s, q)) => match flags_at(data@, p as int, n - i) {
                    Some((t, q2)) => s == flags@ + t && q == q2,
                    None => false,
                },
                None => flags_at(data@, p as int, n - i) is None,
            },
        decreases n + 256 - i,
    {
        let ghost before = flags@;
        let ghost here = p;
        if p >= data.len() {
            return None;
        }
        let f = data[p];
        flags.push(f);
        if f & REPEAT_FLAG != 0 {
            if p + 1 >= data.len() {
                return None;
            }
            let count = data[p + 1];
            let mut k: u8 = 0;
            while k < count
                invariant
                    k <= count,
                    flags@ == before + Seq::new((k + 1) as nat, |_i: int| f),
                decreases count - k,
            {
                flags.push(f);
                assert(before + Seq::new((k + 2) as nat, |_i: int| f) == before + Seq::new((k + 1) as nat, |_i: int| f) + seq![f]);
                k = k + 1;
            }
            i = i + count as usize;
            p = p + 2;
            proof {
                let r = count as int;
                match flags_at(data@, p as int, n - i - 1) {
                    Some((t, q2)) => {
                        assert(Seq::new((r + 1) as nat, |_i: int| f) + t == Seq::new((r + 1) as nat, |_i: int| f) + t);
                        assert(before + (Seq::new((r + 1) as nat, |_i: int| f) + t) == flags@ + t);
                    },
                    None => {},
                }
            }
        } else {
            p = p + 1;
            proof {
                match flags_at(data@, p as int, n - i - 1) {
                    Some((t, q2)) => {
                        assert(before + (seq![f] + t) == flags@ + t);
                    },
                    None => {},
                }
            }
        }
        i = i + 1;
    }
    assert(flags@ + Seq::<u8>::empty() == flags@);
    Some((flags, p))
}

/// The coordinates along one axis, from flag `k` on, starting from the value `last`:
/// a short flag takes one byte, added or taken away as its sign bit says; a
/// "same" flag without the short bit repeats the last value; otherwise a signed
/// 16-bit difference follows. A value that leaves the 16-bit range has no outcome.
pub open spec fn axis_at(
    d: Seq<u8>,
    pos: int,
    flags: Seq<u8>,
    k: int,
    last: int,
    short_bit: u8,
    same_bit: u8,
) -> Reading<Seq<i16>>
    decreases flags.len() - k,
{
    if k >= flags.len() || k < 0 {
        Reading::Value(Seq::empty(), pos)
    } else {
        let f = flags[k];
        if f & short_bit != 0 {
            if !(0 <= pos < d.len()) {
                Reading::Error(DeserializationError::UnexpectedEof)
            } else {
                let v = if f & same_bit != 0 { last + d[pos] } else { last - d[pos] };
                if !(-32768 <= v <= 32767) {
                    Reading::Undefined
                } else {
                    then_prepend(v as i16, axis_at(d, pos + 1, flags, k + 1, v, short_bit, same_bit))
                }
            }
        } else if f & same_bit != 0 {
            then_prepend(last as i16, axis_at(d, pos, flags, k + 1, last, short_bit, same_bit))
        } else {
            if !(0 <= pos && pos + 2 <= d.len()) {
                Reading::Error(DeserializationError::UnexpectedEof)
            } else {
                let v = last + i16_at(d, pos);
                if !(-32768 <= v <= 32767) {
                    Reading::Undefined
                } else {
                    then_prepend(v as i16, axis_at(d, pos + 2, flags, k + 1, v, short_bit, same_bit))
                }
            }
        }
    }
}

/// Read the coordinates along one axis for the given flags, starting at byte `pos`.
fn read_axis(data: &[u8], pos: usize, flags: &Vec<u8>, short_bit: u8, same_bit: u8) -> (r: Result<(Vec<i16>, usize), DeserializationError>)
    requires
        axis_at(data@, pos as int, flags@, 0, 0, short_bit, same_bit) !is Undefined,
    ensures
        match r {
            Ok((v, p)) => axis_at(data@, pos as int, flags@, 0, 0, short_bit, same_bit) == Reading::Value(v@, p as int),
            Err(e) => axis_at(data@, pos as int, flags@, 0, 0, short_bit, same_bit) == Reading::<Seq<i16>>::Error(e),
        },
{
    let ghost whole = axis_at(data@, pos as int, flags@, 0, 0, short_bit, same_bit);
    let mut out: Vec<i16> = Vec::new();
    let mut p = pos;
    let mut last: i16 = 0;
    let mut k: usize = 0;
    proof {
        lemma_prepend_empty(whole);
    }
    while k < flags.len()
        invariant
            whole == axis_at(data@, pos as int, flags@, 0, 0, short_bit, same_bit),
            whole !is Undefined,
            k <= flags@.len(),
            whole == prepend_all(out@, axis_at(data@, p as int, flags@, k as int, last as int, short_bit, same_bit)),
        decreases flags@.len() - k,
    {
        let f = flags[k];
        let ghost rest_before = axis_at(data@, p as int, flags@, k as int, last as int, short_bit, same_bit);
        let v: i16;
        if f & short_bit != 0 {
            if p >= data.len() {
                return Err(DeserializationError::UnexpectedEof);
            }
            let c = data[p] as i32;
            let w: i32 = if f & same_bit != 0 { last as i32 + c } else { last as i32 - c };
            if w < -32768 || w > 32767 {
                assert(rest_before is Undefined);
                assert(false);
                return Err(DeserializationError::BadFormat);
            }
            v = w as i16;
            p = p + 1;
        } else if f & same_bit != 0 {
            v = last;
        } else {
            if p > data.len() || data.len() - p < 2 {
                return Err(DeserializationError::UnexpectedEof);
            }
            let c = read_i16(data, p).unwrap();
            let w: i32 = last as i32 + c as i32;
            if w < -32768 || w > 32767 {
                assert(rest_before is Undefined);
                assert(false);
                return Err(DeserializationError::BadFormat);
            }
            v = w as i16;
            p = p + 2;
        }
        proof {
            assert(rest_before == then_prepend(v, axis_at(data@, p as int, flags@, k + 1, v as int, short_bit, same_bit)));
            lemma_prepend_step(out@, v, axis_at(data@, p as int, flags@, k + 1, v as int, short_bit, same_bit));
        }
        out.push(v);
        last = v;
        k = k + 1;
    }
    proof {
        assert(out@ + Seq::<i16>::empty() == out@);
    }
    Ok((out, p))
}


pub proof fn lemma_flags_at_len(d: Seq<u8>, pos: int, remaining: int)
    ensures
        flags_at(d, pos, remaining) matches Some((s, p)) ==> s.len() >= remaining,
    decreases (if remaining > 0 { remaining } else { 0 }),
{
    if remaining > 0 && 0 <= pos < d.len() {
        let f = d[pos];
        if f & REPEAT_FLAG != 0 {
            if pos + 1 < d.len() {
                lemma_flags_at_len(d, pos + 2, remaining - 1 - d[pos + 1] as int);
            }
        } else {
            lemma_flags_at_len(d, pos + 1, remaining - 1);
        }
    }
}

pub proof fn lemma_axis_at_len(
    d: Seq<u8>,
    pos: int,
    flags: Seq<u8>,
    k: int,
    last: int,
    short_bit: u8,
    same_bit: u8,
)
    requires
        0 <= k <= flags.len(),
    ensures
        axis_at(d, pos, flags, k, last, short_bit, same_bit) matches Reading::Value(s, p) ==> s.len()
            == flags.len() - k,
    decreases flags.len() - k,
{
    if k < flags.len() {
        let f = flags[k];
        if f & short_bit != 0 {
            if 0 <= pos < d.len() {
                let v = if f & same_bit != 0 { last + d[pos] } else { last - d[pos] };
                lemma_axis_at_len(d, pos + 1, flags, k + 1, v, short_bit, same_bit);
            }
        } else if f & same_bit != 0 {
            lemma_axis_at_len(d, pos, flags, k + 1, last, short_bit, same_bit);
        } else if 0 <= pos && pos + 2 <= d.len() {
            lemma_axis_at_len(d, pos + 2, flags, k + 1, last + i16_at(d, pos), short_bit, same_bit);
        }
    }
}

/// The end points of `nc` contours, stored from byte 10 on.
pub open spec fn end_points_at(d: Seq<u8>, nc: int) -> Seq<u16> {
    Seq::new(nc as nat, |k: int| u16_at(d, 10 + 2 * k))
}

/// The points of a simple glyph: one for each flag.
pub open spec fn points_of(flags: Seq<u8>, xs: Seq<i16>, ys: Seq<i16>) -> Seq<Point> {
    Seq::new(
        flags.len(),
        |i: int| Point { x: xs[i], y: ys[i], on_curve: flags[i] & ON_CURVE_POINT != 0 },
    )
}

/// The contours cut from `pts` at the given end points.
pub open spec fn split_contours(pts: Seq<Point>, ends: Seq<u16>) -> Seq<Seq<Point>> {
    Seq::new(
        ends.len(),
        |k: int| pts.subrange(if k == 0 { 0 } else { ends[k - 1] + 1 }, ends[k] + 1),
    )
}

/// The end points never go back.
pub open spec fn ends_ordered(ends: Seq<u16>) -> bool {
    forall|k: int| 0 <= k < ends.len() - 1 ==> #[trigger] ends[k] <= ends[k + 1]
}

pub open spec fn any_flag(flags: Seq<u8>, bit: u8) -> bool {
    exists|i: int| 0 <= i < flags.len() && #[trigger] flags[i] & bit != 0
}

pub open spec fn any_component_flag(cs: Seq<Component>, bit: u16) -> bool {
    exists|i: int| 0 <= i < cs.len() && #[trigger] cs[i].flags & bit != 0
}

/// The instructions after a count at `q`: none for a count that is not positive.
pub open spec fn instructions_at(d: Seq<u8>, q: int) -> Reading<Seq<u8>> {
    if q + 2 > d.len() {
        Reading::Error(DeserializationError::UnexpectedEof)
    } else {
        let n = i16_at(d, q) as int;
        if n <= 0 {
            Reading::Value(Seq::empty(), q + 2)
        } else if q + 2 + n > d.len() {
            Reading::Error(DeserializationError::UnexpectedEof)
        } else {
            Reading::Value(d.subrange(q + 2, q + 2 + n), q + 2 + n)
        }
    }
}

/// The body of a simple glyph with `nc` contours and the given bounds.
pub open spec fn simple_glyph_at(d: Seq<u8>, nc: int, bounds: (i16, i16, i16, i16)) -> Reading<GlyphData> {
    if d.len() < 10 + 2 * nc {
        Reading::Undefined
    } else {
        let ends = end_points_at(d, nc);
        if exists|k: int| 0 <= k < nc && #[trigger] ends[k] == 65535 {
            Reading::Undefined
        } else {
            match instructions_at(d, 10 + 2 * nc) {
                Reading::Value(ins, q) => match flags_at(d, q, ends.last() + 1) {
                    None => Reading::Error(DeserializationError::UnexpectedEof),
                    Some((fl, q3)) => match axis_at(d, q3, fl, 0, 0, X_SHORT_VECTOR, X_IS_SAME_OR_POSITIVE_X_SHORT_VECTOR) {
                        Reading::Value(xs, q4) => match axis_at(d, q4, fl, 0, 0, Y_SHORT_VECTOR, Y_IS_SAME_OR_POSITIVE_Y_SHORT_VECTOR) {
                            Reading::Value(ys, q5) => if !ends_ordered(ends) {
                                Reading::Undefined
                            } else {
                                Reading::Value(
                                    GlyphData {
                                        x_min: bounds.0,
                                        y_min: bounds.1,
                                        x_max: bounds.2,
                                        y_max: bounds.3,
                                        contours: split_contours(points_of(fl, xs, ys), ends),
                                        instructions: ins,
                                        components: Seq::empty(),
                                        overlap: any_flag(fl, OVERLAP_SIMPLE),
                                    },
                                    q5,
                                )
                            },
                            Reading::Error(e) => Reading::Error(e),
                            Reading::Undefined => Reading::Undefined,
                        },
                        Reading::Error(e) => Reading::Error(e),
                        Reading::Undefined => Reading::Undefined,
                    },
                },
                Reading::Error(e) => Reading::Error(e),
                Reading::Undefined => Reading::Undefined,
            }
        }
    }
}

/// The body of a composite glyph with the given bounds: its components, then the
/// instructions if any component says they follow.
pub open spec fn composite_glyph_at(d: Seq<u8>, bounds: (i16, i16, i16, i16)) -> Reading<GlyphData> {
    match components_at(d, 10) {
        Reading::Value(cs, p) => {
            let g = GlyphData {
                x_min: bounds.0,
                y_min: bounds.1,
                x_max: bounds.2,
                y_max: bounds.3,
                contours: Seq::empty(),
                instructions: Seq::empty(),
                components: cs,
                overlap: any_component_flag(cs, OVERLAP_COMPOUND),
            };
            if !any_component_flag(cs, WE_HAVE_INSTRUCTIONS) {
                Reading::Value(g, p)
            } else {
                match instructions_at(d, p) {
                    Reading::Value(ins, q) => Reading::Value(GlyphData { instructions: ins, ..g }, q),
                    Reading::Error(e) => Reading::Error(e),
                    Reading::Undefined => Reading::Undefined,
                }
            }
        },
        Reading::Error(e) => Reading::Error(e),
        Reading::Undefined => Reading::Undefined,
    }
}

/// A glyph: its contour count (below one for a composite), its bounds, and its body.
pub open spec fn glyph_at(d: Seq<u8>) -> Reading<GlyphData> {
    if d.len() < 10 {
        Reading::Error(DeserializationError::UnexpectedEof)
    } else {
        let bounds = (i16_at(d, 2), i16_at(d, 4), i16_at(d, 6), i16_at(d, 8));
        let nc = i16_at(d, 0) as int;
        if nc < 1 {
            composite_glyph_at(d, bounds)
        } else {
            simple_glyph_at(d, nc, bounds)
        }
    }
}

/// Read the instructions after a count at byte `q`.
fn read_instructions(data: &[u8], q: usize) -> (r: Result<(Vec<u8>, usize), DeserializationError>)
    ensures
        match r {
            Ok((v, p)) => instructions_at(data@, q as int) == Reading::Value(v@, p as int),
            Err(e) => instructions_at(data@, q as int) == Reading::<Seq<u8>>::Error(e),
        },
{
    let len = data.len();
    match read_i16(data, q) {
        None => Err(DeserializationError::UnexpectedEof),
        Some(n) => {
            if n <= 0 {
                Ok((Vec::new(), q + 2))
            } else {
                match read_bytes(data, q + 2, n as usize) {
                    None => Err(DeserializationError::UnexpectedEof),
                    Some(v) => Ok((v, q + 2 + n as usize)),
                }
            }
        },
    }
}

fn any_flag_set(flags: &Vec<u8>, bit: u8) -> (r: bool)
    ensures
        r == any_flag(flags@, bit),
{
    let mut i: usize = 0;
    while i < flags.len()
        invariant
            i <= flags@.len(),
            forall|j: int| 0 <= j < i ==> !(#[trigger] flags@[j] & bit != 0),
        decreases flags@.len() - i,
    {
        if flags[i] & bit != 0 {
            return true;
        }
        i = i + 1;
    }
    false
}

fn any_component_flag_set(cs: &Vec<Component>, bit: u16) -> (r: bool)
    ensures
        r == any_component_flag(cs@, bit),
{
    let mut i: usize = 0;
    while i < cs.len()
        invariant
            i <= cs@.len(),
            forall|j: int| 0 <= j < i ==> !(#[trigger] cs@[j].flags & bit != 0),
        decreases cs@.len() - i,
    {
        if cs[i].flags & bit != 0 {
            return true;
        }
        i = i + 1;
    }
    false
}

/// Cut the points of a simple glyph into contours at the end points.
fn cut_contours(flags: &Vec<u8>, xs: &Vec<i16>, ys: &Vec<i16>, ends: &Vec<u16>) -> (r: Vec<Vec<Point>>)
    requires
        xs@.len() == flags@.len(),
        ys@.len() == flags@.len(),
        ends@.len() >= 1,
        ends_ordered(ends@),
        ends@.last() + 1 <= flags@.len(),
    ensures
        contours_view(r@) == split_contours(points_of(flags@, xs@, ys@), ends@),
{
    let ghost pts = points_of(flags@, xs@, ys@);
    let mut out: Vec<Vec<Point>> = Vec::new();
    let mut k: usize = 0;
    let mut start: usize = 0;
    while k < ends.len()
        invariant
            xs@.len() == flags@.len(),
            ys@.len() == flags@.len(),
            ends@.len() >= 1,
            ends_ordered(ends@),
            ends@.last() + 1 <= flags@.len(),
            pts == points_of(flags@, xs@, ys@),
            k <= ends@.len(),
            start == (if k == 0 { 0 } else { ends@[k - 1] + 1 }),
            out@.len() == k,
            forall|j: int| 0 <= j < k ==> (#[trigger] out@[j])@ == split_contours(pts, ends@)[j],
        decreases ends@.len() - k,
    {
        let end = ends[k] as usize + 1;
        proof {
            if k + 1 < ends@.len() {
                assert(ends@[k as int] <= ends@[k + 1]);
            }
            assert forall|a: int, b: int| 0 <= a <= b < ends@.len() implies ends@[a] <= ends@[b] by {
                lemma_ends_ordered(ends@, a, b);
            }
            assert(ends@[k as int] <= ends@.last());
            if k > 0 {
                assert(ends@[k - 1] <= ends@[k as int]);
            }
        }
        let mut c: Vec<Point> = Vec::new();
        let mut i: usize = start;
        while i < end
            invariant
                start <= i <= end,
                end <= flags@.len(),
                xs@.len() == flags@.len(),
                ys@.len() == flags@.len(),
                pts == points_of(flags@, xs@, ys@),
                c@ == pts.subrange(start as int, i as int),
            decreases end - i,
        {
            c.push(Point { x: xs[i], y: ys[i], on_curve: flags[i] & ON_CURVE_POINT != 0 });
            assert(pts.subrange(start as int, i + 1) == pts.subrange(start as int, i as int).push(pts[i as int]));
            i = i + 1;
        }
        out.push(c);
        start = end;
        k = k + 1;
    }
    assert(contours_view(out@) == split_contours(pts, ends@));
    out
}

proof fn lemma_ends_ordered(ends: Seq<u16>, a: int, b: int)
    requires
        ends_ordered(ends),
        0 <= a <= b < ends.len(),
    ensures
        ends[a] <= ends[b],
    decreases b - a,
{
    if a < b {
        lemma_ends_ordered(ends, a, b - 1);
        assert(ends[b - 1] <= ends[b]);
    }
}

impl Glyph {
    /// Read a glyph from its binary form.
    pub fn from_bytes(data: &[u8]) -> (r: Result<Glyph, DeserializationError>)
        requires
            glyph_at(data@) !is Undefined,
        ensures
            match r {
                Ok(g) => glyph_at(data@) matches Reading::Value(v, _) && g@ == v,
                Err(e) => glyph_at(data@) == Reading::<GlyphData>::Error(e),
            },
    {
        if data.len() < 10 {
            return Err(DeserializationError::UnexpectedEof);
        }
        let nc = read_i16(data, 0).unwrap();
        let x_min = read_i16(data, 2).unwrap();
        let y_min = read_i16(data, 4).unwrap();
        let x_max = read_i16(data, 6).unwrap();
        let y_max = read_i16(data, 8).unwrap();
        if nc < 1 {
            let (components, p) = match read_components(data, 10) {
                Ok(x) => x,
                Err(e) => {
                    return Err(e);
                },
            };
            let overlap = any_component_flag_set(&components, OVERLAP_COMPOUND);
            let mut instructions: Vec<u8> = Vec::new();
            if any_component_flag_set(&components, WE_HAVE_INSTRUCTIONS) {
                match read_instructions(data, p) {
                    Ok((ins, _)) => {
                        instructions = ins;
                    },
                    Err(e) => {
                        return Err(e);
                    },
                }
            }
            let g = Glyph {
                xMin: x_min,
                xMax: x_max,
                yMin: y_min,
                yMax: y_max,
                contours: Vec::new(),
                instructions,
                components,
                overlap,
            };
            assert(contours_view(g.contours@) == Seq::<Seq<Point>>::empty());
            Ok(g)
        } else {
            Glyph::simple_from_bytes(data, nc, x_min, y_min, x_max, y_max)
        }
    }

    fn simple_from_bytes(data: &[u8], nc: i16, x_min: i16, y_min: i16, x_max: i16, y_max: i16) -> (r: Result<Glyph, DeserializationError>)
        requires
            nc >= 1,
            simple_glyph_at(data@, nc as int, (x_min, y_min, x_max, y_max)) !is Undefined,
        ensures
            match r {
                Ok(g) => simple_glyph_at(data@, nc as int, (x_min, y_min, x_max, y_max)) matches Reading::Value(v, _) && g@ == v,
                Err(e) => simple_glyph_at(data@, nc as int, (x_min, y_min, x_max, y_max)) == Reading::<GlyphData>::Error(e),
            },
    {
        let ghost ends_spec = end_points_at(data@, nc as int);
        let ncu = nc as usize;
        let ends = read_u16_vec(data, 10, ncu).unwrap();
        proof {
            assert(ends@ =~= ends_spec);
        }
        let (instructions, q) = match read_instructions(data, 10 + 2 * ncu) {
            Ok(x) => x,
            Err(e) => {
                return Err(e);
            },
        };
        let num_points = ends[ncu - 1] as usize + 1;
        let (flags, q3) = match read_flags(data, q, num_points) {
            Some(x) => x,
            None => {
                return Err(DeserializationError::UnexpectedEof);
            },
        };
        proof {
            lemma_flags_at_len(data@, q as int, num_points as int);
        }
        let (xs, q4) = match read_axis(data, q3, &flags, X_SHORT_VECTOR, X_IS_SAME_OR_POSITIVE_X_SHORT_VECTOR) {
            Ok(x) => x,
            Err(e) => {
                return Err(e);
            },
        };
        let (ys, _q5) = match read_axis(data, q4, &flags, Y_SHORT_VECTOR, Y_IS_SAME_OR_POSITIVE_Y_SHORT_VECTOR) {
            Ok(x) => x,
            Err(e) => {
                return Err(e);
            },
        };
        proof {
            lemma_axis_at_len(data@, q3 as int, flags@, 0, 0, X_SHORT_VECTOR, X_IS_SAME_OR_POSITIVE_X_SHORT_VECTOR);
            lemma_axis_at_len(data@, q4 as int, flags@, 0, 0, Y_SHORT_VECTOR, Y_IS_SAME_OR_POSITIVE_Y_SHORT_VECTOR);
        }
        let overlap = any_flag_set(&flags, OVERLAP_SIMPLE);
        let contours = cut_contours(&flags, &xs, &ys, &ends);
        Ok(Glyph {
            xMin: x_min,
            xMax: x_max,
            yMin: y_min,
            yMax: y_max,
            contours,
            instructions,
            components: Vec::new(),
            overlap,
        })
    }
}

} // verus!
