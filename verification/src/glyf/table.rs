//! The whole `glyf` table, read through `loca` offsets and written with them.
use crate::binary::DeserializationError;
use crate::glyf::glyph::{contours_view, glyph_encoding, glyph_writable, Glyph, GlyphData, Point};
use crate::glyf::reading::{glyph_at, Reading};
use crate::loca::{compile_loca, loca_encoding};
use vstd::prelude::*;

verus! {

/// The glyphs of a font, in glyph order.
#[derive(Debug, PartialEq, Clone)]
pub struct glyf {
    pub glyphs: Vec<Glyph>,
}

/// The view of a glyph with nothing in it.
pub open spec fn empty_glyph_data() -> GlyphData {
    GlyphData {
        x_min: 0,
        y_min: 0,
        x_max: 0,
        y_max: 0,
        contours: Seq::empty(),
        instructions: Seq::empty(),
        components: Seq::empty(),
        overlap: false,
    }
}

/// The glyph a `loca` entry points at: an empty glyph for no offset, else the glyph
/// read from that offset to the end of the table.
pub open spec fn glyph_slot_at(d: Seq<u8>, o: Option<u32>) -> Reading<GlyphData> {
    match o {
        None => Reading::Value(empty_glyph_data(), 0),
        Some(off) => if off > d.len() {
            Reading::Undefined
        } else {
            glyph_at(d.subrange(off as int, d.len() as int))
        },
    }
}

/// The glyphs at the given offsets, read in order; the first failure decides.
pub open spec fn glyphs_at(d: Seq<u8>, offs: Seq<Option<u32>>) -> Reading<Seq<GlyphData>>
    decreases offs.len(),
{
    if offs.len() == 0 {
        Reading::Value(Seq::empty(), 0)
    } else {
        match glyphs_at(d, offs.drop_last()) {
            Reading::Value(gs, _) => match glyph_slot_at(d, offs.last()) {
                Reading::Value(g, _) => Reading::Value(gs.push(g), 0),
                Reading::Error(e) => Reading::Error(e),
                Reading::Undefined => Reading::Undefined,
            },
            Reading::Error(e) => Reading::Error(e),
            Reading::Undefined => Reading::Undefined,
        }
    }
}

proof fn lemma_glyphs_at_prefix(d: Seq<u8>, offs: Seq<Option<u32>>, i: int)
    requires
        0 <= i <= offs.len(),
        glyphs_at(d, offs) !is Undefined,
    ensures
        glyphs_at(d, offs.take(i)) !is Undefined,
        glyphs_at(d, offs.take(i)) is Error ==> glyphs_at(d, offs) == glyphs_at(d, offs.take(i)),
    decreases offs.len() - i,
{
    if i < offs.len() {
        lemma_glyphs_at_prefix(d, offs, i + 1);
        assert(offs.take(i + 1).drop_last() == offs.take(i));
    } else {
        assert(offs.take(i) == offs);
    }
}

pub open spec fn glyph_views(gs: Seq<Glyph>) -> Seq<GlyphData> {
    gs.map_values(|g: Glyph| g@)
}

/// The glyph a `loca` entry points at.
fn read_slot(data: &[u8], o: Option<u32>) -> (r: Result<Glyph, DeserializationError>)
    requires
        glyph_slot_at(data@, o) !is Undefined,
    ensures
        match r {
            Ok(g) => glyph_slot_at(data@, o) matches Reading::Value(v, _) && g@ == v,
            Err(e) => glyph_slot_at(data@, o) == Reading::<GlyphData>::Error(e),
        },
{
    match o {
        None => {
            let g = Glyph {
                xMin: 0,
                xMax: 0,
                yMin: 0,
                yMax: 0,
                contours: Vec::new(),
                instructions: Vec::new(),
                components: Vec::new(),
                overlap: false,
            };
            assert(contours_view(g.contours@) =~= Seq::<Seq<Point>>::empty());
            Ok(g)
        },
        Some(off) => {
            let o = off as usize;
            let slice = &data[o..data.len()];
            Glyph::from_bytes(slice)
        },
    }
}

impl glyf {
    /// Read the glyphs at the `loca` offsets (no offset: an empty glyph).
    pub fn from_bytes(data: &[u8], loca_offsets: &[Option<u32>]) -> (r: Result<glyf, DeserializationError>)
        requires
            glyphs_at(data@, loca_offsets@) !is Undefined,
        ensures
            match r {
                Ok(t) => glyphs_at(data@, loca_offsets@) == Reading::Value(glyph_views(t.glyphs@), 0),
                Err(e) => glyphs_at(data@, loca_offsets@) == Reading::<Seq<GlyphData>>::Error(e),
            },
    {
        let mut glyphs: Vec<Glyph> = Vec::new();
        let mut i: usize = 0;
        assert(loca_offsets@.take(0) == Seq::<Option<u32>>::empty());
        assert(glyph_views(glyphs@) =~= Seq::<GlyphData>::empty());
        while i < loca_offsets.len()
            invariant
                i <= loca_offsets@.len(),
                glyphs_at(data@, loca_offsets@) !is Undefined,
                glyphs_at(data@, loca_offsets@.take(i as int)) == Reading::Value(glyph_views(glyphs@), 0),
            decreases loca_offsets@.len() - i,
        {
            let ghost pre = loca_offsets@.take(i as int);
            proof {
                lemma_glyphs_at_prefix(data@, loca_offsets@, i + 1);
                assert(loca_offsets@.take(i + 1).drop_last() == pre);
                assert(loca_offsets@.take(i + 1).last() == loca_offsets@[i as int]);
            }
            let ghost old_glyphs = glyphs@;
            match read_slot(data, loca_offsets[i]) {
                Ok(g) => {
                    glyphs.push(g);
                    assert(glyph_views(glyphs@) =~= glyph_views(old_glyphs).push(g@));
                },
                Err(e) => {
                    return Err(e);
                },
            }
            i = i + 1;
        }
        assert(loca_offsets@.take(i as int) == loca_offsets@);
        Ok(glyf { glyphs })
    }
}

/// A glyph's encoding followed by zeros up to a multiple of four bytes.
pub open spec fn padded(e: Seq<u8>) -> Seq<u8> {
    e + Seq::new(((4 - e.len() % 4) % 4) as nat, |_i: int| 0u8)
}

/// The glyph data of `gs`, each glyph padded, one after another.
pub open spec fn glyf_data(gs: Seq<Glyph>) -> Seq<u8>
    decreases gs.len(),
{
    if gs.len() == 0 {
        Seq::empty()
    } else {
        glyf_data(gs.drop_last()) + padded(glyph_encoding(gs.last()))
    }
}

/// The table written for `gs`: their glyph data, or a single zero byte if that is empty.
pub open spec fn glyf_table_bytes(gs: Seq<Glyph>) -> Seq<u8> {
    if glyf_data(gs).len() == 0 {
        seq![0u8]
    } else {
        glyf_data(gs)
    }
}

/// The `loca` offsets written for `gs`: where each glyph starts, then the table's length.
pub open spec fn glyf_offsets(gs: Seq<Glyph>) -> Seq<u32> {
    Seq::new(
        gs.len() + 1,
        |i: int|
            if i < gs.len() {
                glyf_data(gs.take(i)).len() as u32
            } else {
                glyf_table_bytes(gs).len() as u32
            },
    )
}

/// Every glyph can be written and the whole table's offsets fit 32 bits.
pub open spec fn glyf_writable(gs: Seq<Glyph>) -> bool {
    &&& forall|i: int| 0 <= i < gs.len() ==> glyph_writable(#[trigger] gs[i])
    &&& glyf_data(gs).len() <= u32::MAX
}

proof fn lemma_glyf_data_prefix(gs: Seq<Glyph>, i: int)
    requires
        0 <= i <= gs.len(),
    ensures
        glyf_data(gs.take(i)).len() <= glyf_data(gs).len(),
    decreases gs.len() - i,
{
    if i < gs.len() {
        lemma_glyf_data_prefix(gs, i + 1);
        assert(gs.take(i + 1).drop_last() == gs.take(i));
    } else {
        assert(gs.take(i) == gs);
    }
}

/// Append glyph `g`, padded to a multiple of four bytes.
fn write_padded_glyph(out: &mut Vec<u8>, g: &Glyph)
    requires
        glyph_writable(*g),
        old(out)@.len() % 4 == 0,
    ensures
        final(out)@ == old(out)@ + padded(glyph_encoding(*g)),
{
    let ghost before = out@;
    if !g.is_empty() {
        let bytes = g.to_bytes();
        crate::binary::push_bytes(out, bytes.as_slice());
    }
    let ghost unpadded = out@;
    let pad: usize = (4 - out.len() % 4) % 4;
    let mut k: usize = 0;
    while k < pad
        invariant
            k <= pad,
            out@ == unpadded + Seq::new(k as nat, |_i: int| 0u8),
        decreases pad - k,
    {
        out.push(0);
        assert(unpadded + Seq::new((k + 1) as nat, |_i: int| 0u8) == unpadded + Seq::new(k as nat, |_i: int| 0u8) + seq![0u8]);
        k = k + 1;
    }
    proof {
        let e = glyph_encoding(*g);
        assert(unpadded == before + e);
        assert((unpadded.len() % 4) == (e.len() % 4)) by {
            assert(unpadded.len() == before.len() + e.len());
        }
        assert(out@ == before + padded(e));
    }
}

/// Write `glyphs` as a `glyf` table and the `loca` table that indexes it; `loca` is
/// long exactly when the `glyf` table is longer than 65535 bytes.
pub fn compile_glyf_loca(glyphs: &Vec<Glyph>) -> (r: (Vec<u8>, Vec<u8>, bool))
    requires
        glyf_writable(glyphs@),
    ensures
        r.0@ == glyf_table_bytes(glyphs@),
        r.2 == (glyf_table_bytes(glyphs@).len() > 65535),
        r.1@ == loca_encoding(glyf_offsets(glyphs@), r.2),
{
    let ghost gs = glyphs@;
    let mut out: Vec<u8> = Vec::new();
    let mut offsets: Vec<u32> = Vec::new();
    let mut i: usize = 0;
    assert(gs.take(0) == Seq::<Glyph>::empty());
    while i < glyphs.len()
        invariant
            gs == glyphs@,
            glyf_writable(gs),
            i <= gs.len(),
            out@ == glyf_data(gs.take(i as int)),
            offsets@ == glyf_offsets(gs).take(i as int),
        decreases gs.len() - i,
    {
        proof {
            lemma_glyf_data_prefix(gs, i as int);
            lemma_glyf_data_prefix(gs, i + 1);
            assert(gs.take(i + 1).drop_last() == gs.take(i as int));
            assert(gs.take(i + 1).last() == gs[i as int]);
        }
        offsets.push(out.len() as u32);
        proof {
            lemma_glyf_data_aligned(gs.take(i as int));
        }
        write_padded_glyph(&mut out, &glyphs[i]);
        assert(glyf_offsets(gs).take(i + 1) == glyf_offsets(gs).take(i as int).push(glyf_offsets(gs)[i as int]));
        i = i + 1;
    }
    assert(gs.take(i as int) == gs);
    if out.len() == 0 {
        out.push(0);
    }
    offsets.push(out.len() as u32);
    assert(offsets@ == glyf_offsets(gs));
    let is_32bit = out.len() > 65535;
    let loca = compile_loca(offsets.as_slice(), is_32bit);
    (out, loca, is_32bit)
}

proof fn lemma_glyf_data_aligned(gs: Seq<Glyph>)
    ensures
        glyf_data(gs).len() % 4 == 0,
    decreases gs.len(),
{
    if gs.len() > 0 {
        lemma_glyf_data_aligned(gs.drop_last());
        let a = glyf_data(gs.drop_last()).len() as int;
        let l = glyph_encoding(gs.last()).len() as int;
        lemma_pad_aligned(a, l);
    }
}

proof fn lemma_pad_aligned(a: int, l: int)
    requires
        a >= 0,
        l >= 0,
        a % 4 == 0,
    ensures
        (a + l + (4 - l % 4) % 4) % 4 == 0,
{
    let r = l % 4;
    assert(l == 4 * (l / 4) + r) by (nonlinear_arith)
        requires
            r == l % 4,
            l >= 0,
    ;
    assert(a == 4 * (a / 4)) by (nonlinear_arith)
        requires
            a % 4 == 0,
    ;
    if r == 0 {
        assert((a + l) == 4 * (a / 4 + l / 4));
    } else {
        assert(a + l + (4 - r) == 4 * (a / 4 + l / 4 + 1));
    }
}

/// Two glyphs that hold the same data are written the same way.
proof fn lemma_encoding_by_view(a: Glyph, b: Glyph)
    requires
        a@ == b@,
    ensures
        glyph_encoding(a) == glyph_encoding(b),
        glyph_writable(a) == glyph_writable(b),
{
    assert(a.contours@.len() == contours_view(a.contours@).len());
    assert(b.contours@.len() == contours_view(b.contours@).len());
}

/// Prefixes of glyph lists that hold the same data hold the same data.
proof fn lemma_views_take(a: Seq<Glyph>, b: Seq<Glyph>, i: int)
    requires
        glyph_views(a) == glyph_views(b),
        0 <= i <= a.len(),
    ensures
        glyph_views(a.take(i)) == glyph_views(b.take(i)),
        a.len() == b.len(),
{
    assert(a.len() == glyph_views(a).len());
    assert(b.len() == glyph_views(b).len());
    assert forall|j: int| 0 <= j < i implies glyph_views(a.take(i))[j] == glyph_views(b.take(i))[j] by {
        assert(glyph_views(a)[j] == glyph_views(b)[j]);
        assert(glyph_views(a)[j] == a[j]@);
        assert(glyph_views(b)[j] == b[j]@);
        assert(glyph_views(a.take(i))[j] == a.take(i)[j]@);
        assert(glyph_views(b.take(i))[j] == b.take(i)[j]@);
    }
    assert(glyph_views(a.take(i)) =~= glyph_views(b.take(i)));
}

proof fn lemma_glyf_data_by_views(a: Seq<Glyph>, b: Seq<Glyph>)
    requires
        glyph_views(a) == glyph_views(b),
    ensures
        glyf_data(a) == glyf_data(b),
    decreases a.len(),
{
    lemma_views_take(a, b, 0);
    if a.len() > 0 {
        lemma_views_take(a, b, a.len() - 1);
        assert(a.drop_last() == a.take(a.len() - 1));
        assert(b.drop_last() == b.take(b.len() - 1));
        lemma_glyf_data_by_views(a.drop_last(), b.drop_last());
        assert(glyph_views(a)[a.len() - 1] == a.last()@);
        assert(glyph_views(b)[b.len() - 1] == b.last()@);
        lemma_encoding_by_view(a.last(), b.last());
    }
}

proof fn lemma_writable_by_views(a: Seq<Glyph>, b: Seq<Glyph>)
    requires
        glyph_views(a) == glyph_views(b),
        glyf_data(a) == glyf_data(b),
    ensures
        glyf_writable(a) == glyf_writable(b),
{
    lemma_views_take(a, b, 0);
    assert forall|i: int| 0 <= i < a.len() implies glyph_writable(#[trigger] a[i]) == glyph_writable(b[i]) by {
        assert(glyph_views(a)[i] == a[i]@);
        assert(glyph_views(b)[i] == b[i]@);
        lemma_encoding_by_view(a[i], b[i]);
    }
    if glyf_writable(a) {
        assert forall|i: int| 0 <= i < b.len() implies glyph_writable(#[trigger] b[i]) by {
            assert(glyph_writable(a[i]));
        }
    }
    if glyf_writable(b) {
        assert forall|i: int| 0 <= i < a.len() implies glyph_writable(#[trigger] a[i]) by {
            assert(glyph_writable(b[i]));
        }
    }
}

proof fn lemma_offsets_by_views(a: Seq<Glyph>, b: Seq<Glyph>)
    requires
        glyph_views(a) == glyph_views(b),
        glyf_data(a) == glyf_data(b),
    ensures
        glyf_offsets(a) == glyf_offsets(b),
{
    lemma_views_take(a, b, 0);
    assert forall|i: int| 0 <= i < a.len() implies #[trigger] glyf_data(a.take(i)) == glyf_data(b.take(i)) by {
        lemma_views_take(a, b, i);
        lemma_glyf_data_by_views(a.take(i), b.take(i));
    }
    assert forall|i: int| 0 <= i < a.len() + 1 implies glyf_offsets(a)[i] == glyf_offsets(b)[i] by {
        if i < a.len() {
            assert(glyf_data(a.take(i)) == glyf_data(b.take(i)));
        }
    }
    assert(glyf_offsets(a) =~= glyf_offsets(b));
}

/// Glyph lists that hold the same data give the same `glyf` and `loca` tables.
pub proof fn lemma_tables_by_views(a: Seq<Glyph>, b: Seq<Glyph>)
    requires
        glyph_views(a) == glyph_views(b),
    ensures
        glyf_table_bytes(a) == glyf_table_bytes(b),
        glyf_offsets(a) == glyf_offsets(b),
        glyf_writable(a) == glyf_writable(b),
{
    lemma_glyf_data_by_views(a, b);
    lemma_offsets_by_views(a, b);
    lemma_writable_by_views(a, b);
}

} // verus!
