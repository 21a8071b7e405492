//! The tables of a font, read from their binary form the first time they are needed.
//!
//! A [`TableSet`] holds, for each tag, either the raw bytes of a table or the
//! table in its typed form. Typed tables are held behind shared (`Rc`)
//! pointers, so that handing one out does not copy it; a [`CowPtr`] is such a
//! pointer whose value is copied before it is changed.
use crate::avar::{avar, avar_decoding, avar_encoding, segment_maps_view};
use crate::binary::DeserializationError;
use crate::cmap::{cmap, cmap_bytes, cmap_reading, cmap_writable, subtables_data};
use crate::fvar::{all_ps, any_ps, fvar, fvar_encoding, fvar_reading, instances_view};
use crate::os2::{os2, os2_decoding, os2_encoding};
use crate::post::{post, post_encoding, post_reading};
use crate::gasp::{gasp, gasp_decoding, gasp_encoding};
use crate::glyf::glyph::{Glyph, GlyphData};
use crate::glyf::table::{
    compile_glyf_loca, glyf, glyf_offsets, glyf_table_bytes, glyf_writable, glyph_views, glyphs_at,
    lemma_tables_by_views,
};
use crate::glyf::reading::Reading;
use crate::head::{head, head_decoding, head_encoding};
use crate::hhea::{hhea, hhea_decoding, hhea_encoding};
use crate::hmtx::{hmtx, hmtx_decoding, hmtx_long_count};
use crate::loca::{loca, loca_encoding, loca_indices, loca_raw_offsets};
use crate::maxp::{maxp, maxp_decoding, maxp_encoding};
use std::collections::BTreeMap;
use std::rc::Rc;
use vstd::prelude::*;
use vstd::std_specs::iter::IteratorSpec;

verus! {

broadcast use vstd::std_specs::btree::group_btree_axioms;

/// The tag `avar`, as the big-endian number of its four bytes.
pub const TAG_AVAR: u32 = 0x61766172u32;

pub const TAG_CMAP: u32 = 0x636d6170u32;

pub const TAG_FVAR: u32 = 0x66766172u32;

pub const TAG_GASP: u32 = 0x67617370u32;

pub const TAG_GPOS: u32 = 0x47504f53u32;

pub const TAG_GSUB: u32 = 0x47535542u32;

pub const TAG_GVAR: u32 = 0x67766172u32;

pub const TAG_POST: u32 = 0x706f7374u32;

pub const TAG_OS2: u32 = 0x4f532f32u32;

pub const TAG_GLYF: u32 = 0x676c7966u32;

pub const TAG_HEAD: u32 = 0x68656164u32;

pub const TAG_HHEA: u32 = 0x68686561u32;

pub const TAG_HMTX: u32 = 0x686d7478u32;

pub const TAG_LOCA: u32 = 0x6c6f6361u32;

pub const TAG_MAXP: u32 = 0x6d617870u32;

/// The tag whose four bytes are `b`, as a big-endian number.
pub fn tag_from_bytes(b: [u8; 4]) -> (r: u32)
    ensures
        r == b[0] as int * 0x1000000 + b[1] as int * 0x10000 + b[2] as int * 0x100 + b[3] as int,
{
    (b[0] as u32) * 0x1000000 + (b[1] as u32) * 0x10000 + (b[2] as u32) * 0x100 + b[3] as u32
}

/// Another pointer to the value behind `rc`.
#[verifier::external_body]
fn share<T>(rc: &Rc<T>) -> (r: Rc<T>)
    ensures
        r == *rc,
{
    Rc::clone(rc)
}

/// A reference-counted pointer with copy-on-write semantics: the value may be
/// shared by several pointers, and is copied to an allocation of its own before
/// it is changed through [`CowPtr::make_mut`].
///
/// Besides the value, the model of a pointer holds a number that names the
/// allocation it points to: pointers made by cloning one another share it.
pub struct CowPtr<T> {
    inner: Rc<T>,
    alloc: Ghost<int>,
}

impl<T> CowPtr<T> {
    /// The value pointed to.
    pub closed spec fn value(&self) -> T {
        *self.inner
    }

    /// The allocation pointed to.
    pub closed spec fn allocation(&self) -> int {
        self.alloc@
    }
}

/// A pointer to a new allocation holding `value` (`Rc::new`). Nothing is
/// stated of the number that names the new allocation: it stands for an
/// allocation that no other pointer refers to.
#[verifier::external_body]
fn allocate<T>(value: T) -> (r: CowPtr<T>)
    ensures
        r.value() == value,
{
    CowPtr { inner: Rc::new(value), alloc: Ghost(arbitrary()) }
}

/// Whether two pointers point to the same allocation (`Rc::ptr_eq`); one
/// allocation holds one value.
#[verifier::external_body]
fn same_allocation<T>(a: &CowPtr<T>, b: &CowPtr<T>) -> (r: bool)
    ensures
        r == (a.allocation() == b.allocation()),
        r ==> a.value() == b.value(),
{
    Rc::ptr_eq(&a.inner, &b.inner)
}

/// The value behind `p`, for changing (`Rc::make_mut`): where other pointers
/// share the allocation, the value is first cloned into a new one, which `p`
/// then points to. Whether that happened is not stated, so nothing is stated of
/// the allocation `p` points to afterwards.
#[verifier::external_body]
fn make_unique<T: Clone>(p: &mut CowPtr<T>) -> (r: &mut T)
    ensures
        *r == old(p).value() || cloned(old(p).value(), *r),
        final(p).value() == *final(r),
{
    Rc::make_mut(&mut p.inner)
}

impl<T: Clone> CowPtr<T> {
    /// A pointer to a new allocation holding `value`.
    pub fn new(value: T) -> (r: CowPtr<T>)
        ensures
            r.value() == value,
    {
        allocate(value)
    }

    /// Returns `true` if these two pointers point to the same allocation, which
    /// then holds the same value for both.
    pub fn ptr_eq(&self, other: &Self) -> (r: bool)
        ensures
            r == (self.allocation() == other.allocation()),
            r ==> self.value() == other.value(),
    {
        same_allocation(self, other)
    }

    /// Convert this shared pointer into the inner type, cloning if necessary.
    pub fn into_owned(self) -> (r: T)
        ensures
            r == self.value() || cloned(self.value(), r),
    {
        match Rc::try_unwrap(self.inner) {
            Ok(thing) => thing,
            Err(rc) => T::clone(&*rc),
        }
    }

    /// The value pointed to.
    pub fn get(&self) -> (r: &T)
        ensures
            *r == self.value(),
    {
        &*self.inner
    }

    /// The value pointed to, for changing: if other pointers share it, it is
    /// first cloned into an allocation of this pointer's own, so that they keep
    /// the value they had. The model of a pointer does not count the other
    /// pointers to its allocation, so the contract leaves open which allocation
    /// this pointer refers to afterwards: that it no longer shares one with the
    /// pointers it shared with before is not stated.
    pub fn make_mut(&mut self) -> (r: &mut T)
        ensures
            *r == old(self).value() || cloned(old(self).value(), *r),
            final(self).value() == *final(r),
    {
        make_unique(self)
    }
}

impl<T: Clone> Clone for CowPtr<T> {
    fn clone(&self) -> (r: Self)
        ensures
            r.value() == self.value(),
            r.allocation() == self.allocation(),
    {
        CowPtr { inner: share(&self.inner), alloc: self.alloc }
    }
}

/// A loaded OpenType table: each known table in its typed form, or the bytes of
/// any other table.
#[derive(Debug)]
pub enum LoadedTable {
    avar(Rc<avar>),
    cmap(Rc<cmap>),
    fvar(Rc<fvar>),
    gasp(Rc<gasp>),
    glyf(Rc<glyf>),
    head(Rc<head>),
    hhea(Rc<hhea>),
    hmtx(Rc<hmtx>),
    loca(Rc<loca>),
    maxp(Rc<maxp>),
    os2(Rc<os2>),
    post(Rc<post>),
    Unknown(Rc<Vec<u8>>),
}

/// The tag of a known table type.
pub open spec fn tag_of(l: LoadedTable) -> u32 {
    match l {
        LoadedTable::avar(_) => TAG_AVAR,
        LoadedTable::cmap(_) => TAG_CMAP,
        LoadedTable::fvar(_) => TAG_FVAR,
        LoadedTable::gasp(_) => TAG_GASP,
        LoadedTable::glyf(_) => TAG_GLYF,
        LoadedTable::head(_) => TAG_HEAD,
        LoadedTable::hhea(_) => TAG_HHEA,
        LoadedTable::hmtx(_) => TAG_HMTX,
        LoadedTable::loca(_) => TAG_LOCA,
        LoadedTable::maxp(_) => TAG_MAXP,
        LoadedTable::os2(_) => TAG_OS2,
        LoadedTable::post(_) => TAG_POST,
        LoadedTable::Unknown(_) => 0,
    }
}

impl Clone for LoadedTable {
    fn clone(&self) -> (r: Self)
        ensures
            r == *self,
    {
        match self {
            LoadedTable::avar(t) => LoadedTable::avar(share(t)),
            LoadedTable::cmap(t) => LoadedTable::cmap(share(t)),
            LoadedTable::fvar(t) => LoadedTable::fvar(share(t)),
            LoadedTable::gasp(t) => LoadedTable::gasp(share(t)),
            LoadedTable::glyf(t) => LoadedTable::glyf(share(t)),
            LoadedTable::head(t) => LoadedTable::head(share(t)),
            LoadedTable::hhea(t) => LoadedTable::hhea(share(t)),
            LoadedTable::hmtx(t) => LoadedTable::hmtx(share(t)),
            LoadedTable::loca(t) => LoadedTable::loca(share(t)),
            LoadedTable::maxp(t) => LoadedTable::maxp(share(t)),
            LoadedTable::os2(t) => LoadedTable::os2(share(t)),
            LoadedTable::post(t) => LoadedTable::post(share(t)),
            LoadedTable::Unknown(t) => LoadedTable::Unknown(share(t)),
        }
    }
}

/// A loaded table that can be written on its own: `glyf`, `hmtx` and `loca` are
/// written together by [`TableSet::compile_glyf_loca_maxp`], and counts must fit
/// their 16-bit fields.
pub open spec fn writable_alone(l: LoadedTable) -> bool {
    match l {
        LoadedTable::avar(a) => a.axisSegmentMaps@.len() <= 65535 && forall|i: int|
            0 <= i < a.axisSegmentMaps@.len() ==> #[trigger] a.axisSegmentMaps@[i].axisValueMaps@.len()
                <= 65535,
        LoadedTable::cmap(c) => cmap_writable(c.subtables@),
        LoadedTable::fvar(f) => !(any_ps(instances_view(f.instances@)) && !all_ps(instances_view(f.instances@))),
        LoadedTable::gasp(g) => g.gaspRanges@.len() <= 65535,
        LoadedTable::head(_) => true,
        LoadedTable::os2(_) => true,
        LoadedTable::post(_) => true,
        LoadedTable::hhea(_) => true,
        LoadedTable::maxp(_) => true,
        LoadedTable::Unknown(_) => true,
        _ => false,
    }
}

/// The bytes of a loaded table that can be written on its own.
pub open spec fn loaded_bytes(l: LoadedTable) -> Seq<u8> {
    match l {
        LoadedTable::avar(a) => avar_encoding(*a),
        LoadedTable::cmap(c) => cmap_bytes(c.subtables@),
        LoadedTable::fvar(f) => fvar_encoding(f.axes@, instances_view(f.instances@)),
        LoadedTable::gasp(g) => gasp_encoding(*g),
        LoadedTable::head(h) => head_encoding(*h),
        LoadedTable::os2(t) => os2_encoding(*t),
        LoadedTable::post(t) => post_encoding((*t)@),
        LoadedTable::hhea(h) => hhea_encoding(*h),
        LoadedTable::maxp(x) => maxp_encoding(*x),
        LoadedTable::Unknown(d) => d@,
        _ => Seq::empty(),
    }
}

impl LoadedTable {
    /// The table in binary form.
    pub fn to_bytes(&self) -> (r: Vec<u8>)
        requires
            writable_alone(*self),
        ensures
            r@ == loaded_bytes(*self),
    {
        match self {
            LoadedTable::avar(t) => t.to_bytes(),
            LoadedTable::cmap(t) => t.to_bytes(),
            LoadedTable::fvar(t) => match t.to_bytes() {
                Ok(b) => b,
                Err(_) => Vec::new(),
            },
            LoadedTable::gasp(t) => t.to_bytes(),
            LoadedTable::head(t) => t.to_bytes(),
            LoadedTable::os2(t) => t.to_bytes(),
            LoadedTable::post(t) => t.to_bytes(),
            LoadedTable::hhea(t) => t.to_bytes(),
            LoadedTable::maxp(t) => t.to_bytes(),
            LoadedTable::Unknown(d) => copy_bytes(d),
            _ => Vec::new(),
        }
    }
}

/// A copy of a byte string.
fn copy_bytes(v: &Vec<u8>) -> (r: Vec<u8>)
    ensures
        r@ == v@,
{
    let mut out: Vec<u8> = Vec::new();
    crate::binary::push_bytes(&mut out, v.as_slice());
    out
}

/// Any OpenType table: its tag, the bytes it was read from (if it has not been
/// replaced since), and its loaded form.
#[derive(Debug)]
pub struct Table {
    tag: u32,
    raw: Option<Rc<Vec<u8>>>,
    loaded: LoadedTable,
}

impl Table {
    pub closed spec fn tag_spec(&self) -> u32 {
        self.tag
    }

    pub closed spec fn loaded_spec(&self) -> LoadedTable {
        self.loaded
    }

    pub closed spec fn raw_spec(&self) -> Option<Rc<Vec<u8>>> {
        self.raw
    }

    /// A table holding a typed table, under that type's tag.
    pub fn from_loaded(loaded: LoadedTable) -> (r: Table)
        requires
            !(loaded is Unknown),
        ensures
            r.tag_spec() == tag_of(loaded),
            r.loaded_spec() == loaded,
            r.raw_spec() is None,
    {
        let tag = match &loaded {
            LoadedTable::avar(_) => TAG_AVAR,
            LoadedTable::cmap(_) => TAG_CMAP,
            LoadedTable::fvar(_) => TAG_FVAR,
            LoadedTable::gasp(_) => TAG_GASP,
            LoadedTable::glyf(_) => TAG_GLYF,
            LoadedTable::head(_) => TAG_HEAD,
            LoadedTable::hhea(_) => TAG_HHEA,
            LoadedTable::hmtx(_) => TAG_HMTX,
            LoadedTable::loca(_) => TAG_LOCA,
            LoadedTable::maxp(_) => TAG_MAXP,
            LoadedTable::os2(_) => TAG_OS2,
            LoadedTable::post(_) => TAG_POST,
            LoadedTable::Unknown(_) => 0,
        };
        Table { tag, raw: None, loaded }
    }

    pub fn tag(&self) -> (r: u32)
        ensures
            r == self.tag_spec(),
    {
        self.tag
    }

    pub fn loaded(&self) -> (r: &LoadedTable)
        ensures
            *r == self.loaded_spec(),
    {
        &self.loaded
    }
}

impl Clone for Table {
    fn clone(&self) -> (r: Self)
        ensures
            r == *self,
    {
        let raw = match &self.raw {
            Some(d) => Some(share(d)),
            None => None,
        };
        Table { tag: self.tag, raw, loaded: self.loaded.clone() }
    }
}

/// A table in a font, which may or may not have been loaded yet.
#[derive(Debug)]
pub enum LazyItem {
    Unloaded(Rc<Vec<u8>>),
    Loaded(Table),
}

/// The tables of a font, by tag.
#[derive(Debug)]
pub struct TableSet {
    tables: BTreeMap<u32, LazyItem>,
}

/// The `head` table as a set holds it: absent (`None`), unreadable (`Some(None)`),
/// or its value.
pub open spec fn head_state(m: Map<u32, LazyItem>) -> Option<Option<head>> {
    if !m.contains_key(TAG_HEAD) {
        None
    } else {
        match m[TAG_HEAD] {
            LazyItem::Unloaded(d) => Some(head_decoding(d@)),
            LazyItem::Loaded(t) => match t.loaded_spec() {
                LoadedTable::head(h) => Some(Some(*h)),
                _ => Some(None),
            },
        }
    }
}

/// The `hhea` table as a set holds it.
pub open spec fn hhea_state(m: Map<u32, LazyItem>) -> Option<Option<hhea>> {
    if !m.contains_key(TAG_HHEA) {
        None
    } else {
        match m[TAG_HHEA] {
            LazyItem::Unloaded(d) => Some(hhea_decoding(d@)),
            LazyItem::Loaded(t) => match t.loaded_spec() {
                LoadedTable::hhea(h) => Some(Some(*h)),
                _ => Some(None),
            },
        }
    }
}

/// The offsets of the `loca` table as a set holds it; reading raw offsets takes
/// the `head` table.
pub open spec fn loca_state(m: Map<u32, LazyItem>) -> Option<Option<Seq<Option<u32>>>> {
    if !m.contains_key(TAG_LOCA) {
        None
    } else {
        match m[TAG_LOCA] {
            LazyItem::Unloaded(d) => match head_state(m) {
                Some(Some(h)) => Some(Some(loca_indices(loca_raw_offsets(d@, h.indexToLocFormat == 1)))),
                _ => Some(None),
            },
            LazyItem::Loaded(t) => match t.loaded_spec() {
                LoadedTable::loca(l) => Some(Some(l.indices@)),
                _ => Some(None),
            },
        }
    }
}

/// Reading `data` as table `tag` has an outcome: the `hmtx` table needs at least
/// one full metric, and the glyphs must be readable at the `loca` offsets.
pub open spec fn table_defined(m: Map<u32, LazyItem>, tag: u32, data: Seq<u8>) -> bool {
    if tag == TAG_HMTX {
        hhea_state(m) matches Some(Some(h)) ==> h.numberOfHMetrics >= 1
    } else if tag == TAG_GLYF {
        loca_state(m) matches Some(Some(ix)) ==> glyphs_at(data, ix) !is Undefined
    } else if tag == TAG_GVAR {
        m.contains_key(TAG_GLYF) ==> (m[TAG_GLYF] matches LazyItem::Unloaded(d) ==> (loca_state(m) matches Some(
            Some(ix),
        ) ==> glyphs_at(d@, ix) !is Undefined))
    } else if tag == TAG_CMAP {
        cmap_reading(data) !is Undefined
    } else if tag == TAG_POST {
        post_reading(data) !is Undefined
    } else if tag == TAG_FVAR {
        fvar_reading(data) != Some(None::<(Seq<crate::fvar::VariationAxisRecord>, Seq<(u16, Seq<i32>, Option<u16>)>)>)
    } else {
        true
    }
}

/// What reading `data` as table `tag` gives, in a set holding `m`.
pub open spec fn table_read(
    m: Map<u32, LazyItem>,
    tag: u32,
    data: Seq<u8>,
    r: Result<LoadedTable, DeserializationError>,
) -> bool {
    if tag == TAG_AVAR {
        match r {
            Ok(l) => l matches LoadedTable::avar(a) && avar_decoding(data) == Some(
                (a.majorVersion, a.minorVersion, a.reserved, segment_maps_view(a.axisSegmentMaps@)),
            ),
            Err(_) => avar_decoding(data) is None,
        }
    } else if tag == TAG_GASP {
        match r {
            Ok(l) => l matches LoadedTable::gasp(g) && gasp_decoding(data) == Some((g.version, g.gaspRanges@)),
            Err(_) => gasp_decoding(data) is None,
        }
    } else if tag == TAG_HEAD {
        match r {
            Ok(l) => l matches LoadedTable::head(h) && head_decoding(data) == Some(*h),
            Err(_) => head_decoding(data) is None,
        }
    } else if tag == TAG_HHEA {
        match r {
            Ok(l) => l matches LoadedTable::hhea(h) && hhea_decoding(data) == Some(*h),
            Err(_) => hhea_decoding(data) is None,
        }
    } else if tag == TAG_MAXP {
        match r {
            Ok(l) => l matches LoadedTable::maxp(t) && maxp_decoding(data) == Some(*t),
            Err(_) => maxp_decoding(data) is None,
        }
    } else if tag == TAG_HMTX {
        match hhea_state(m) {
            Some(Some(h)) => match r {
                Ok(l) => l matches LoadedTable::hmtx(t) && hmtx_decoding(data, h.numberOfHMetrics as int)
                    == Some(t.metrics@),
                Err(_) => hmtx_decoding(data, h.numberOfHMetrics as int) is None,
            },
            None => r == Err::<LoadedTable, DeserializationError>(DeserializationError::Missing),
            Some(None) => r is Err,
        }
    } else if tag == TAG_LOCA {
        match head_state(m) {
            Some(Some(h)) => r matches Ok(l) && l matches LoadedTable::loca(t) && t.indices@
                == loca_indices(loca_raw_offsets(data, h.indexToLocFormat == 1)),
            None => r == Err::<LoadedTable, DeserializationError>(DeserializationError::Missing),
            Some(None) => r is Err,
        }
    } else if tag == TAG_GLYF {
        match loca_state(m) {
            Some(Some(ix)) => match r {
                Ok(l) => l matches LoadedTable::glyf(t) && glyphs_at(data, ix) == Reading::Value(
                    glyph_views(t.glyphs@),
                    0,
                ),
                Err(e) => glyphs_at(data, ix) == Reading::<Seq<crate::glyf::glyph::GlyphData>>::Error(e),
            },
            None => r == Err::<LoadedTable, DeserializationError>(DeserializationError::Missing),
            Some(None) => r is Err,
        }
    } else if tag == TAG_CMAP {
        match r {
            Ok(l) => l matches LoadedTable::cmap(c) && cmap_reading(data) matches Reading::Value(v, _)
                && subtables_data(c.subtables@) == v,
            Err(e) => cmap_reading(data) == Reading::<Seq<crate::cmap::SubtableData>>::Error(e),
        }
    } else if tag == TAG_POST {
        match r {
            Ok(l) => l matches LoadedTable::post(t) && post_reading(data) matches Reading::Value(v, _) && v
                == (*t)@,
            Err(e) => post_reading(data) == Reading::<crate::post::PostData>::Error(e),
        }
    } else if tag == TAG_OS2 {
        match r {
            Ok(l) => l matches LoadedTable::os2(t) && os2_decoding(data) == Some(*t),
            Err(_) => os2_decoding(data) is None,
        }
    } else if tag == TAG_FVAR {
        match r {
            Ok(l) => l matches LoadedTable::fvar(t) && fvar_reading(data) == Some(
                Some((t.axes@, instances_view(t.instances@))),
            ),
            Err(_) => fvar_reading(data) is None,
        }
    } else if tag == TAG_GPOS || tag == TAG_GSUB {
        match maxp_state(m) {
            Some(Some(_)) => r matches Ok(l) && l matches LoadedTable::Unknown(d) && d@ == data,
            None => r == Err::<LoadedTable, DeserializationError>(DeserializationError::Missing),
            Some(None) => r is Err,
        }
    } else if tag == TAG_GVAR {
        match glyf_state(m) {
            Some(Some(_)) => r matches Ok(l) && l matches LoadedTable::Unknown(d) && d@ == data,
            None => r == Err::<LoadedTable, DeserializationError>(DeserializationError::Missing),
            Some(None) => r is Err,
        }
    } else {
        r matches Ok(l) && l matches LoadedTable::Unknown(d) && d@ == data
    }
}

impl TableSet {
    /// The tables of the set, by tag.
    pub closed spec fn items(&self) -> Map<u32, LazyItem> {
        self.tables@
    }

    /// The set holds finitely many tables; every loaded table sits under its own
    /// tag, and a typed table under the tag of its type.
    pub open spec fn wf(&self) -> bool {
        &&& self.items().dom().finite()
        &&& forall|k: u32|
            #[trigger] self.items().contains_key(k) ==> (self.items()[k] matches LazyItem::Loaded(t)
                ==> t.tag_spec() == k && (!(t.loaded_spec() is Unknown) ==> tag_of(t.loaded_spec()) == k))
    }

    /// An empty set.
    pub fn new() -> (r: TableSet)
        ensures
            r.items() == Map::<u32, LazyItem>::empty(),
            r.wf(),
    {
        TableSet { tables: BTreeMap::new() }
    }

    /// The number of tables in this set.
    pub fn len(&self) -> (r: usize)
        ensures
            r == self.items().len(),
            self.items().dom().finite(),
    {
        proof {
            lemma_tags_ordered();
        }
        self.tables.len()
    }

    /// Returns `true` if the table store contains no tables.
    pub fn is_empty(&self) -> (r: bool)
        ensures
            r == (self.items().len() == 0),
    {
        proof {
            lemma_tags_ordered();
        }
        self.tables.len() == 0
    }

    /// Returns `true` if the provided tag is a table in this `TableSet`.
    pub fn contains(&self, tag: &u32) -> (r: bool)
        ensures
            r == self.items().contains_key(*tag),
    {
        proof {
            lemma_tags_ordered();
        }
        self.tables.contains_key(tag)
    }

    /// The tags of the tables in this set, in increasing order.
    pub fn keys(&self) -> (r: Vec<u32>)
        ensures
            forall|i: int, j: int| 0 <= i < j < r@.len() ==> r@[i] < r@[j],
            forall|i: int| 0 <= i < r@.len() ==> self.items().contains_key(#[trigger] r@[i]),
            forall|k: u32| self.items().contains_key(k) ==> r@.contains(k),
    {
        proof {
            lemma_tags_ordered();
        }
        let ghost whole = vstd::std_specs::btree::spec_btree_map_iter(&self.tables).remaining();
        let mut out: Vec<u32> = Vec::new();
        for kv in it: self.tables.iter()
            invariant
                it.seq() == whole,
                out@ == it.seq().take(it.index()).map_values(|x: (&u32, &LazyItem)| *x.0),
        {
            out.push(*kv.0);
            assert(it.seq().take(it.index() + 1) == it.seq().take(it.index()).push(kv));
        }
        proof {
            assert(out@ == whole.map_values(|x: (&u32, &LazyItem)| *x.0));
            lemma_increasing_tags(out@);
            assert forall|k: u32| self.items().contains_key(k) implies out@.contains(k) by {
                assert(whole.contains((&k, &self.tables@[k])));
                let i = choose|i: int| 0 <= i < whole.len() && whole[i] == (&k, &self.tables@[k]);
                assert(out@[i] == k);
            }
        }
        out
    }

    /// Insert a table into this set under its tag, replacing any table there.
    pub fn insert(&mut self, table: Table)
        requires
            old(self).wf(),
            !(table.loaded_spec() is Unknown) ==> table.tag_spec() == tag_of(table.loaded_spec()),
        ensures
            final(self).items() == old(self).items().insert(table.tag_spec(), LazyItem::Loaded(table)),
            final(self).items().len() == old(self).items().len() + (if old(self).items().contains_key(
                table.tag_spec(),
            ) {
                0int
            } else {
                1int
            }),
            final(self).wf(),
    {
        proof {
            lemma_tags_ordered();
        }
        let tag = table.tag;
        self.tables.insert(tag, LazyItem::Loaded(table));
    }

    /// Assign raw binary data to a table, replacing any table under `tag`; it is
    /// read again on the next access.
    pub fn insert_raw(&mut self, tag: u32, data: Vec<u8>)
        requires
            old(self).wf(),
        ensures
            final(self).items().contains_key(tag),
            final(self).items()[tag] matches LazyItem::Unloaded(d) && d@ == data@,
            final(self).items() == old(self).items().insert(tag, final(self).items()[tag]),
            final(self).items().len() == old(self).items().len() + (if old(self).items().contains_key(tag) {
                0int
            } else {
                1int
            }),
            final(self).wf(),
    {
        proof {
            lemma_tags_ordered();
        }
        self.tables.insert(tag, LazyItem::Unloaded(Rc::new(data)));
    }

    /// Remove a table from this set, returning it if it had been loaded.
    pub fn remove(&mut self, tag: u32) -> (r: Option<Table>)
        requires
            old(self).wf(),
        ensures
            final(self).items() == old(self).items().remove(tag),
            final(self).items().len() == old(self).items().len() - (if old(self).items().contains_key(tag) {
                1int
            } else {
                0int
            }),
            r == (if old(self).items().contains_key(tag) {
                match old(self).items()[tag] {
                    LazyItem::Loaded(t) => Some(t),
                    LazyItem::Unloaded(_) => None,
                }
            } else {
                None
            }),
            final(self).wf(),
    {
        proof {
            lemma_tags_ordered();
        }
        match self.tables.remove(&tag) {
            Some(LazyItem::Loaded(t)) => Some(t),
            _ => None,
        }
    }

    /// The `head` table, loading it if needed.
    fn head_value(&self) -> (r: Result<head, DeserializationError>)
        requires
            self.wf(),
        ensures
            match head_state(self.items()) {
                None => r == Err::<head, DeserializationError>(DeserializationError::Missing),
                Some(None) => r is Err,
                Some(Some(h)) => r == Ok::<head, DeserializationError>(h),
            },
    {
        proof {
            lemma_tags_ordered();
        }
        match self.tables.get(&TAG_HEAD) {
            None => Err(DeserializationError::Missing),
            Some(LazyItem::Unloaded(d)) => head::from_bytes(d.as_slice()),
            Some(LazyItem::Loaded(t)) => match &t.loaded {
                LoadedTable::head(h) => Ok(**h),
                _ => Err(DeserializationError::BadFormat),
            },
        }
    }

    /// The `hhea` table, loading it if needed.
    fn hhea_value(&self) -> (r: Result<hhea, DeserializationError>)
        requires
            self.wf(),
        ensures
            match hhea_state(self.items()) {
                None => r == Err::<hhea, DeserializationError>(DeserializationError::Missing),
                Some(None) => r is Err,
                Some(Some(h)) => r == Ok::<hhea, DeserializationError>(h),
            },
    {
        proof {
            lemma_tags_ordered();
        }
        match self.tables.get(&TAG_HHEA) {
            None => Err(DeserializationError::Missing),
            Some(LazyItem::Unloaded(d)) => hhea::from_bytes(d.as_slice()),
            Some(LazyItem::Loaded(t)) => match &t.loaded {
                LoadedTable::hhea(h) => Ok(**h),
                _ => Err(DeserializationError::BadFormat),
            },
        }
    }

    /// The `loca` offsets, loading the table (and `head`) if needed.
    fn loca_value(&self) -> (r: Result<Vec<Option<u32>>, DeserializationError>)
        requires
            self.wf(),
        ensures
            match loca_state(self.items()) {
                None => r == Err::<Vec<Option<u32>>, DeserializationError>(DeserializationError::Missing),
                Some(None) => r is Err,
                Some(Some(ix)) => r matches Ok(v) && v@ == ix,
            },
    {
        proof {
            lemma_tags_ordered();
        }
        match self.tables.get(&TAG_LOCA) {
            None => Err(DeserializationError::Missing),
            Some(LazyItem::Unloaded(d)) => {
                let h = match self.head_value() {
                    Ok(h) => h,
                    Err(e) => {
                        return Err(e);
                    },
                };
                let l = crate::loca::from_bytes(d.as_slice(), h.indexToLocFormat == 1);
                Ok(l.indices)
            },
            Some(LazyItem::Loaded(t)) => match &t.loaded {
                LoadedTable::loca(l) => Ok(copy_offsets(&l.indices)),
                _ => Err(DeserializationError::BadFormat),
            },
        }
    }

    /// Read `data` as the table `tag`: each known tag with its own reader (`hmtx`
    /// with the count of full metrics from `hhea`, `loca` with the offset size
    /// from `head`, `glyf` at the `loca` offsets), any other tag as raw bytes.
    /// `GPOS` and `GSUB` need a readable `maxp` table, and `gvar` a readable
    /// `glyf` table; they are then kept as raw bytes: this library reads the
    /// subtables of `GPOS` and `GSUB` but not the whole tables, and reads `gvar`
    /// with [`crate::gvar::gvar_from_bytes`] given each glyph's point count,
    /// leaving the interpolation of deltas (in floating point) to its caller.
    pub fn deserialize_table(&self, tag: u32, data: Rc<Vec<u8>>) -> (r: Result<Table, DeserializationError>)
        requires
            self.wf(),
            table_defined(self.items(), tag, data@),
        ensures
            match r {
                Ok(t) => t.tag_spec() == tag && t.raw_spec() == Some(data) && table_read(
                    self.items(),
                    tag,
                    data@,
                    Ok(t.loaded_spec()),
                ),
                Err(e) => table_read(self.items(), tag, data@, Err(e)),
            },
    {
        let loaded: LoadedTable = if tag == TAG_AVAR {
            match avar::from_bytes(data.as_slice()) {
                Ok(t) => LoadedTable::avar(Rc::new(t)),
                Err(e) => {
                    return Err(e);
                },
            }
        } else if tag == TAG_GASP {
            match gasp::from_bytes(data.as_slice()) {
                Ok(t) => LoadedTable::gasp(Rc::new(t)),
                Err(e) => {
                    return Err(e);
                },
            }
        } else if tag == TAG_HEAD {
            match head::from_bytes(data.as_slice()) {
                Ok(t) => LoadedTable::head(Rc::new(t)),
                Err(e) => {
                    return Err(e);
                },
            }
        } else if tag == TAG_HHEA {
            match hhea::from_bytes(data.as_slice()) {
                Ok(t) => LoadedTable::hhea(Rc::new(t)),
                Err(e) => {
                    return Err(e);
                },
            }
        } else if tag == TAG_MAXP {
            match maxp::from_bytes(data.as_slice()) {
                Ok(t) => LoadedTable::maxp(Rc::new(t)),
                Err(e) => {
                    return Err(e);
                },
            }
        } else if tag == TAG_HMTX {
            let h = match self.hhea_value() {
                Ok(h) => h,
                Err(e) => {
                    return Err(e);
                },
            };
            match crate::hmtx::from_bytes(data.as_slice(), h.numberOfHMetrics) {
                Ok(t) => LoadedTable::hmtx(Rc::new(t)),
                Err(e) => {
                    return Err(e);
                },
            }
        } else if tag == TAG_LOCA {
            let h = match self.head_value() {
                Ok(h) => h,
                Err(e) => {
                    return Err(e);
                },
            };
            LoadedTable::loca(Rc::new(crate::loca::from_bytes(data.as_slice(), h.indexToLocFormat == 1)))
        } else if tag == TAG_GLYF {
            let ix = match self.loca_value() {
                Ok(ix) => ix,
                Err(e) => {
                    return Err(e);
                },
            };
            match glyf::from_bytes(data.as_slice(), ix.as_slice()) {
                Ok(t) => LoadedTable::glyf(Rc::new(t)),
                Err(e) => {
                    return Err(e);
                },
            }
        } else if tag == TAG_CMAP {
            match cmap::from_bytes(data.as_slice()) {
                Ok(t) => LoadedTable::cmap(Rc::new(t)),
                Err(e) => {
                    return Err(e);
                },
            }
        } else if tag == TAG_POST {
            match post::from_bytes(data.as_slice()) {
                Ok(t) => LoadedTable::post(Rc::new(t)),
                Err(e) => {
                    return Err(e);
                },
            }
        } else if tag == TAG_OS2 {
            match os2::from_bytes(data.as_slice()) {
                Ok(t) => LoadedTable::os2(Rc::new(t)),
                Err(e) => {
                    return Err(e);
                },
            }
        } else if tag == TAG_FVAR {
            match fvar::from_bytes(data.as_slice()) {
                Ok(t) => LoadedTable::fvar(Rc::new(t)),
                Err(e) => {
                    return Err(e);
                },
            }
        } else if tag == TAG_GPOS || tag == TAG_GSUB {
            if let Err(e) = self.maxp_value() {
                return Err(e);
            }
            LoadedTable::Unknown(share(&data))
        } else if tag == TAG_GVAR {
            if let Err(e) = self.glyf_ready() {
                return Err(e);
            }
            LoadedTable::Unknown(share(&data))
        } else {
            LoadedTable::Unknown(share(&data))
        };
        Ok(Table { tag, raw: Some(data), loaded })
    }

    /// Whether the `glyf` table can be read, reading it (and `loca` and `head`)
    /// if needed.
    fn glyf_ready(&self) -> (r: Result<(), DeserializationError>)
        requires
            self.wf(),
            table_defined(self.items(), TAG_GVAR, Seq::empty()),
        ensures
            match glyf_state(self.items()) {
                None => r == Err::<(), DeserializationError>(DeserializationError::Missing),
                Some(None) => r is Err,
                Some(Some(_)) => r is Ok,
            },
    {
        proof {
            lemma_tags_ordered();
        }
        match self.tables.get(&TAG_GLYF) {
            None => Err(DeserializationError::Missing),
            Some(LazyItem::Unloaded(d)) => {
                let ix = match self.loca_value() {
                    Ok(ix) => ix,
                    Err(e) => {
                        return Err(e);
                    },
                };
                match glyf::from_bytes(d.as_slice(), ix.as_slice()) {
                    Ok(_) => Ok(()),
                    Err(e) => Err(e),
                }
            },
            Some(LazyItem::Loaded(t)) => match &t.loaded {
                LoadedTable::glyf(_) => Ok(()),
                _ => Err(DeserializationError::BadFormat),
            },
        }
    }

    /// Get a table, reading it from its bytes if it has not been loaded; the
    /// table read is kept in the set.
    pub fn get(&mut self, tag: u32) -> (r: Result<Option<Table>, DeserializationError>)
        requires
            old(self).wf(),
            old(self).items().contains_key(tag) ==> (old(self).items()[tag] matches LazyItem::Unloaded(d)
                ==> table_defined(old(self).items(), tag, d@)),
        ensures
            final(self).wf(),
            !old(self).items().contains_key(tag) ==> r == Ok::<Option<Table>, DeserializationError>(None)
                && final(self).items() == old(self).items(),
            old(self).items().contains_key(tag) ==> match old(self).items()[tag] {
                LazyItem::Loaded(t) => r == Ok::<Option<Table>, DeserializationError>(Some(t))
                    && final(self).items() == old(self).items(),
                LazyItem::Unloaded(d) => match r {
                    Ok(Some(t)) => t.tag_spec() == tag && t.raw_spec() == Some(d) && table_read(
                        old(self).items(),
                        tag,
                        d@,
                        Ok(t.loaded_spec()),
                    ) && final(self).items() == old(self).items().insert(tag, LazyItem::Loaded(t)),
                    Ok(None) => false,
                    Err(e) => table_read(old(self).items(), tag, d@, Err(e))
                        && final(self).items() == old(self).items(),
                },
            },
    {
        if let Err(e) = self.load_if_needed(tag) {
            return Err(e);
        }
        proof {
            lemma_tags_ordered();
        }
        let r = match self.tables.get(&tag) {
            Some(LazyItem::Loaded(t)) => Ok(Some(t.clone())),
            _ => Ok(None),
        };
        proof {
            if old(self).items().contains_key(tag) {
                assert(self.items() =~= old(self).items().insert(tag, self.items()[tag]));
            }
        }
        r
    }

    /// Load table `tag` if it is held as bytes, keeping the loaded form.
    pub fn load_if_needed(&mut self, tag: u32) -> (r: Result<(), DeserializationError>)
        requires
            old(self).wf(),
            old(self).items().contains_key(tag) ==> (old(self).items()[tag] matches LazyItem::Unloaded(d)
                ==> table_defined(old(self).items(), tag, d@)),
        ensures
            final(self).wf(),
            final(self).items().dom() == old(self).items().dom(),
            forall|k: u32| k != tag && #[trigger] old(self).items().contains_key(k) ==> final(self).items()[k]
                == old(self).items()[k],
            old(self).items().contains_key(tag) ==> match old(self).items()[tag] {
                LazyItem::Loaded(_) => r is Ok && final(self).items() == old(self).items(),
                LazyItem::Unloaded(d) => match r {
                    Ok(()) => final(self).items()[tag] matches LazyItem::Loaded(t) && t.tag_spec() == tag
                        && t.raw_spec() == Some(d) && table_read(old(self).items(), tag, d@, Ok(t.loaded_spec())),
                    Err(e) => table_read(old(self).items(), tag, d@, Err(e)) && final(self).items()
                        == old(self).items(),
                },
            },
            !old(self).items().contains_key(tag) ==> r is Ok && final(self).items() == old(self).items(),
            same_states(old(self).items(), final(self).items()),
    {
        proof {
            lemma_tags_ordered();
        }
        let to_load = match self.tables.get(&tag) {
            Some(LazyItem::Unloaded(d)) => share(d),
            _ => {
                return Ok(());
            },
        };
        let t = match self.deserialize_table(tag, to_load) {
            Ok(t) => t,
            Err(e) => {
                return Err(e);
            },
        };
        let ghost before = self.tables@;
        self.tables.insert(tag, LazyItem::Loaded(t));
        proof {
            lemma_load_keeps_states(before, tag, self.tables@);
        }
        Ok(())
    }
}

/// Two states of a set in which `head`, `hhea` and the `loca` offsets read the
/// same, so that every other table reads the same in both.
pub open spec fn same_states(a: Map<u32, LazyItem>, b: Map<u32, LazyItem>) -> bool {
    &&& head_state(a) == head_state(b)
    &&& hhea_state(a) == hhea_state(b)
    &&& loca_state(a) == loca_state(b)
    &&& maxp_state(a) == maxp_state(b)
    &&& glyf_state(a) == glyf_state(b)
}

/// Replacing the bytes of a table by what reading them gave keeps the states.
proof fn lemma_load_keeps_states(m: Map<u32, LazyItem>, tag: u32, m2: Map<u32, LazyItem>)
    requires
        m.contains_key(tag),
        m[tag] is Unloaded,
        m2.contains_key(tag),
        m2[tag] matches LazyItem::Loaded(t) && table_read(m, tag, m[tag]->Unloaded_0@, Ok(t.loaded_spec())),
        m2 == m.insert(tag, m2[tag]),
    ensures
        same_states(m, m2),
{
    assert(head_state(m) == head_state(m2));
    assert(hhea_state(m) == hhea_state(m2));
    assert(loca_state(m) == loca_state(m2));
    assert(maxp_state(m) == maxp_state(m2));
    assert(glyf_state(m) == glyf_state(m2));
}

/// Every table held as bytes has a defined reading.
pub open spec fn all_readable(m: Map<u32, LazyItem>) -> bool {
    forall|k: u32|
        #[trigger] m.contains_key(k) ==> (m[k] matches LazyItem::Unloaded(d) ==> table_defined(m, k, d@))
}

/// `item` is the table `k` of `m`, or what reading its bytes gave.
pub open spec fn loaded_from(m: Map<u32, LazyItem>, k: u32, item: LazyItem) -> bool {
    ||| item == m[k]
    ||| (m[k] matches LazyItem::Unloaded(d) && item matches LazyItem::Loaded(t) && t.tag_spec() == k
        && t.raw_spec() == Some(d) && table_read(m, k, d@, Ok(t.loaded_spec())))
}

/// Table `k` of `m` is held as bytes that cannot be read.
pub open spec fn read_fails(m: Map<u32, LazyItem>, k: u32) -> bool {
    m[k] matches LazyItem::Unloaded(d) && exists|e: DeserializationError| #[trigger] table_read(m, k, d@, Err(e))
}

/// The tables that must be readable for a font to be read: `head` and `maxp`,
/// and `loca` and `glyf` where there is a `glyf` table.
pub open spec fn essential(m: Map<u32, LazyItem>, k: u32) -> bool {
    ||| k == TAG_HEAD
    ||| k == TAG_MAXP
    ||| (m.contains_key(TAG_GLYF) && (k == TAG_LOCA || k == TAG_GLYF))
}

impl TableSet {
    /// Load table `tag` as part of reading the whole set: the step keeps what
    /// the set held and what its tables read as.
    fn load_step(&mut self, tag: u32, Ghost(orig): Ghost<Map<u32, LazyItem>>) -> (r: Result<(), DeserializationError>)
        requires
            old(self).wf(),
            orig.contains_key(tag) ==> (orig[tag] matches LazyItem::Unloaded(d) ==> table_defined(orig, tag, d@)),
            same_states(orig, old(self).items()),
            old(self).items().dom() == orig.dom(),
            forall|k: u32| #[trigger] orig.contains_key(k) ==> loaded_from(orig, k, old(self).items()[k]),
        ensures
            final(self).wf(),
            same_states(orig, final(self).items()),
            final(self).items().dom() == orig.dom(),
            forall|k: u32| #[trigger] orig.contains_key(k) ==> loaded_from(orig, k, final(self).items()[k]),
            forall|k: u32| k != tag && #[trigger] orig.contains_key(k) ==> final(self).items()[k]
                == old(self).items()[k],
            orig.contains_key(tag) ==> match r {
                Ok(()) => final(self).items()[tag] is Loaded,
                Err(e) => orig[tag] matches LazyItem::Unloaded(d) && table_read(orig, tag, d@, Err(e))
                    && final(self).items()[tag] == orig[tag],
            },
            old(self).items().contains_key(tag) && old(self).items()[tag] is Loaded ==> final(self).items()
                == old(self).items(),
            !orig.contains_key(tag) ==> r is Ok,
    {
        let ghost cur = self.items();
        proof {
            if cur.contains_key(tag) {
                if cur[tag] is Unloaded {
                    assert(orig[tag] == cur[tag]);
                    assert(table_defined(orig, tag, cur[tag]->Unloaded_0@));
                }
            }
        }
        let r = self.load_if_needed(tag);
        proof {
            if cur.contains_key(tag) && cur[tag] is Unloaded {
                assert(orig[tag] == cur[tag]);
            }
        }
        r
    }

    /// Read every table held as bytes: first `head` and `maxp`, then `loca` and
    /// `glyf` if there is a `glyf` table, which must all be readable; then every
    /// other table, leaving as bytes those that cannot be read.
    pub fn fully_deserialize(&mut self) -> (r: Result<(), DeserializationError>)
        requires
            old(self).wf(),
            all_readable(old(self).items()),
        ensures
            final(self).wf(),
            final(self).items().dom() == old(self).items().dom(),
            forall|k: u32| #[trigger] old(self).items().contains_key(k) ==> loaded_from(
                old(self).items(),
                k,
                final(self).items()[k],
            ),
            r is Ok ==> forall|k: u32|
                #[trigger] old(self).items().contains_key(k) && final(self).items()[k] is Unloaded ==> read_fails(
                    old(self).items(),
                    k,
                ) && !essential(old(self).items(), k),
            r matches Err(e) ==> exists|k: u32|
                #[trigger] old(self).items().contains_key(k) && essential(old(self).items(), k) && (old(
                    self,
                ).items()[k] matches LazyItem::Unloaded(d) && table_read(old(self).items(), k, d@, Err(e))),
    {
        let ghost orig = self.items();
        proof {
            assert forall|k: u32| #[trigger] orig.contains_key(k) implies loaded_from(orig, k, self.items()[k]) by {}
        }
        let r = self.load_step(TAG_HEAD, Ghost(orig));
        if let Err(e) = r {
            assert(orig.contains_key(TAG_HEAD) && essential(orig, TAG_HEAD));
            return Err(e);
        }
        let r = self.load_step(TAG_MAXP, Ghost(orig));
        if let Err(e) = r {
            assert(orig.contains_key(TAG_MAXP) && essential(orig, TAG_MAXP));
            return Err(e);
        }
        proof {
            lemma_tags_ordered();
        }
        if self.tables.contains_key(&TAG_GLYF) {
            let r = self.load_step(TAG_LOCA, Ghost(orig));
            if let Err(e) = r {
                assert(orig.contains_key(TAG_LOCA) && essential(orig, TAG_LOCA));
                return Err(e);
            }
            let r = self.load_step(TAG_GLYF, Ghost(orig));
            if let Err(e) = r {
                assert(orig.contains_key(TAG_GLYF) && essential(orig, TAG_GLYF));
                return Err(e);
            }
        }
        let ghost after_essential = self.items();
        let keys = self.keys();
        let mut i: usize = 0;
        while i < keys.len()
            invariant
                i <= keys@.len(),
                self.wf(),
                all_readable(orig),
                same_states(orig, self.items()),
                self.items().dom() == orig.dom(),
                forall|k: u32| #[trigger] orig.contains_key(k) ==> loaded_from(orig, k, self.items()[k]),
                forall|k: u32| #[trigger] orig.contains_key(k) && essential(orig, k) ==> self.items()[k] is Loaded,
                forall|j: int| 0 <= j < keys@.len() ==> orig.contains_key(#[trigger] keys@[j]),
                forall|k: u32| orig.contains_key(k) ==> keys@.contains(k),
                forall|j: int|
                    0 <= j < i ==> (self.items()[#[trigger] keys@[j]] is Loaded || read_fails(orig, keys@[j])),
                forall|k: u32| #[trigger] orig.contains_key(k) && self.items()[k] is Unloaded ==> self.items()[k]
                    == orig[k],
            decreases keys@.len() - i,
        {
            let k = keys[i];
            let ghost before = self.items();
            let r = self.load_step(k, Ghost(orig));
            proof {
                if let Err(e) = r {
                    let d = orig[k]->Unloaded_0;
                    assert(table_read(orig, k, d@, Err(e)));
                }
                assert forall|j: int| 0 <= j < i + 1 implies (self.items()[#[trigger] keys@[j]] is Loaded
                    || read_fails(orig, keys@[j])) by {
                    if keys@[j] != k {
                        assert(self.items()[keys@[j]] == before[keys@[j]]);
                    }
                }
                assert forall|k2: u32| #[trigger] orig.contains_key(k2) && essential(orig, k2)
                    implies self.items()[k2] is Loaded by {
                    if k2 != k {
                        assert(self.items()[k2] == before[k2]);
                    }
                }
                assert forall|k2: u32| #[trigger] orig.contains_key(k2) && self.items()[k2] is Unloaded
                    implies self.items()[k2] == orig[k2] by {
                    if k2 != k {
                        assert(self.items()[k2] == before[k2]);
                    }
                }
            }
            i = i + 1;
        }
        proof {
            assert forall|k: u32| #[trigger] orig.contains_key(k) && self.items()[k] is Unloaded implies read_fails(
                orig,
                k,
            ) && !essential(orig, k) by {
                assert(keys@.contains(k));
                let j = choose|j: int| 0 <= j < keys@.len() && keys@[j] == k;
                assert(self.items()[keys@[j]] is Loaded || read_fails(orig, keys@[j]));
            }
        }
        Ok(())
    }
}

/// Whether table `tag` is held in binary form: `None` where it is absent; `true`
/// where it is held as bytes, or was read from bytes and not replaced since.
pub open spec fn serialized(m: Map<u32, LazyItem>, tag: u32) -> Option<bool> {
    if !m.contains_key(tag) {
        None
    } else {
        match m[tag] {
            LazyItem::Unloaded(_) => Some(true),
            LazyItem::Loaded(t) => Some(t.raw_spec() is Some),
        }
    }
}

/// The `maxp` table as a set holds it.
pub open spec fn maxp_state(m: Map<u32, LazyItem>) -> Option<Option<maxp>> {
    if !m.contains_key(TAG_MAXP) {
        None
    } else {
        match m[TAG_MAXP] {
            LazyItem::Unloaded(d) => Some(maxp_decoding(d@)),
            LazyItem::Loaded(t) => match t.loaded_spec() {
                LoadedTable::maxp(x) => Some(Some(*x)),
                _ => Some(None),
            },
        }
    }
}

/// The metrics of the `hmtx` table as a set holds it; reading them takes `hhea`.
pub open spec fn hmtx_state(m: Map<u32, LazyItem>) -> Option<Option<Seq<crate::hmtx::Metric>>> {
    if !m.contains_key(TAG_HMTX) {
        None
    } else {
        match m[TAG_HMTX] {
            LazyItem::Unloaded(d) => match hhea_state(m) {
                Some(Some(h)) => if h.numberOfHMetrics >= 1 {
                    Some(hmtx_decoding(d@, h.numberOfHMetrics as int))
                } else {
                    Some(None)
                },
                _ => Some(None),
            },
            LazyItem::Loaded(t) => match t.loaded_spec() {
                LoadedTable::hmtx(x) => Some(Some(x.metrics@)),
                _ => Some(None),
            },
        }
    }
}

/// The glyphs of the `glyf` table as a set holds it; reading them takes `loca`.
pub open spec fn glyf_state(m: Map<u32, LazyItem>) -> Option<Option<Seq<GlyphData>>> {
    if !m.contains_key(TAG_GLYF) {
        None
    } else {
        match m[TAG_GLYF] {
            LazyItem::Unloaded(d) => match loca_state(m) {
                Some(Some(ix)) => match glyphs_at(d@, ix) {
                    Reading::Value(v, _) => Some(Some(v)),
                    _ => Some(None),
                },
                _ => Some(None),
            },
            LazyItem::Loaded(t) => match t.loaded_spec() {
                LoadedTable::glyf(g) => Some(Some(glyph_views(g.glyphs@))),
                _ => Some(None),
            },
        }
    }
}

/// Absent, or readable metrics with at least one and at most 65535 of them.
pub open spec fn metrics_writable(o: Option<Option<Seq<crate::hmtx::Metric>>>) -> bool {
    match o {
        None => true,
        Some(Some(ms)) => 1 <= ms.len() <= 65535,
        Some(None) => false,
    }
}

/// Absent, or readable glyphs that can be written.
pub open spec fn glyphs_writable(o: Option<Option<Seq<GlyphData>>>) -> bool {
    match o {
        None => true,
        Some(Some(v)) => glyf_writable(glyphs_for(v)),
        Some(None) => false,
    }
}

/// Glyphs holding the data `v`; every such list is written the same way.
pub open spec fn glyphs_for(v: Seq<GlyphData>) -> Seq<Glyph> {
    choose|gs: Seq<Glyph>| glyph_views(gs) == v
}

/// `glyf`, `loca` and `maxp` are each absent or held in binary form: nothing to compile.
pub open spec fn glyf_loca_maxp_serialized(m: Map<u32, LazyItem>) -> bool {
    &&& serialized(m, TAG_GLYF) != Some(false)
    &&& serialized(m, TAG_LOCA) != Some(false)
    &&& serialized(m, TAG_MAXP) != Some(false)
}

/// What compiling `glyf` and `loca` needs: readable glyphs that can be written,
/// no more than 65535 of them, readable `maxp` and `head` tables, and readable
/// `hmtx` (with at least one metric, at most 65535) and `hhea` tables where there are any.
pub open spec fn glyf_compilable(m: Map<u32, LazyItem>) -> bool {
    (!glyf_loca_maxp_serialized(m) && m.contains_key(TAG_GLYF)) ==> {
        &&& glyf_state(m) matches Some(Some(v)) && v.len() <= 65535 && glyf_writable(glyphs_for(v))
        &&& maxp_state(m) matches Some(Some(_))
        &&& head_state(m) matches Some(Some(_))
        &&& hhea_state(m) != Some(None::<hhea>)
        &&& metrics_writable(hmtx_state(m))
    }
}

/// A table loaded under `tag` and not read from bytes.
pub open spec fn replaced(item: LazyItem, tag: u32) -> bool {
    item matches LazyItem::Loaded(t) && t.tag_spec() == tag && t.raw_spec() is None
}

/// The `head` table held by `item`, if it holds one.
pub open spec fn loaded_head(item: LazyItem) -> Option<head> {
    match item {
        LazyItem::Loaded(t) => match t.loaded_spec() {
            LoadedTable::head(h) => Some(*h),
            _ => None,
        },
        _ => None,
    }
}

/// The `hhea` table held by `item`, if it holds one.
pub open spec fn loaded_hhea(item: LazyItem) -> Option<hhea> {
    match item {
        LazyItem::Loaded(t) => match t.loaded_spec() {
            LoadedTable::hhea(h) => Some(*h),
            _ => None,
        },
        _ => None,
    }
}

/// The set `m2` is `m` with its glyphs compiled: `glyf` and `loca` replaced by
/// their bytes, `head` by a copy whose `indexToLocFormat` is 1 for long offsets
/// and 0 for short ones, and, where there are `hmtx` and `hhea` tables, `hhea` by
/// a copy whose `numberOfHMetrics` is the number of full metrics. Nothing changes
/// where there is no `glyf` table or nothing is to be compiled.
pub open spec fn glyf_compiled(m: Map<u32, LazyItem>, m2: Map<u32, LazyItem>) -> bool {
    if glyf_loca_maxp_serialized(m) || !m.contains_key(TAG_GLYF) {
        m2 == m
    } else {
        let gs = glyphs_for(glyf_state(m)->0->0);
        let bytes = glyf_table_bytes(gs);
        let long = bytes.len() > 65535;
        let h = head_state(m)->0->0;
        &&& m2.dom() == m.dom().insert(TAG_LOCA)
        &&& m2[TAG_GLYF] matches LazyItem::Unloaded(d) && d@ == bytes
        &&& m2[TAG_LOCA] matches LazyItem::Unloaded(d) && d@ == loca_encoding(glyf_offsets(gs), long)
        &&& replaced(m2[TAG_HEAD], TAG_HEAD)
        &&& loaded_head(m2[TAG_HEAD]) == Some(head { indexToLocFormat: if long { 1i16 } else { 0i16 }, ..h })
        &&& if m.contains_key(TAG_HMTX) && m.contains_key(TAG_HHEA) {
            &&& replaced(m2[TAG_HHEA], TAG_HHEA)
            &&& loaded_hhea(m2[TAG_HHEA]) == Some(
                hhea {
                    numberOfHMetrics: hmtx_long_count(hmtx_state(m)->0->0) as u16,
                    ..hhea_state(m)->0->0
                },
            )
        } else {
            m.contains_key(TAG_HHEA) ==> m2[TAG_HHEA] == m[TAG_HHEA]
        }
        &&& forall|k: u32|
            k != TAG_GLYF && k != TAG_LOCA && k != TAG_HEAD && k != TAG_HHEA && #[trigger] m.contains_key(k)
                ==> m2[k] == m[k]
    }
}

impl TableSet {
    /// Whether table `tag` is absent or held in binary form.
    fn is_serialized(&self, tag: u32) -> (r: bool)
        ensures
            r == (serialized(self.items(), tag) != Some(false)),
    {
        proof {
            lemma_tags_ordered();
        }
        match self.tables.get(&tag) {
            None => true,
            Some(LazyItem::Unloaded(_)) => true,
            Some(LazyItem::Loaded(t)) => t.raw.is_some(),
        }
    }

    /// The `maxp` table, reading it if needed.
    fn maxp_value(&self) -> (r: Result<maxp, DeserializationError>)
        requires
            self.wf(),
        ensures
            match maxp_state(self.items()) {
                None => r == Err::<maxp, DeserializationError>(DeserializationError::Missing),
                Some(None) => r is Err,
                Some(Some(x)) => r == Ok::<maxp, DeserializationError>(x),
            },
    {
        proof {
            lemma_tags_ordered();
        }
        match self.tables.get(&TAG_MAXP) {
            None => Err(DeserializationError::Missing),
            Some(LazyItem::Unloaded(d)) => maxp::from_bytes(d.as_slice()),
            Some(LazyItem::Loaded(t)) => match &t.loaded {
                LoadedTable::maxp(x) => Ok(**x),
                _ => Err(DeserializationError::BadFormat),
            },
        }
    }

    /// The number of full metrics of the `hmtx` table, reading it if needed.
    fn hmtx_long_metrics(&self) -> (r: Option<u16>)
        requires
            self.wf(),
            metrics_writable(hmtx_state(self.items())),
        ensures
            match hmtx_state(self.items()) {
                Some(Some(ms)) => r == Some(hmtx_long_count(ms) as u16),
                _ => r is None,
            },
    {
        proof {
            lemma_tags_ordered();
        }
        match self.tables.get(&TAG_HMTX) {
            None => None,
            Some(LazyItem::Unloaded(d)) => {
                let h = match self.hhea_value() {
                    Ok(h) => h,
                    Err(_) => {
                        return None;
                    },
                };
                if h.numberOfHMetrics < 1 {
                    return None;
                }
                match crate::hmtx::from_bytes(d.as_slice(), h.numberOfHMetrics) {
                    Ok(t) => Some(t.number_of_hmetrics()),
                    Err(_) => None,
                }
            },
            Some(LazyItem::Loaded(t)) => match &t.loaded {
                LoadedTable::hmtx(x) => Some(x.number_of_hmetrics()),
                _ => None,
            },
        }
    }

    /// The `glyf` and `loca` tables written from the set's glyphs, whether
    /// `loca` is long, and the number of glyphs; `None` where there is no `glyf` table.
    fn compiled_glyf(&self) -> (r: Option<(Vec<u8>, Vec<u8>, bool, usize)>)
        requires
            self.wf(),
            glyphs_writable(glyf_state(self.items())),
        ensures
            match glyf_state(self.items()) {
                Some(Some(v)) => r matches Some((gb, lb, long, n)) && {
                    let gs = glyphs_for(v);
                    &&& gb@ == glyf_table_bytes(gs)
                    &&& long == (glyf_table_bytes(gs).len() > 65535)
                    &&& lb@ == loca_encoding(glyf_offsets(gs), long)
                    &&& n == v.len()
                },
                _ => r is None,
            },
    {
        proof {
            lemma_tags_ordered();
        }
        match self.tables.get(&TAG_GLYF) {
            None => None,
            Some(LazyItem::Unloaded(d)) => {
                let ix = match self.loca_value() {
                    Ok(ix) => ix,
                    Err(_) => {
                        return None;
                    },
                };
                match glyf::from_bytes(d.as_slice(), ix.as_slice()) {
                    Ok(g) => Some(compile_glyphs(&g.glyphs)),
                    Err(_) => None,
                }
            },
            Some(LazyItem::Loaded(t)) => match &t.loaded {
                LoadedTable::glyf(g) => Some(compile_glyphs(&g.glyphs)),
                _ => None,
            },
        }
    }
}

impl TableSet {
    /// Write the glyphs as `glyf` and `loca` tables, unless `glyf`, `loca` and
    /// `maxp` are all absent or held in binary form, or there is no `glyf` table.
    /// The `head` table gets the offset size of `loca`, and `hhea` the number of
    /// full metrics of `hmtx` where there are both. The `maxp` table must be
    /// readable, but is left as it is.
    pub fn compile_glyf_loca_maxp(&mut self)
        requires
            old(self).wf(),
            glyf_compilable(old(self).items()),
        ensures
            final(self).wf(),
            glyf_compiled(old(self).items(), final(self).items()),
    {
        let ghost m = self.items();
        if self.is_serialized(TAG_GLYF) && self.is_serialized(TAG_LOCA) && self.is_serialized(TAG_MAXP) {
            return;
        }
        let (glyf_output, loca_data, loca_is_32bit, glyf_count) = match self.compiled_glyf() {
            Some(c) => c,
            None => {
                return;
            },
        };
        let maxp_table = match self.maxp_value() {
            Ok(t) => t,
            Err(_) => {
                return;
            },
        };
        let mut new_head = match self.head_value() {
            Ok(h) => h,
            Err(_) => {
                return;
            },
        };
        let hmetric_count = self.hmtx_long_metrics();
        let old_hhea = if self.contains(&TAG_HHEA) {
            match self.hhea_value() {
                Ok(h) => Some(h),
                Err(_) => {
                    return;
                },
            }
        } else {
            None
        };
        self.insert_raw(TAG_GLYF, glyf_output);
        self.insert_raw(TAG_LOCA, loca_data);
        new_head.indexToLocFormat = if loca_is_32bit { 1 } else { 0 };
        self.insert(Table::from_loaded(LoadedTable::head(Rc::new(new_head))));
        if let Some(count) = hmetric_count {
            if let Some(h) = old_hhea {
                let mut new_hhea = h;
                new_hhea.numberOfHMetrics = count;
                self.insert(Table::from_loaded(LoadedTable::hhea(Rc::new(new_hhea))));
            }
        }
        proof {
            let m2 = self.items();
            assert(m2.dom() =~= m.dom().insert(TAG_LOCA));
        }
    }
}

/// The bytes that writing table `tag` of `m` gives: nothing where it is absent;
/// the bytes it was read from where it has not been replaced; else its loaded form written.
pub open spec fn table_bytes(m: Map<u32, LazyItem>, tag: u32) -> Seq<u8> {
    if !m.contains_key(tag) {
        Seq::empty()
    } else {
        match m[tag] {
            LazyItem::Unloaded(d) => d@,
            LazyItem::Loaded(t) => match t.raw_spec() {
                Some(d) => d@,
                None => loaded_bytes(t.loaded_spec()),
            },
        }
    }
}

/// Table `tag` of `m` can be written: it is absent, held in binary form, or
/// loaded in a form that can be written on its own.
pub open spec fn table_writable(m: Map<u32, LazyItem>, tag: u32) -> bool {
    m.contains_key(tag) ==> (m[tag] matches LazyItem::Loaded(t) ==> (t.raw_spec() is None ==> writable_alone(
        t.loaded_spec(),
    )))
}

impl TableSet {
    /// Append the bytes of table `tag` to `buffer`.
    pub fn write_table(&self, tag: u32, buffer: &mut Vec<u8>)
        requires
            table_writable(self.items(), tag),
        ensures
            final(buffer)@ == old(buffer)@ + table_bytes(self.items(), tag),
    {
        proof {
            lemma_tags_ordered();
        }
        match self.tables.get(&tag) {
            None => {
                assert(old(buffer)@ + Seq::<u8>::empty() == old(buffer)@);
            },
            Some(LazyItem::Unloaded(raw)) => crate::binary::push_bytes(buffer, raw.as_slice()),
            Some(LazyItem::Loaded(t)) => match &t.raw {
                Some(data) => crate::binary::push_bytes(buffer, data.as_slice()),
                None => {
                    let bytes = t.loaded.to_bytes();
                    crate::binary::push_bytes(buffer, bytes.as_slice());
                },
            },
        }
    }
}

/// A helper used to build a [`TableSet`] while a font is read: tables are added
/// as bytes, and `head` and `loca` are read when it is done.
pub struct TableLoader {
    inner: TableSet,
}

impl TableLoader {
    /// The tables added so far.
    pub closed spec fn items(&self) -> Map<u32, LazyItem> {
        self.inner.items()
    }

    pub closed spec fn wf(&self) -> bool {
        self.inner.wf()
    }

    /// A loader with no tables.
    pub fn new() -> (r: TableLoader)
        ensures
            r.items() == Map::<u32, LazyItem>::empty(),
            r.wf(),
    {
        TableLoader { inner: TableSet::new() }
    }

    /// Add a table as bytes, replacing any under `tag`.
    pub fn add(&mut self, tag: u32, data: Vec<u8>)
        requires
            old(self).wf(),
        ensures
            final(self).wf(),
            final(self).items().contains_key(tag),
            final(self).items()[tag] matches LazyItem::Unloaded(d) && d@ == data@,
            final(self).items() == old(self).items().insert(tag, final(self).items()[tag]),
    {
        self.inner.insert_raw(tag, data);
    }

    /// The set of tables, with `head` and then `loca` read; an error where one
    /// of them is present and cannot be read.
    pub fn finish(self) -> (r: Result<TableSet, DeserializationError>)
        requires
            self.wf(),
        ensures
            match r {
                Ok(t) => {
                    &&& t.wf()
                    &&& t.items().dom() == self.items().dom()
                    &&& forall|k: u32| #[trigger] self.items().contains_key(k) ==> loaded_from(
                        self.items(),
                        k,
                        t.items()[k],
                    )
                    &&& forall|k: u32|
                        #[trigger] self.items().contains_key(k) && k != TAG_HEAD && k != TAG_LOCA
                            ==> t.items()[k] == self.items()[k]
                    &&& self.items().contains_key(TAG_HEAD) ==> t.items()[TAG_HEAD] is Loaded
                    &&& self.items().contains_key(TAG_LOCA) ==> t.items()[TAG_LOCA] is Loaded
                },
                Err(e) => exists|k: u32|
                    (k == TAG_HEAD || k == TAG_LOCA) && #[trigger] self.items().contains_key(k) && (
                    self.items()[k] matches LazyItem::Unloaded(d) && table_read(self.items(), k, d@, Err(e))),
            },
    {
        let ghost orig = self.items();
        let mut tables = self.inner;
        proof {
            assert forall|k: u32| #[trigger] orig.contains_key(k) implies loaded_from(orig, k, tables.items()[k]) by {}
        }
        let r = tables.load_step(TAG_HEAD, Ghost(orig));
        if let Err(e) = r {
            return Err(e);
        }
        let r = tables.load_step(TAG_LOCA, Ghost(orig));
        if let Err(e) = r {
            return Err(e);
        }
        Ok(tables)
    }
}

/// `glyphs` written as `glyf` and `loca` tables, whether `loca` is long, and the
/// number of glyphs.
fn compile_glyphs(glyphs: &Vec<Glyph>) -> (r: (Vec<u8>, Vec<u8>, bool, usize))
    requires
        glyf_writable(glyphs_for(glyph_views(glyphs@))),
    ensures
        ({
            let gs = glyphs_for(glyph_views(glyphs@));
            &&& r.0@ == glyf_table_bytes(gs)
            &&& r.2 == (glyf_table_bytes(gs).len() > 65535)
            &&& r.1@ == loca_encoding(glyf_offsets(gs), r.2)
            &&& r.3 == glyphs@.len()
        }),
{
    proof {
        let v = glyph_views(glyphs@);
        assert(glyph_views(glyphs@) == v);
        let gs = glyphs_for(v);
        assert(glyph_views(gs) == v);
        lemma_tables_by_views(glyphs@, gs);
    }
    let (g, l, long) = compile_glyf_loca(glyphs);
    (g, l, long, glyphs.len())
}

/// A copy of a list of offsets.
fn copy_offsets(v: &Vec<Option<u32>>) -> (r: Vec<Option<u32>>)
    ensures
        r@ == v@,
{
    let mut out: Vec<Option<u32>> = Vec::new();
    let mut i: usize = 0;
    while i < v.len()
        invariant
            i <= v@.len(),
            out@ == v@.take(i as int),
        decreases v@.len() - i,
    {
        out.push(v[i]);
        assert(v@.take(i + 1) == v@.take(i as int).push(v@[i as int]));
        i = i + 1;
    }
    assert(v@.take(i as int) == v@);
    out
}

proof fn lemma_tags_ordered()
    ensures
        vstd::laws_cmp::obeys_cmp::<u32>(),
        vstd::std_specs::btree::key_obeys_cmp_spec::<u32>(),
{
    broadcast use vstd::laws_cmp::group_laws_cmp;
}

proof fn lemma_increasing_tags(s: Seq<u32>)
    requires
        vstd::std_specs::btree::increasing_seq(s),
    ensures
        forall|i: int, j: int| 0 <= i < j < s.len() ==> s[i] < s[j],
{
    lemma_tags_ordered();
    broadcast use vstd::std_specs::btree::axiom_increasing_seq_meaning;
    assert forall|i: int, j: int| 0 <= i < j < s.len() implies s[i] < s[j] by {
        assert(vstd::std_specs::cmp::OrdSpec::cmp_spec(&s[i], &s[j]) is Less);
    }
}

/// A helper that exists to require, where it is called, that a type is `Clone`:
/// tables are shared and copied before they are changed.
pub fn assert_is_clone<T: Clone>() {
}

} // verus!
