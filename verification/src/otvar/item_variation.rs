//! Item variation stores: variation regions and, for each set of items, a table
//! of deltas with a row per item and a column per region. Coordinates are
//! F2DOT14 values held as their 16-bit patterns.
use crate::binary::{i16_at, i8_of_byte, read_i16, read_u16, read_u16_vec, read_u32, read_u8, u16_at, u32_at, DeserializationError};
use vstd::prelude::*;

verus! {

/// The start, peak and end coordinates of a region on one axis.
#[derive(Debug, PartialEq, Clone, Copy)]
pub struct RegionAxisCoordinates {
    pub startCoord: i16,
    pub peakCoord: i16,
    pub endCoord: i16,
}

/// Variation data inside an item variation store.
#[derive(Debug, PartialEq)]
pub struct ItemVariationData {
    /// Indices into the store's region array.
    pub region_indexes: Vec<u16>,
    /// The deltas: a row per item, a column per region.
    pub delta_values: Vec<Vec<i16>>,
}

/// The regions of a variation store.
#[derive(Debug, PartialEq)]
pub struct VariationRegionList {
    /// The number of variation axes.
    pub axisCount: u16,
    /// The number of regions.
    pub regionCount: u16,
    /// For each region, its coordinates on each axis.
    pub variationRegions: Vec<Vec<RegionAxisCoordinates>>,
}

/// An item variation store.
#[derive(Debug, PartialEq)]
pub struct ItemVariationStore {
    /// Format; set to 1.
    pub format: u16,
    /// The number of variation axes.
    pub axisCount: u16,
    /// The variation regions used in this store.
    pub variationRegions: Vec<Vec<RegionAxisCoordinates>>,
    /// The item variation subtables.
    pub variationData: Vec<ItemVariationData>,
}

/// Whether column `c` of a delta row is stored as a word: the columns up to and
/// including `short_count` are words, the others single bytes.
pub open spec fn is_word_column(c: int, short_count: int) -> bool {
    c <= short_count
}

/// Where column `c` of a delta row starts, counted from the start of the row.
pub open spec fn column_offset(c: int, short_count: int) -> int {
    if is_word_column(c, short_count) { 2 * c } else { 2 * (short_count + 1) + (c - short_count - 1) }
}

/// The number of bytes of a delta row with `columns` columns.
pub open spec fn row_len(columns: int, short_count: int) -> int {
    column_offset(columns, short_count)
}

/// The delta row starting at `p`.
pub open spec fn row_at(s: Seq<u8>, p: int, columns: int, short_count: int) -> Seq<i16> {
    Seq::new(
        columns as nat,
        |c: int|
            if is_word_column(c, short_count) {
                i16_at(s, p + column_offset(c, short_count))
            } else {
                i8_of_byte(s[p + column_offset(c, short_count)])
            },
    )
}

/// The first `n` delta rows from `p`, and the position after them.
pub open spec fn rows_decoding(s: Seq<u8>, p: int, n: nat, columns: int, short_count: int) -> Option<
    (Seq<Seq<i16>>, int),
>
    decreases n,
{
    if n == 0 {
        Some((Seq::empty(), p))
    } else {
        match rows_decoding(s, p, (n - 1) as nat, columns, short_count) {
            None => None,
            Some((rows, q)) => if q + row_len(columns, short_count) > s.len() {
                None
            } else {
                Some((rows.push(row_at(s, q, columns, short_count)), q + row_len(columns, short_count)))
            },
        }
    }
}

/// Variation data at `pos`: item count, short delta count, region indices, then
/// a delta row per item; the indices, the rows, and the position after them.
pub open spec fn ivd_decoding(s: Seq<u8>, pos: int) -> Option<(Seq<u16>, Seq<Seq<i16>>, int)> {
    if pos < 0 || pos + 6 > s.len() {
        None
    } else {
        let items = u16_at(s, pos);
        let short_count = u16_at(s, pos + 2);
        let region_count = u16_at(s, pos + 4);
        if pos + 6 + 2 * region_count > s.len() {
            None
        } else {
            match rows_decoding(s, pos + 6 + 2 * region_count, items as nat, region_count as int, short_count as int) {
                None => None,
                Some((rows, q)) => Some(
                    (Seq::new(region_count as nat, |k: int| u16_at(s, pos + 6 + 2 * k)), rows, q),
                ),
            }
        }
    }
}

pub open spec fn rows_view(rows: Seq<Vec<i16>>) -> Seq<Seq<i16>> {
    rows.map_values(|r: Vec<i16>| r@)
}

/// Reads one delta row at `p`.
fn read_row(data: &[u8], p: usize, columns: u16, short_count: u16) -> (r: Option<Vec<i16>>)
    requires
        p <= data@.len(),
    ensures
        match r {
            Some(row) => p + row_len(columns as int, short_count as int) <= data@.len() && row@ == row_at(
                data@,
                p as int,
                columns as int,
                short_count as int,
            ),
            None => p + row_len(columns as int, short_count as int) > data@.len(),
        },
{
    let mut row: Vec<i16> = Vec::new();
    let mut q: usize = p;
    let mut c: u16 = 0;
    while c < columns
        invariant
            c <= columns,
            q == p + column_offset(c as int, short_count as int),
            q <= data@.len(),
            row@ == row_at(data@, p as int, c as int, short_count as int),
        decreases columns - c,
    {
        if c <= short_count {
            match read_i16(data, q) {
                Some(v) => {
                    assert(q + 2 <= data.len());
                    row.push(v);
                    q = q + 2;
                },
                None => {
                    assert(row_len(columns as int, short_count as int) >= column_offset(c as int, short_count as int)
                        + 2);
                    return None;
                },
            }
        } else {
            match read_u8(data, q) {
                Some(b) => {
                    assert(q + 1 <= data.len());
                    row.push(if b >= 128 { (b as i16) - 256 } else { b as i16 });
                    q = q + 1;
                },
                None => {
                    return None;
                },
            }
        }
        assert(row@ =~= row_at(data@, p as int, c + 1, short_count as int));
        c = c + 1;
    }
    Some(row)
}

impl ItemVariationData {
    /// Reads variation data at `pos`; returns it and the position after it.
    pub fn from_bytes(data: &[u8], pos: usize) -> (r: Result<(ItemVariationData, usize), DeserializationError>)
        ensures
            match r {
                Ok((d, next)) => ivd_decoding(data@, pos as int) == Some(
                    (d.region_indexes@, rows_view(d.delta_values@), next as int),
                ),
                Err(_) => ivd_decoding(data@, pos as int) is None,
            },
    {
        let items = match read_u16(data, pos) {
            Some(v) => v,
            None => return Err(DeserializationError::UnexpectedEof),
        };
        if data.len() - pos < 6 {
            return Err(DeserializationError::UnexpectedEof);
        }
        let short_count = read_u16(data, pos + 2).unwrap();
        let region_count = read_u16(data, pos + 4).unwrap();
        let region_indexes = match read_u16_vec(data, pos + 6, region_count as usize) {
            Some(v) => v,
            None => return Err(DeserializationError::UnexpectedEof),
        };
        let ghost s = data@;
        let start: usize = pos + 6 + 2 * region_count as usize;
        let mut p: usize = start;
        let mut delta_values: Vec<Vec<i16>> = Vec::new();
        let mut i: u16 = 0;
        while i < items
            invariant
                i <= items,
                s == data@,
                p <= data@.len(),
                pos + 6 + 2 * region_count <= s.len(),
                items == u16_at(s, pos as int),
                short_count == u16_at(s, pos + 2),
                region_count == u16_at(s, pos + 4),
                start == pos + 6 + 2 * region_count,
                rows_decoding(s, start as int, i as nat, region_count as int, short_count as int) == Some(
                    (rows_view(delta_values@), p as int),
                ),
            decreases items - i,
        {
            match read_row(data, p, region_count, short_count) {
                Some(row) => {
                    let ghost before = delta_values@;
                    delta_values.push(row);
                    assert(rows_view(delta_values@) =~= rows_view(before).push(row@));
                    let len = row_len_exec(region_count, short_count);
                    assert(p + len <= data.len());
                    p = p + len;
                },
                None => {
                    proof {
                        lemma_rows_fail(s, start as int, i as nat, items as nat, region_count as int, short_count as int);
                    }
                    return Err(DeserializationError::UnexpectedEof);
                },
            }
            i = i + 1;
        }
        assert(region_indexes@ =~= Seq::new(region_count as nat, |k: int| u16_at(s, pos + 6 + 2 * k)));
        Ok((ItemVariationData { region_indexes, delta_values }, p))
    }
}

/// The number of bytes of a delta row.
fn row_len_exec(columns: u16, short_count: u16) -> (r: usize)
    ensures
        r == row_len(columns as int, short_count as int),
{
    if columns <= short_count {
        2 * columns as usize
    } else {
        2 * (short_count as usize + 1) + (columns as usize - short_count as usize - 1)
    }
}

proof fn lemma_rows_fail(s: Seq<u8>, p: int, i: nat, n: nat, columns: int, short_count: int)
    requires
        i < n,
        rows_decoding(s, p, i, columns, short_count) is Some,
        rows_decoding(s, p, i, columns, short_count).unwrap().1 + row_len(columns, short_count) > s.len(),
    ensures
        rows_decoding(s, p, n, columns, short_count) is None,
    decreases n - i,
{
    if i + 1 < n {
        lemma_rows_none(s, p, i + 1, n, columns, short_count);
    }
}

proof fn lemma_rows_none(s: Seq<u8>, p: int, i: nat, n: nat, columns: int, short_count: int)
    requires
        i <= n,
        rows_decoding(s, p, i, columns, short_count) is None,
    ensures
        rows_decoding(s, p, n, columns, short_count) is None,
    decreases n - i,
{
    if i < n {
        lemma_rows_none(s, p, i + 1, n, columns, short_count);
    }
}

/// The coordinates of one region on `axis_count` axes, starting at `q`.
pub open spec fn region_at(s: Seq<u8>, q: int, axis_count: int) -> Seq<RegionAxisCoordinates> {
    Seq::new(
        axis_count as nat,
        |k: int|
            RegionAxisCoordinates {
                startCoord: i16_at(s, q + 6 * k),
                peakCoord: i16_at(s, q + 6 * k + 2),
                endCoord: i16_at(s, q + 6 * k + 4),
            },
    )
}

/// The first `n` regions from `p`, and the position after them.
pub open spec fn regions_decoding(s: Seq<u8>, p: int, n: nat, axis_count: int) -> Option<
    (Seq<Seq<RegionAxisCoordinates>>, int),
>
    decreases n,
{
    if n == 0 {
        Some((Seq::empty(), p))
    } else {
        match regions_decoding(s, p, (n - 1) as nat, axis_count) {
            None => None,
            Some((rs, q)) => if q + 6 * axis_count > s.len() {
                None
            } else {
                Some((rs.push(region_at(s, q, axis_count)), q + 6 * axis_count))
            },
        }
    }
}

/// A region list at `pos`: the axis count, the region count and the regions.
pub open spec fn vrl_decoding(s: Seq<u8>, pos: int) -> Option<(u16, u16, Seq<Seq<RegionAxisCoordinates>>)> {
    if pos < 0 || pos + 4 > s.len() {
        None
    } else {
        match regions_decoding(s, pos + 4, u16_at(s, pos + 2) as nat, u16_at(s, pos) as int) {
            None => None,
            Some((rs, _)) => Some((u16_at(s, pos), u16_at(s, pos + 2), rs)),
        }
    }
}

pub open spec fn regions_view(rs: Seq<Vec<RegionAxisCoordinates>>) -> Seq<Seq<RegionAxisCoordinates>> {
    rs.map_values(|r: Vec<RegionAxisCoordinates>| r@)
}

/// Reads the coordinates of one region at `q`.
fn read_region(data: &[u8], q: usize, axis_count: u16) -> (r: Option<Vec<RegionAxisCoordinates>>)
    requires
        q <= data@.len(),
    ensures
        match r {
            Some(v) => q + 6 * axis_count <= data@.len() && v@ == region_at(data@, q as int, axis_count as int),
            None => q + 6 * axis_count > data@.len(),
        },
{
    if (data.len() - q) / 6 < axis_count as usize {
        return None;
    }
    let mut v: Vec<RegionAxisCoordinates> = Vec::new();
    let mut k: usize = 0;
    while k < axis_count as usize
        invariant
            k <= axis_count,
            q + 6 * axis_count <= data@.len(),
            v@ == region_at(data@, q as int, k as int),
        decreases axis_count - k,
    {
        assert(q + 6 * k + 6 <= data.len());
        let b = q + 6 * k;
        let c = RegionAxisCoordinates {
            startCoord: read_i16(data, b).unwrap(),
            peakCoord: read_i16(data, b + 2).unwrap(),
            endCoord: read_i16(data, b + 4).unwrap(),
        };
        v.push(c);
        assert(v@ =~= region_at(data@, q as int, k + 1));
        k = k + 1;
    }
    Some(v)
}

proof fn lemma_regions_fail(s: Seq<u8>, p: int, i: nat, n: nat, a: int)
    requires
        i < n,
        regions_decoding(s, p, i, a) is Some,
        regions_decoding(s, p, i, a).unwrap().1 + 6 * a > s.len(),
    ensures
        regions_decoding(s, p, n, a) is None,
    decreases n - i,
{
    if i + 1 < n {
        lemma_regions_none(s, p, i + 1, n, a);
    }
}

proof fn lemma_regions_none(s: Seq<u8>, p: int, i: nat, n: nat, a: int)
    requires
        i <= n,
        regions_decoding(s, p, i, a) is None,
    ensures
        regions_decoding(s, p, n, a) is None,
    decreases n - i,
{
    if i < n {
        lemma_regions_none(s, p, i + 1, n, a);
    }
}

impl VariationRegionList {
    /// Reads a region list at `pos`.
    pub fn from_bytes(data: &[u8], pos: usize) -> (r: Result<VariationRegionList, DeserializationError>)
        ensures
            match r {
                Ok(l) => vrl_decoding(data@, pos as int) == Some(
                    (l.axisCount, l.regionCount, regions_view(l.variationRegions@)),
                ),
                Err(_) => vrl_decoding(data@, pos as int) is None,
            },
    {
        let axis_count = match read_u16(data, pos) {
            Some(v) => v,
            None => return Err(DeserializationError::UnexpectedEof),
        };
        assert(pos + 2 <= data.len());
        let region_count = match read_u16(data, pos + 2) {
            Some(v) => v,
            None => return Err(DeserializationError::UnexpectedEof),
        };
        let ghost s = data@;
        let mut p: usize = pos + 4;
        let mut regions: Vec<Vec<RegionAxisCoordinates>> = Vec::new();
        let mut i: u16 = 0;
        while i < region_count
            invariant
                i <= region_count,
                s == data@,
                p <= data@.len(),
                axis_count == u16_at(s, pos as int),
                region_count == u16_at(s, pos + 2),
                pos + 4 <= s.len(),
                regions_decoding(s, pos + 4, i as nat, axis_count as int) == Some((regions_view(regions@), p as int)),
            decreases region_count - i,
        {
            match read_region(data, p, axis_count) {
                Some(v) => {
                    let ghost before = regions@;
                    regions.push(v);
                    assert(regions_view(regions@) =~= regions_view(before).push(v@));
                    assert(p + 6 * axis_count as usize <= data.len());
                    p = p + 6 * axis_count as usize;
                },
                None => {
                    proof {
                        lemma_regions_fail(s, pos + 4, i as nat, region_count as nat, axis_count as int);
                    }
                    return Err(DeserializationError::UnexpectedEof);
                },
            }
            i = i + 1;
        }
        Ok(VariationRegionList { axisCount: axis_count, regionCount: region_count, variationRegions: regions })
    }
}

/// The variation data at each of the `n` first offsets `offs`, relative to `base`.
pub open spec fn datas_decoding(s: Seq<u8>, base: int, offs: Seq<u32>, n: nat) -> Option<
    Seq<(Seq<u16>, Seq<Seq<i16>>)>,
>
    decreases n,
{
    if n == 0 {
        Some(Seq::empty())
    } else {
        match datas_decoding(s, base, offs, (n - 1) as nat) {
            None => None,
            Some(ds) => match ivd_decoding(s, base + offs[n - 1]) {
                None => None,
                Some((ix, rows, _)) => Some(ds.push((ix, rows))),
            },
        }
    }
}

/// An item variation store at `pos`: its format, the offset of its region list,
/// the number of data subtables and their offsets (all offsets from `pos`); the
/// format, the axis count, the regions and the data.
pub open spec fn ivs_decoding(s: Seq<u8>, pos: int) -> Option<
    (u16, u16, Seq<Seq<RegionAxisCoordinates>>, Seq<(Seq<u16>, Seq<Seq<i16>>)>),
> {
    if pos < 0 || pos + 8 > s.len() {
        None
    } else {
        let count = u16_at(s, pos + 6);
        if pos + 8 + 4 * count > s.len() {
            None
        } else {
            let offs = Seq::new(count as nat, |k: int| u32_at(s, pos + 8 + 4 * k));
            match vrl_decoding(s, pos + u32_at(s, pos + 2)) {
                None => None,
                Some((axes, _, regions)) => match datas_decoding(s, pos, offs, count as nat) {
                    None => None,
                    Some(ds) => Some((u16_at(s, pos), axes, regions, ds)),
                },
            }
        }
    }
}

pub open spec fn datas_view(ds: Seq<ItemVariationData>) -> Seq<(Seq<u16>, Seq<Seq<i16>>)> {
    ds.map_values(|d: ItemVariationData| (d.region_indexes@, rows_view(d.delta_values@)))
}

proof fn lemma_datas_fail(s: Seq<u8>, base: int, offs: Seq<u32>, i: nat, n: nat)
    requires
        i < n,
        datas_decoding(s, base, offs, i) is Some,
        ivd_decoding(s, base + offs[i as int]) is None,
    ensures
        datas_decoding(s, base, offs, n) is None,
    decreases n - i,
{
    if i + 1 < n {
        lemma_datas_none(s, base, offs, i + 1, n);
    }
}

proof fn lemma_datas_none(s: Seq<u8>, base: int, offs: Seq<u32>, i: nat, n: nat)
    requires
        i <= n,
        datas_decoding(s, base, offs, i) is None,
    ensures
        datas_decoding(s, base, offs, n) is None,
    decreases n - i,
{
    if i < n {
        lemma_datas_none(s, base, offs, i + 1, n);
    }
}

impl ItemVariationStore {
    /// Reads an item variation store whose table starts at `pos`.
    pub fn from_bytes(data: &[u8], pos: usize) -> (r: Result<ItemVariationStore, DeserializationError>)
        ensures
            match r {
                Ok(t) => ivs_decoding(data@, pos as int) == Some(
                    (t.format, t.axisCount, regions_view(t.variationRegions@), datas_view(t.variationData@)),
                ),
                Err(_) => ivs_decoding(data@, pos as int) is None,
            },
    {
        let format = match read_u16(data, pos) {
            Some(v) => v,
            None => return Err(DeserializationError::UnexpectedEof),
        };
        if data.len() - pos < 8 {
            return Err(DeserializationError::UnexpectedEof);
        }
        let offset = read_u32(data, pos + 2).unwrap();
        let count = read_u16(data, pos + 6).unwrap();
        let offsets = match crate::binary::read_u32_vec(data, pos + 8, count as usize) {
            Some(v) => v,
            None => return Err(DeserializationError::UnexpectedEof),
        };
        let ghost s = data@;
        let ghost offs = Seq::new(count as nat, |k: int| u32_at(s, pos + 8 + 4 * k));
        assert(offsets@ =~= offs);
        if offset as usize > data.len() - pos {
            return Err(DeserializationError::UnexpectedEof);
        }
        let regions = match VariationRegionList::from_bytes(data, pos + offset as usize) {
            Ok(l) => l,
            Err(e) => {
                return Err(e);
            },
        };
        let mut variation_data: Vec<ItemVariationData> = Vec::new();
        let mut i: usize = 0;
        while i < offsets.len()
            invariant
                i <= offsets@.len(),
                s == data@,
                offs == offsets@,
                pos + 8 <= data@.len(),
                offs.len() == count,
                count == u16_at(s, pos + 6),
                pos + 8 + 4 * count <= s.len(),
                offs == Seq::new(count as nat, |k: int| u32_at(s, pos + 8 + 4 * k)),
                vrl_decoding(s, pos + u32_at(s, pos + 2)) == Some(
                    (regions.axisCount, regions.regionCount, regions_view(regions.variationRegions@)),
                ),
                format == u16_at(s, pos as int),
                datas_decoding(s, pos as int, offs, i as nat) == Some(datas_view(variation_data@)),
                variation_data@.len() == i,
            decreases offsets@.len() - i,
        {
            let off = offsets[i];
            if off as usize > data.len() - pos {
                proof {
                    lemma_datas_fail(s, pos as int, offs, i as nat, offs.len());
                }
                return Err(DeserializationError::UnexpectedEof);
            }
            match ItemVariationData::from_bytes(data, pos + off as usize) {
                Ok((d, _)) => {
                    let ghost before = variation_data@;
                    variation_data.push(d);
                    assert(variation_data@.len() == i + 1);
                    assert(datas_view(variation_data@) =~= datas_view(before).push(
                        (variation_data@[i as int].region_indexes@, rows_view(variation_data@[i as int].delta_values@)),
                    ));
                },
                Err(e) => {
                    proof {
                        lemma_datas_fail(s, pos as int, offs, i as nat, offs.len());
                    }
                    return Err(e);
                },
            }
            i = i + 1;
        }
        Ok(
            ItemVariationStore {
                format,
                axisCount: regions.axisCount,
                variationRegions: regions.variationRegions,
                variationData: variation_data,
            },
        )
    }
}

} // verus!
