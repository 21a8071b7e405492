//! Pair positioning (kerning): adjustments for pairs of glyphs. Format 1
//! lists, for each first glyph, the second glyphs and their value records;
//! format 2 gives value records for pairs of glyph classes.
use crate::binary::{
    be16, be16_seq, lemma_be16_seq_len, push_bytes, push_u16, push_u16_slice, read_u16, u16_at,
    DeserializationError, SerializationError,
};
use crate::coverage::{coverage_decoding, coverage_encoding, coverage_range_overflows, Coverage};
use crate::layout::gsub2::coverage_part;
use crate::layout::ordered::{
    entries_in_order, lemma_map_key_order, lemma_pair_key_order, pair_keys_ordered, sorted_keys,
    u16_keys_ordered,
};
use crate::layout::valuerecord::{
    nonzero, simplified, value_record_fields, value_record_with_format, ValueRecord,
};
use std::collections::BTreeMap;
use vstd::prelude::*;
use vstd::std_specs::iter::IteratorSpec;

verus! {

/// A pair positioning subtable.
#[derive(Debug, PartialEq, Clone, Default)]
pub struct PairPos {
    /// The mapping of pair glyph IDs to pairs of value records.
    pub mapping: BTreeMap<(u16, u16), (ValueRecord, ValueRecord)>,
}

impl View for PairPos {
    type V = Map<(u16, u16), (ValueRecord, ValueRecord)>;

    open spec fn view(&self) -> Map<(u16, u16), (ValueRecord, ValueRecord)> {
        self.mapping@
    }
}

/// The glyphs that come first in some pair.
pub open spec fn left_glyphs(m: Map<(u16, u16), (ValueRecord, ValueRecord)>) -> Set<u16> {
    Set::new(|l: u16| exists|r: u16| m.dom().contains((l, r)))
}

/// The second glyphs of the pairs that start with `l`, with their records.
pub open spec fn right_map(m: Map<(u16, u16), (ValueRecord, ValueRecord)>, l: u16) -> Map<
    u16,
    (ValueRecord, ValueRecord),
> {
    Map::new(|r: u16| m.dom().contains((l, r)), |r: u16| m[(l, r)])
}

/// Adjustment `i` of a record: x placement, y placement, x advance, y advance.
pub open spec fn vr_field(v: ValueRecord, i: int) -> Option<i16> {
    if i == 0 {
        v.xPlacement
    } else if i == 1 {
        v.yPlacement
    } else if i == 2 {
        v.xAdvance
    } else {
        v.yAdvance
    }
}

/// Whether some pair has a non-zero adjustment `i` in its first (or second) record.
pub open spec fn pair_uses(m: Map<(u16, u16), (ValueRecord, ValueRecord)>, second: bool, i: int) -> bool {
    exists|k: (u16, u16)|
        #[trigger] m.dom().contains(k) && nonzero(vr_field(if second { m[k].1 } else { m[k].0 }, i)) is Some
}

/// `bit` where `present`, 0 otherwise.
pub open spec fn format_bit(present: bool, bit: int) -> int {
    if present {
        bit
    } else {
        0
    }
}

/// The format word of the first (or second) records: the adjustments that
/// some pair has, once zero adjustments are dropped.
pub open spec fn pair_value_format(m: Map<(u16, u16), (ValueRecord, ValueRecord)>, second: bool) -> u16 {
    (format_bit(pair_uses(m, second, 0), 1) + format_bit(pair_uses(m, second, 1), 2) + format_bit(
        pair_uses(m, second, 2),
        4,
    ) + format_bit(pair_uses(m, second, 3), 8)) as u16
}

/// A pair value record: the second glyph and the two records, in the formats
/// of the subtable, zero adjustments dropped first.
pub open spec fn pair_record_bytes(r: u16, v: (ValueRecord, ValueRecord), f1: u16, f2: u16) -> Seq<u8> {
    be16(r) + value_record_with_format(simplified(v.0), f1) + value_record_with_format(simplified(v.1), f2)
}

/// The records of a pair set, one after another.
pub open spec fn pair_records_bytes(
    es: Seq<(u16, (ValueRecord, ValueRecord))>,
    f1: u16,
    f2: u16,
) -> Seq<u8>
    decreases es.len(),
{
    if es.len() == 0 {
        Seq::empty()
    } else {
        pair_records_bytes(es.drop_last(), f1, f2) + pair_record_bytes(es.last().0, es.last().1, f1, f2)
    }
}

/// The pairs that start with `l`, in increasing order of the second glyph.
pub open spec fn pair_set_entries(m: Map<(u16, u16), (ValueRecord, ValueRecord)>, l: u16) -> Seq<
    (u16, (ValueRecord, ValueRecord)),
> {
    sorted_keys(right_map(m, l).dom()).map_values(|r: u16| (r, m[(l, r)]))
}

/// The pair set of `l`: the count, then the records.
pub open spec fn pair_set_bytes(m: Map<(u16, u16), (ValueRecord, ValueRecord)>, l: u16) -> Seq<u8> {
    let es = pair_set_entries(m, l);
    be16(es.len() as u16) + pair_records_bytes(es, pair_value_format(m, false), pair_value_format(m, true))
}

/// The pair sets of the glyphs in `ls`, one after another.
pub open spec fn pair_sets_bytes(m: Map<(u16, u16), (ValueRecord, ValueRecord)>, ls: Seq<u16>) -> Seq<u8>
    decreases ls.len(),
{
    if ls.len() == 0 {
        Seq::empty()
    } else {
        pair_sets_bytes(m, ls.drop_last()) + pair_set_bytes(m, ls.last())
    }
}

/// The covered glyphs: the first glyphs of the pairs, in increasing order.
pub open spec fn pair_coverage(m: Map<(u16, u16), (ValueRecord, ValueRecord)>) -> Seq<u16> {
    sorted_keys(left_glyphs(m))
}

/// Where the first pair set starts: after the header, the offsets and the coverage table.
pub open spec fn pair_sets_start(m: Map<(u16, u16), (ValueRecord, ValueRecord)>) -> int {
    (10 + 2 * pair_coverage(m).len() + coverage_encoding(pair_coverage(m)).len()) as int
}

/// Where each pair set starts.
pub open spec fn pair_set_offsets(m: Map<(u16, u16), (ValueRecord, ValueRecord)>) -> Seq<u16> {
    let ls = pair_coverage(m);
    Seq::new(ls.len(), |k: int| (pair_sets_start(m) + pair_sets_bytes(m, ls.take(k)).len()) as u16)
}

/// Whether every offset and count of the format 1 subtable fits in 16 bits.
pub open spec fn pair_pos_fits(m: Map<(u16, u16), (ValueRecord, ValueRecord)>) -> bool {
    let ls = pair_coverage(m);
    &&& 10 + 2 * ls.len() <= 65535
    &&& forall|k: int| 0 <= k < ls.len() ==> #[trigger] pair_set_entries(m, ls[k]).len() <= 65535
    &&& forall|k: int|
        0 <= k < ls.len() ==> pair_sets_start(m) + #[trigger] pair_sets_bytes(m, ls.take(k)).len() <= 65535
}

/// The bytes of the format 1 subtable: format, coverage offset, the two
/// value formats, the set count and offsets, then the coverage table and the
/// pair sets in the order of the covered glyphs.
pub open spec fn pair_pos_encoding(m: Map<(u16, u16), (ValueRecord, ValueRecord)>) -> Seq<u8> {
    let ls = pair_coverage(m);
    be16(1) + be16((10 + 2 * ls.len()) as u16) + be16(pair_value_format(m, false)) + be16(
        pair_value_format(m, true),
    ) + be16(ls.len() as u16) + be16_seq(pair_set_offsets(m)) + coverage_encoding(ls) + pair_sets_bytes(
        m,
        ls,
    )
}

/// The pairs grouped by their first glyph, and which adjustments the records use.
fn split_into_two_layer(m: &BTreeMap<(u16, u16), (ValueRecord, ValueRecord)>) -> (r: (
    BTreeMap<u16, BTreeMap<u16, (ValueRecord, ValueRecord)>>,
    [bool; 4],
    [bool; 4],
))
    ensures
        r.0@.dom() == left_glyphs(m@),
        forall|l: u16| #[trigger] r.0@.dom().contains(l) ==> r.0@[l]@ == right_map(m@, l),
        forall|i: int| 0 <= i < 4 ==> r.1@[i] == pair_uses(m@, false, i),
        forall|i: int| 0 <= i < 4 ==> r.2@[i] == pair_uses(m@, true, i),
{
    proof {
        lemma_pair_key_order();
        lemma_map_key_order();
    }
    broadcast use vstd::std_specs::btree::group_btree_axioms;

    let mut out: BTreeMap<u16, BTreeMap<u16, (ValueRecord, ValueRecord)>> = BTreeMap::new();
    let mut uses: [bool; 4] = [false; 4];
    let mut uses2: [bool; 4] = [false; 4];
    let iter = m.iter();
    let ghost es = iter.remaining();
    assert(es.no_duplicates());
    for kv in it: iter
        invariant
            it.seq() == es,
            es.no_duplicates(),
            u16_keys_ordered(),
            forall|i: int| 0 <= i < es.len() ==> m@.contains_key(*es[i].0) && m@[*es[i].0] == *es[i].1,
            forall|l: u16|
                #[trigger] out@.dom().contains(l) <==> exists|i: int| 0 <= i < it.index() && (*es[i].0).0 == l,
            forall|l: u16, r: u16|
                out@.dom().contains(l) ==> (#[trigger] out@[l]@.dom().contains(r) <==> exists|i: int|
                    0 <= i < it.index() && *es[i].0 == (l, r)),
            forall|l: u16, r: u16|
                out@.dom().contains(l) && #[trigger] out@[l]@.dom().contains(r) ==> out@[l]@[r] == m@[(l, r)],
            forall|i: int|
                0 <= i < 4 ==> uses@[i] == exists|j: int|
                    0 <= j < it.index() && (#[trigger] nonzero(vr_field((*es[j].1).0, i))) is Some,
            forall|i: int|
                0 <= i < 4 ==> uses2@[i] == exists|j: int|
                    0 <= j < it.index() && (#[trigger] nonzero(vr_field((*es[j].1).1, i))) is Some,
    {
        let (l, r) = *kv.0;
        let v = *kv.1;
        let ghost idx = it.index();
        let ghost old_out = out@;
        let mut inner = match out.remove(&l) {
            Some(x) => x,
            None => BTreeMap::new(),
        };
        inner.insert(r, v);
        out.insert(l, inner);
        let mut i: usize = 0;
        while i < 4
            invariant
                i <= 4,
                forall|t: int|
                    0 <= t < 4 ==> uses@[t] == ((exists|j: int|
                        0 <= j < idx && (#[trigger] nonzero(vr_field((*es[j].1).0, t))) is Some) || (t < i
                        && nonzero(vr_field(v.0, t)) is Some)),
                forall|t: int|
                    0 <= t < 4 ==> uses2@[t] == ((exists|j: int|
                        0 <= j < idx && (#[trigger] nonzero(vr_field((*es[j].1).1, t))) is Some) || (t < i
                        && nonzero(vr_field(v.1, t)) is Some)),
            decreases 4 - i,
        {
            let (a, b) = if i == 0 {
                (v.0.xPlacement, v.1.xPlacement)
            } else if i == 1 {
                (v.0.yPlacement, v.1.yPlacement)
            } else if i == 2 {
                (v.0.xAdvance, v.1.xAdvance)
            } else {
                (v.0.yAdvance, v.1.yAdvance)
            };
            if a.is_some() && a != Some(0i16) {
                uses[i] = true;
            }
            if b.is_some() && b != Some(0i16) {
                uses2[i] = true;
            }
            i = i + 1;
        }
        proof {
            assert(*es[idx].0 == (l, r));
            assert(*es[idx].1 == v);
            assert forall|l2: u16| #[trigger] out@.dom().contains(l2) <==> exists|j: int|
                0 <= j < idx + 1 && (*es[j].0).0 == l2 by {
                if l2 == l {
                    assert((*es[idx].0).0 == l);
                } else if old_out.dom().contains(l2) {
                    let j = choose|j: int| 0 <= j < idx && (*es[j].0).0 == l2;
                    assert((*es[j].0).0 == l2);
                } else if exists|j: int| 0 <= j < idx + 1 && (*es[j].0).0 == l2 {
                    let j = choose|j: int| 0 <= j < idx + 1 && (*es[j].0).0 == l2;
                    assert(j < idx);
                    assert(old_out.dom().contains(l2));
                }
            }
            assert forall|l2: u16, r2: u16| out@.dom().contains(l2) implies (#[trigger] out@[l2]@.dom().contains(
                r2,
            ) <==> exists|j: int| 0 <= j < idx + 1 && *es[j].0 == (l2, r2)) by {
                if l2 == l {
                    if r2 == r {
                        assert(*es[idx].0 == (l2, r2));
                    } else {
                        if old_out.dom().contains(l) {
                            if old_out[l]@.dom().contains(r2) {
                                let j = choose|j: int| 0 <= j < idx && *es[j].0 == (l, r2);
                                assert(*es[j].0 == (l2, r2));
                            }
                        }
                        if exists|j: int| 0 <= j < idx + 1 && *es[j].0 == (l2, r2) {
                            let j = choose|j: int| 0 <= j < idx + 1 && *es[j].0 == (l2, r2);
                            assert(j < idx);
                            assert(old_out.dom().contains(l));
                            assert(old_out[l]@.dom().contains(r2));
                        }
                    }
                } else {
                    assert(old_out.dom().contains(l2));
                    assert(out@[l2] == old_out[l2]);
                    if exists|j: int| 0 <= j < idx + 1 && *es[j].0 == (l2, r2) {
                        let j = choose|j: int| 0 <= j < idx + 1 && *es[j].0 == (l2, r2);
                        assert(j < idx);
                    }
                }
            }
            assert forall|l2: u16, r2: u16|
                out@.dom().contains(l2) && #[trigger] out@[l2]@.dom().contains(r2) implies out@[l2]@[r2]
                == m@[(l2, r2)] by {
                if l2 == l {
                    if r2 != r {
                        assert(old_out.dom().contains(l));
                        assert(old_out[l]@.dom().contains(r2));
                    }
                } else {
                    assert(out@[l2] == old_out[l2]);
                }
            }
        }
    }
    proof {
        assert forall|l: u16| #[trigger] out@.dom().contains(l) <==> left_glyphs(m@).contains(l) by {
            if out@.dom().contains(l) {
                let j = choose|j: int| 0 <= j < es.len() && (*es[j].0).0 == l;
                assert(m@.dom().contains((l, (*es[j].0).1)));
            }
            if left_glyphs(m@).contains(l) {
                let r = choose|r: u16| m@.dom().contains((l, r));
                assert(es.contains((&(l, r), &m@[(l, r)])));
                let j = choose|j: int| 0 <= j < es.len() && es[j] == (&(l, r), &m@[(l, r)]);
                assert((*es[j].0).0 == l);
            }
        }
        assert(out@.dom() =~= left_glyphs(m@));
        assert forall|l: u16| #[trigger] out@.dom().contains(l) implies out@[l]@ == right_map(m@, l) by {
            assert forall|r: u16| #[trigger] out@[l]@.dom().contains(r) <==> m@.dom().contains((l, r)) by {
                if m@.dom().contains((l, r)) {
                    assert(es.contains((&(l, r), &m@[(l, r)])));
                    let j = choose|j: int| 0 <= j < es.len() && es[j] == (&(l, r), &m@[(l, r)]);
                    assert(*es[j].0 == (l, r));
                }
            }
            assert(out@[l]@ =~= right_map(m@, l));
        }
        assert forall|i: int| 0 <= i < 4 implies uses@[i] == pair_uses(m@, false, i) by {
            if uses@[i] {
                let j = choose|j: int| 0 <= j < es.len() && (#[trigger] nonzero(vr_field((*es[j].1).0, i))) is Some;
                assert(m@.dom().contains(*es[j].0));
            }
            if pair_uses(m@, false, i) {
                let k = choose|k: (u16, u16)| #[trigger] m@.dom().contains(k) && nonzero(vr_field(m@[k].0, i)) is Some;
                assert(es.contains((&k, &m@[k])));
                let j = choose|j: int| 0 <= j < es.len() && es[j] == (&k, &m@[k]);
                assert(nonzero(vr_field((*es[j].1).0, i)) is Some);
            }
        }
        assert forall|i: int| 0 <= i < 4 implies uses2@[i] == pair_uses(m@, true, i) by {
            if uses2@[i] {
                let j = choose|j: int| 0 <= j < es.len() && (#[trigger] nonzero(vr_field((*es[j].1).1, i))) is Some;
                assert(m@.dom().contains(*es[j].0));
            }
            if pair_uses(m@, true, i) {
                let k = choose|k: (u16, u16)| #[trigger] m@.dom().contains(k) && nonzero(vr_field(m@[k].1, i)) is Some;
                assert(es.contains((&k, &m@[k])));
                let j = choose|j: int| 0 <= j < es.len() && es[j] == (&k, &m@[k]);
                assert(nonzero(vr_field((*es[j].1).1, i)) is Some);
            }
        }
    }
    (out, uses, uses2)
}

proof fn lemma_record_with_format_len(v: ValueRecord, f: u16)
    ensures
        value_record_with_format(v, f).len() <= 8,
{
}

proof fn lemma_pair_records_len(es: Seq<(u16, (ValueRecord, ValueRecord))>, f1: u16, f2: u16)
    ensures
        pair_records_bytes(es, f1, f2).len() <= 18 * es.len(),
    decreases es.len(),
{
    if es.len() > 0 {
        lemma_pair_records_len(es.drop_last(), f1, f2);
        lemma_record_with_format_len(simplified(es.last().1.0), f1);
        lemma_record_with_format_len(simplified(es.last().1.1), f2);
    }
}

/// The format word for the adjustments marked used.
fn format_of(uses: &[bool; 4]) -> (r: u16)
    ensures
        r == (format_bit(uses@[0], 1) + format_bit(uses@[1], 2) + format_bit(uses@[2], 4) + format_bit(
            uses@[3],
            8,
        )) as u16,
{
    let mut f: u16 = 0;
    if uses[0] {
        f = f + 1;
    }
    if uses[1] {
        f = f + 2;
    }
    if uses[2] {
        f = f + 4;
    }
    if uses[3] {
        f = f + 8;
    }
    f
}

/// Writes the pair set of `l`, whose second glyphs and records are `inner`.
fn pair_set_to_bytes(
    inner: &BTreeMap<u16, (ValueRecord, ValueRecord)>,
    Ghost(m): Ghost<Map<(u16, u16), (ValueRecord, ValueRecord)>>,
    Ghost(l): Ghost<u16>,
    f1: u16,
    f2: u16,
) -> (r: Result<Vec<u8>, SerializationError>)
    requires
        inner@ == right_map(m, l),
        f1 == pair_value_format(m, false),
        f2 == pair_value_format(m, true),
    ensures
        match r {
            Ok(v) => pair_set_entries(m, l).len() <= 65535 && v@ == pair_set_bytes(m, l),
            Err(_) => pair_set_entries(m, l).len() > 65535,
        },
{
    let (rights, values) = entries_in_order(inner);
    let ghost es = pair_set_entries(m, l);
    assert(rights@ == sorted_keys(right_map(m, l).dom()));
    let n = rights.len();
    if n > 65535 {
        return Err(SerializationError::OffsetOverflow);
    }
    proof {
        crate::layout::ordered::lemma_keys_below(right_map(m, l).dom(), 65536);
        assert forall|j: int| 0 <= j < n implies #[trigger] es[j] == (rights@[j], *values@[j]) by {
            assert(rights@.contains(rights@[j]));
            assert(right_map(m, l).dom().contains(rights@[j]));
        }
    }
    let mut out: Vec<u8> = Vec::new();
    push_u16(&mut out, n as u16);
    let ghost head = out@;
    let mut i: usize = 0;
    while i < n
        invariant
            i <= n,
            n == es.len(),
            rights@.len() == n,
            values@.len() == n,
            forall|j: int| 0 <= j < n ==> #[trigger] es[j] == (rights@[j], *values@[j]),
            out@ == head + pair_records_bytes(es.take(i as int), f1, f2),
        decreases n - i,
    {
        let r = rights[i];
        let v: (ValueRecord, ValueRecord) = *values[i];
        let ghost before = out@;
        push_u16(&mut out, r);
        let mut v1 = v.0;
        v1.simplify();
        v1.write_with_format(&mut out, f1);
        let mut v2 = v.1;
        v2.simplify();
        v2.write_with_format(&mut out, f2);
        proof {
            assert(es[i as int] == (r, v));
            assert(out@ == before + pair_record_bytes(r, v, f1, f2));
            assert(es.take(i + 1).drop_last() == es.take(i as int));
            assert(es.take(i + 1).last() == es[i as int]);
        }
        i = i + 1;
    }
    assert(es.take(n as int) == es);
    Ok(out)
}

impl PairPos {
    /// Writes the subtable in format 1: a pair set for each first glyph, in
    /// increasing order, with zero adjustments dropped and each record written
    /// in the formats that cover all the records. Fails where an offset or a
    /// count would not fit in 16 bits.
    pub fn to_bytes(&self) -> (r: Result<Vec<u8>, SerializationError>)
        ensures
            match r {
                Ok(b) => pair_pos_fits(self@) && b@ == pair_pos_encoding(self@),
                Err(e) => !pair_pos_fits(self@) && e == SerializationError::OffsetOverflow,
            },
    {
        let ghost m = self@;
        let (split, uses1, uses2) = split_into_two_layer(&self.mapping);
        let f1 = format_of(&uses1);
        let f2 = format_of(&uses2);
        assert(f1 == pair_value_format(m, false));
        assert(f2 == pair_value_format(m, true));
        let (lefts, inners) = entries_in_order(&split);
        let ghost ls = pair_coverage(m);
        assert(lefts@ == ls);
        let n = lefts.len();
        if n > 32762 {
            return Err(SerializationError::OffsetOverflow);
        }
        proof {
            crate::layout::ordered::lemma_keys_below(left_glyphs(m), 65536);
            assert forall|j: int| 0 <= j < n implies left_glyphs(m).contains(#[trigger] ls[j]) by {
                assert(ls.contains(ls[j]));
            }
        }
        let coverage = Coverage { glyphs: lefts };
        assert(crate::coverage::no_inner_max_glyph(coverage.glyphs@)) by {
            assert forall|j: int| 0 <= j < ls.len() - 1 implies ls[j] != 65535 by {
                assert(ls[j] < ls[j + 1]);
            }
        }
        let cov = coverage.to_bytes();
        if n > 0 && cov.len() > 65535 {
            proof {
                assert(ls.take(0) == Seq::<u16>::empty());
                assert(pair_sets_bytes(m, ls.take(0)).len() == 0);
            }
            return Err(SerializationError::OffsetOverflow);
        }
        if n == 0 {
            assert(cov@.len() == 4);
        }
        let start: usize = 10 + 2 * n + cov.len();
        let mut offsets: Vec<u16> = Vec::new();
        let mut sets: Vec<u8> = Vec::new();
        let mut off: usize = start;
        let mut k: usize = 0;
        while k < n
            invariant
                k <= n,
                n <= 32762,
                m == self@,
                ls == pair_coverage(m),
                n == ls.len(),
                inners@.len() == n,
                forall|j: int| 0 <= j < n ==> (*#[trigger] inners@[j]) == split@[ls[j]],
                split@.dom() == left_glyphs(m),
                forall|l: u16| #[trigger] split@.dom().contains(l) ==> split@[l]@ == right_map(m, l),
                forall|j: int| 0 <= j < n ==> left_glyphs(m).contains(#[trigger] ls[j]),
                f1 == pair_value_format(m, false),
                f2 == pair_value_format(m, true),
                start == pair_sets_start(m),
                start <= 10 + 2 * 32762 + 65535,
                sets@ == pair_sets_bytes(m, ls.take(k as int)),
                off == start + sets@.len(),
                off <= 65535 + 2 + 18 * 65535 + start,
                offsets@ == pair_set_offsets(m).take(k as int),
                forall|t: int| 0 <= t < k ==> #[trigger] pair_set_entries(m, ls[t]).len() <= 65535,
                forall|t: int| 0 <= t < k ==> start + #[trigger] pair_sets_bytes(m, ls.take(t)).len() <= 65535,
            decreases n - k,
        {
            if off > 65535 {
                assert(pair_sets_bytes(m, ls.take(k as int)).len() == sets@.len());
                return Err(SerializationError::OffsetOverflow);
            }
            offsets.push(off as u16);
            let ghost l = ls[k as int];
            let set = match pair_set_to_bytes(inners[k], Ghost(m), Ghost(l), f1, f2) {
                Ok(v) => v,
                Err(_) => {
                    return Err(SerializationError::OffsetOverflow);
                },
            };
            proof {
                let es = pair_set_entries(m, l);
                lemma_pair_records_len(es, f1, f2);
            }
            push_bytes(&mut sets, set.as_slice());
            proof {
                assert(ls.take(k + 1).drop_last() == ls.take(k as int));
                assert(ls.take(k + 1).last() == ls[k as int]);
                assert(offsets@ == pair_set_offsets(m).take(k + 1));
            }
            off = off + set.len();
            k = k + 1;
        }
        proof {
            assert(ls.take(n as int) == ls);
            assert(pair_set_offsets(m).take(n as int) == pair_set_offsets(m));
        }
        let mut out: Vec<u8> = Vec::new();
        push_u16(&mut out, 1);
        push_u16(&mut out, (10 + 2 * n) as u16);
        push_u16(&mut out, f1);
        push_u16(&mut out, f2);
        push_u16(&mut out, n as u16);
        push_u16_slice(&mut out, offsets.as_slice());
        push_bytes(&mut out, cov.as_slice());
        push_bytes(&mut out, sets.as_slice());
        Ok(out)
    }
}

/// The classes of the glyphs that the first `n` range records of a format 2
/// class definition at `p` give, later records overriding earlier ones.
pub open spec fn class_ranges(s: Seq<u8>, p: int, n: nat) -> Map<u16, u16>
    decreases n,
{
    if n == 0 {
        Map::empty()
    } else {
        let k = (n - 1) as nat;
        let start = u16_at(s, p + 4 + 6 * k);
        let end = u16_at(s, p + 6 + 6 * k);
        let class = u16_at(s, p + 8 + 6 * k);
        class_ranges(s, p, k).union_prefer_right(
            Map::new(|g: u16| start <= g <= end, |g: u16| class),
        )
    }
}

/// The class definition table at `p`: format 1 gives consecutive glyphs from
/// a start glyph their classes; format 2 gives ranges of glyphs a class each.
/// `None` where it is cut short or the format is neither.
pub open spec fn class_def_decoding(s: Seq<u8>, p: int) -> Option<Map<u16, u16>> {
    if !(0 <= p && p + 4 <= s.len()) {
        None
    } else if u16_at(s, p) == 1 {
        if p + 6 <= s.len() && p + 6 + 2 * u16_at(s, p + 4) <= s.len() {
            let start = u16_at(s, p + 2);
            let count = u16_at(s, p + 4);
            Some(
                Map::new(
                    |g: u16| start <= g < start + count,
                    |g: u16| u16_at(s, p + 6 + 2 * (g - start)),
                ),
            )
        } else {
            None
        }
    } else if u16_at(s, p) == 2 {
        if p + 4 + 6 * u16_at(s, p + 2) <= s.len() {
            Some(class_ranges(s, p, u16_at(s, p + 2) as nat))
        } else {
            None
        }
    } else {
        None
    }
}

/// A class definition through its offset: none for a null offset.
pub open spec fn class_def_at(s: Seq<u8>, off: u16) -> Option<Map<u16, u16>> {
    if off == 0 {
        Some(Map::empty())
    } else {
        class_def_decoding(s, off as int)
    }
}

/// Reads a class definition table at `p`.
fn read_class_def(data: &[u8], p: usize) -> (r: Option<BTreeMap<u16, u16>>)
    ensures
        match r {
            Some(c) => class_def_decoding(data@, p as int) == Some(c@),
            None => class_def_decoding(data@, p as int) is None,
        },
{
    proof {
        lemma_map_key_order();
    }
    let format = match read_u16(data, p) {
        Some(f) => f,
        None => return None,
    };
    assert(p + 2 <= data.len());
    let second = match read_u16(data, p + 2) {
        Some(f) => f,
        None => return None,
    };
    let mut classes: BTreeMap<u16, u16> = BTreeMap::new();
    if format == 1 {
        let count = match read_u16(data, p + 4) {
            Some(c) => c,
            None => return None,
        };
        if data.len() - p - 6 < 2 * (count as usize) {
            return None;
        }
        let start = second;
        let mut i: u32 = 0;
        while i < count as u32
            invariant
                i <= count,
                p + 6 + 2 * count <= data@.len(),
                data@.len() <= usize::MAX,
                start == u16_at(data@, p + 2),
                count == u16_at(data@, p + 4),
                u16_keys_ordered(),
                forall|g: u16|
                    #[trigger] classes@.dom().contains(g) <==> (start <= g && g < start + i && g < 65536),
                forall|g: u16| #[trigger] classes@.dom().contains(g) ==> classes@[g] == u16_at(data@, p + 6 + 2 * (g - start)),
            decreases count - i,
        {
            let g32 = start as u32 + i;
            if g32 < 65536 {
                let class = read_u16(data, p + 6 + 2 * (i as usize)).unwrap();
                classes.insert(g32 as u16, class);
            }
            i = i + 1;
        }
        proof {
            let target = Map::new(
                |g: u16| start <= g < start + count,
                |g: u16| u16_at(data@, p + 6 + 2 * (g - start)),
            );
            assert(classes@ =~= target);
        }
        Some(classes)
    } else if format == 2 {
        let n = second;
        if data.len() - p - 4 < 6 * (n as usize) {
            return None;
        }
        let mut k: u16 = 0;
        while k < n
            invariant
                k <= n,
                p + 4 + 6 * n <= data@.len(),
                data@.len() <= usize::MAX,
                n == u16_at(data@, p + 2),
                u16_keys_ordered(),
                classes@ == class_ranges(data@, p as int, k as nat),
            decreases n - k,
        {
            let rs = read_u16(data, p + 4 + 6 * (k as usize)).unwrap();
            let re = read_u16(data, p + 6 + 6 * (k as usize)).unwrap();
            let class = read_u16(data, p + 8 + 6 * (k as usize)).unwrap();
            let ghost before = classes@;
            if rs > re {
                assert(classes@ =~= before.union_prefer_right(
                    Map::new(|x: u16| rs <= x <= re, |x: u16| class),
                ));
            }
            let mut g: u32 = rs as u32;
            while rs <= re && g <= re as u32
                invariant
                    rs <= g,
                    rs <= re ==> g <= re as u32 + 1,
                    rs > re ==> classes@ == before.union_prefer_right(
                        Map::new(|x: u16| rs <= x <= re, |x: u16| class),
                    ),
                    u16_keys_ordered(),
                    classes@ == before.union_prefer_right(
                        Map::new(|x: u16| rs <= x < g, |x: u16| class),
                    ),
                decreases re as u32 + 1 - g,
            {
                let ghost prev = classes@;
                classes.insert(g as u16, class);
                assert(classes@ =~= before.union_prefer_right(
                    Map::new(|x: u16| rs <= x < g + 1, |x: u16| class),
                ));
                g = g + 1;
            }
            assert(classes@ =~= before.union_prefer_right(Map::new(|x: u16| rs <= x <= re, |x: u16| class)));
            assert(class_ranges(data@, p as int, (k + 1) as nat) == before.union_prefer_right(
                Map::new(|x: u16| rs <= x <= re, |x: u16| class),
            ));
            k = k + 1;
        }
        Some(classes)
    } else {
        None
    }
}

/// `n` pair value records read from `q` on (second glyph, then the two
/// records in the formats `f1` and `f2`, zero adjustments dropped), with the
/// position after them.
pub open spec fn pair_records_decoding(s: Seq<u8>, q: int, f1: u16, f2: u16, n: nat) -> Option<
    (Seq<(u16, ValueRecord, ValueRecord)>, int),
>
    decreases n,
{
    if n == 0 {
        Some((Seq::empty(), q))
    } else {
        match pair_records_decoding(s, q, f1, f2, (n - 1) as nat) {
            None => None,
            Some((rs, q1)) => if 0 <= q1 && q1 + 2 <= s.len() {
                match value_record_fields(s, q1 + 2, f1) {
                    None => None,
                    Some((v1, q2)) => match value_record_fields(s, q2, f2) {
                        None => None,
                        Some((v2, q3)) => Some(
                            (rs.push((u16_at(s, q1), simplified(v1), simplified(v2))), q3),
                        ),
                    },
                }
            } else {
                None
            },
        }
    }
}

/// The pair set at `off`: its count, then its records.
pub open spec fn pair_set_decoding(s: Seq<u8>, off: int, f1: u16, f2: u16) -> Option<
    Seq<(u16, ValueRecord, ValueRecord)>,
> {
    if 0 <= off && off + 2 <= s.len() {
        match pair_records_decoding(s, off + 2, f1, f2, u16_at(s, off) as nat) {
            None => None,
            Some((rs, _)) => Some(rs),
        }
    } else {
        None
    }
}

/// `m` with the pairs of a set added, `left` first in each.
pub open spec fn insert_pairs(
    m: Map<(u16, u16), (ValueRecord, ValueRecord)>,
    left: u16,
    rs: Seq<(u16, ValueRecord, ValueRecord)>,
) -> Map<(u16, u16), (ValueRecord, ValueRecord)>
    decreases rs.len(),
{
    if rs.len() == 0 {
        m
    } else {
        insert_pairs(m, left, rs.drop_last()).insert((left, rs.last().0), (rs.last().1, rs.last().2))
    }
}

/// The pairs of the first `k` covered glyphs and the sets their offsets point at.
pub open spec fn format1_pairs(s: Seq<u8>, g: Seq<u16>, f1: u16, f2: u16, k: nat) -> Option<
    Map<(u16, u16), (ValueRecord, ValueRecord)>,
>
    decreases k,
{
    if k == 0 {
        Some(Map::empty())
    } else {
        let j = (k - 1) as nat;
        match format1_pairs(s, g, f1, f2, j) {
            None => None,
            Some(m) => match pair_set_decoding(s, u16_at(s, 10 + 2 * j as int) as int, f1, f2) {
                None => None,
                Some(rs) => Some(insert_pairs(m, g[j as int], rs)),
            },
        }
    }
}

/// The pairs of a format 1 subtable: each covered glyph with the pair set at
/// the same position, as far as both lists go; sets past that are not read.
pub open spec fn format1_decoding(s: Seq<u8>) -> Option<Map<(u16, u16), (ValueRecord, ValueRecord)>> {
    let cov = u16_at(s, 2);
    let n = u16_at(s, 8);
    if s.len() < 10 || cov == 0 || cov > s.len() || 10 + 2 * n > s.len() {
        None
    } else {
        match coverage_decoding(coverage_part(s)) {
            None => None,
            Some(g) => format1_pairs(
                s,
                g,
                u16_at(s, 4),
                u16_at(s, 6),
                if g.len() < n { g.len() } else { n as nat },
            ),
        }
    }
}

fn read_pair_records(data: &[u8], q: usize, f1: u16, f2: u16, n: u16) -> (r: Option<
    (Vec<(u16, ValueRecord, ValueRecord)>, usize),
>)
    ensures
        match r {
            Some((rs, next)) => pair_records_decoding(data@, q as int, f1, f2, n as nat) == Some(
                (rs@, next as int),
            ),
            None => pair_records_decoding(data@, q as int, f1, f2, n as nat) is None,
        },
{
    let mut rs: Vec<(u16, ValueRecord, ValueRecord)> = Vec::new();
    let mut p = q;
    let mut k: u16 = 0;
    while k < n
        invariant
            k <= n,
            pair_records_decoding(data@, q as int, f1, f2, k as nat) == Some((rs@, p as int)),
        decreases n - k,
    {
        let second = match read_u16(data, p) {
            Some(g) => g,
            None => {
                proof {
                    lemma_pair_records_fail(data@, q as int, f1, f2, (k + 1) as nat, n as nat);
                }
                return None;
            },
        };
        assert(p + 2 <= data.len());
        let (mut v1, p1) = match ValueRecord::read_with_format(data, p + 2, f1) {
            Ok(t) => t,
            Err(_) => {
                proof {
                    lemma_pair_records_fail(data@, q as int, f1, f2, (k + 1) as nat, n as nat);
                }
                return None;
            },
        };
        let (mut v2, p2) = match ValueRecord::read_with_format(data, p1, f2) {
            Ok(t) => t,
            Err(_) => {
                proof {
                    lemma_pair_records_fail(data@, q as int, f1, f2, (k + 1) as nat, n as nat);
                }
                return None;
            },
        };
        v1.simplify();
        v2.simplify();
        rs.push((second, v1, v2));
        p = p2;
        k = k + 1;
    }
    Some((rs, p))
}

proof fn lemma_pair_records_fail(s: Seq<u8>, q: int, f1: u16, f2: u16, k: nat, n: nat)
    requires
        k <= n,
        pair_records_decoding(s, q, f1, f2, k) is None,
    ensures
        pair_records_decoding(s, q, f1, f2, n) is None,
    decreases n - k,
{
    if k < n {
        lemma_pair_records_fail(s, q, f1, f2, k + 1, n);
    }
}

proof fn lemma_format1_pairs_fail(s: Seq<u8>, g: Seq<u16>, f1: u16, f2: u16, k: nat, n: nat)
    requires
        k <= n,
        format1_pairs(s, g, f1, f2, k) is None,
    ensures
        format1_pairs(s, g, f1, f2, n) is None,
    decreases n - k,
{
    if k < n {
        lemma_format1_pairs_fail(s, g, f1, f2, k + 1, n);
    }
}

fn read_pair_set(data: &[u8], off: usize, f1: u16, f2: u16) -> (r: Option<Vec<(u16, ValueRecord, ValueRecord)>>)
    ensures
        match r {
            Some(rs) => pair_set_decoding(data@, off as int, f1, f2) == Some(rs@),
            None => pair_set_decoding(data@, off as int, f1, f2) is None,
        },
{
    let count = match read_u16(data, off) {
        Some(c) => c,
        None => return None,
    };
    assert(off + 2 <= data.len());
    match read_pair_records(data, off + 2, f1, f2, count) {
        Some((rs, _)) => Some(rs),
        None => None,
    }
}

fn insert_pair_list(
    mapping: &mut BTreeMap<(u16, u16), (ValueRecord, ValueRecord)>,
    left: u16,
    rs: &Vec<(u16, ValueRecord, ValueRecord)>,
)
    requires
        pair_keys_ordered(),
    ensures
        final(mapping)@ == insert_pairs(old(mapping)@, left, rs@),
{
    let ghost start = mapping@;
    let mut j: usize = 0;
    while j < rs.len()
        invariant
            j <= rs@.len(),
            pair_keys_ordered(),
            mapping@ == insert_pairs(start, left, rs@.take(j as int)),
        decreases rs.len() - j,
    {
        let (second, v1, v2) = rs[j];
        mapping.insert((left, second), (v1, v2));
        assert(rs@.take(j + 1).drop_last() == rs@.take(j as int));
        j = j + 1;
    }
    assert(rs@.take(rs@.len() as int) == rs@);
}

/// Reads the pairs of a format 1 subtable.
fn read_format1(data: &[u8], f1: u16, f2: u16) -> (r: Option<BTreeMap<(u16, u16), (ValueRecord, ValueRecord)>>)
    requires
        data@.len() >= 10,
        f1 == u16_at(data@, 4),
        f2 == u16_at(data@, 6),
        u16_at(data@, 2) != 0 && u16_at(data@, 2) <= data@.len() ==> !coverage_range_overflows(
            coverage_part(data@),
        ),
    ensures
        match r {
            Some(m) => format1_decoding(data@) == Some(m@),
            None => format1_decoding(data@) is None,
        },
{
    proof {
        lemma_pair_key_order();
    }
    let cov_off = read_u16(data, 2).unwrap();
    let n = read_u16(data, 8).unwrap();
    if cov_off == 0 || cov_off as usize > data.len() || 10 + 2 * (n as usize) > data.len() {
        return None;
    }
    let g = match Coverage::from_bytes(vstd::slice::slice_subrange(data, cov_off as usize, data.len())) {
        Ok(c) => c.glyphs,
        Err(_) => return None,
    };
    let count: usize = if g.len() < n as usize { g.len() } else { n as usize };
    let ghost total = if g@.len() < n { g@.len() } else { n as nat };
    assert(count == total);
    let mut mapping: BTreeMap<(u16, u16), (ValueRecord, ValueRecord)> = BTreeMap::new();
    let mut k: usize = 0;
    while k < count
        invariant
            k <= count,
            count == total,
            total == (if g@.len() < n { g@.len() } else { n as nat }),
            count <= g@.len(),
            count <= n,
            10 + 2 * n <= data@.len(),
            data@.len() >= 10,
            n == u16_at(data@, 8),
            u16_at(data@, 2) != 0,
            u16_at(data@, 2) <= data@.len(),
            coverage_decoding(coverage_part(data@)) == Some(g@),
            f1 == u16_at(data@, 4),
            f2 == u16_at(data@, 6),
            pair_keys_ordered(),
            format1_pairs(data@, g@, f1, f2, k as nat) == Some(mapping@),
        decreases count - k,
    {
        let off = read_u16(data, 10 + 2 * k).unwrap();
        let rs = match read_pair_set(data, off as usize, f1, f2) {
            Some(rs) => rs,
            None => {
                proof {
                    lemma_format1_pairs_fail(data@, g@, f1, f2, (k + 1) as nat, count as nat);
                }
                return None;
            },
        };
        insert_pair_list(&mut mapping, g[k], &rs);
        k = k + 1;
    }
    Some(mapping)
}

/// A pair of records at `q`, in the formats `f1` and `f2`, zero adjustments
/// dropped, with the position after it.
pub open spec fn record_pair_at(s: Seq<u8>, q: int, f1: u16, f2: u16) -> Option<
    ((ValueRecord, ValueRecord), int),
> {
    match value_record_fields(s, q, f1) {
        None => None,
        Some((v1, q1)) => match value_record_fields(s, q1, f2) {
            None => None,
            Some((v2, q2)) => Some(((simplified(v1), simplified(v2)), q2)),
        },
    }
}

/// `n` record pairs from `q` on.
pub open spec fn record_row(s: Seq<u8>, q: int, f1: u16, f2: u16, n: nat) -> Option<
    (Seq<(ValueRecord, ValueRecord)>, int),
>
    decreases n,
{
    if n == 0 {
        Some((Seq::empty(), q))
    } else {
        match record_row(s, q, f1, f2, (n - 1) as nat) {
            None => None,
            Some((row, q1)) => match record_pair_at(s, q1, f1, f2) {
                None => None,
                Some((rp, q2)) => Some((row.push(rp), q2)),
            },
        }
    }
}

/// The first `k` rows of `n2` record pairs each, from byte 16 on.
pub open spec fn class_rows(s: Seq<u8>, f1: u16, f2: u16, n2: nat, k: nat) -> Option<
    (Seq<Seq<(ValueRecord, ValueRecord)>>, int),
>
    decreases k,
{
    if k == 0 {
        Some((Seq::empty(), 16))
    } else {
        match class_rows(s, f1, f2, n2, (k - 1) as nat) {
            None => None,
            Some((rows, q)) => match record_row(s, q, f1, f2, n2) {
                None => None,
                Some((row, q2)) => Some((rows.push(row), q2)),
            },
        }
    }
}

/// Whether a record pair has any adjustment.
pub open spec fn pair_has_any(rp: (ValueRecord, ValueRecord)) -> bool {
    crate::layout::valuerecord::has_any_field(rp.0) || crate::layout::valuerecord::has_any_field(rp.1)
}

/// The class of a first glyph: its class in the first class definition where
/// that is not 0; class 0 for a covered glyph that the definition does not list.
pub open spec fn first_class(g: Seq<u16>, cd1: Map<u16, u16>, l: u16) -> Option<u16> {
    if cd1.dom().contains(l) {
        if cd1[l] == 0 {
            None
        } else {
            Some(cd1[l])
        }
    } else if g.contains(l) {
        Some(0)
    } else {
        None
    }
}

/// Whether the class records in `rows` give the pair `p` an adjustment: the
/// second glyph's class is not 0, and the record of the two classes has some.
pub open spec fn class_pair_present(
    g: Seq<u16>,
    cd1: Map<u16, u16>,
    cd2: Map<u16, u16>,
    rows: Seq<Seq<(ValueRecord, ValueRecord)>>,
    p: (u16, u16),
) -> bool {
    &&& first_class(g, cd1, p.0) is Some
    &&& first_class(g, cd1, p.0).unwrap() < rows.len()
    &&& cd2.dom().contains(p.1)
    &&& 1 <= cd2[p.1] < rows[first_class(g, cd1, p.0).unwrap() as int].len()
    &&& pair_has_any(rows[first_class(g, cd1, p.0).unwrap() as int][cd2[p.1] as int])
}

/// The pairs that class records give adjustments, with those adjustments.
pub open spec fn class_pair_map(
    g: Seq<u16>,
    cd1: Map<u16, u16>,
    cd2: Map<u16, u16>,
    rows: Seq<Seq<(ValueRecord, ValueRecord)>>,
) -> Map<(u16, u16), (ValueRecord, ValueRecord)> {
    Map::new(
        |p: (u16, u16)| class_pair_present(g, cd1, cd2, rows, p),
        |p: (u16, u16)| rows[first_class(g, cd1, p.0).unwrap() as int][cd2[p.1] as int],
    )
}

/// The covered glyphs of a format 2 subtable: none for a null offset.
pub open spec fn format2_glyphs(s: Seq<u8>) -> Option<Seq<u16>> {
    if u16_at(s, 2) == 0 {
        Some(Seq::empty())
    } else if u16_at(s, 2) > s.len() {
        None
    } else {
        coverage_decoding(coverage_part(s))
    }
}

/// A format 2 subtable whose record for some first class and the second class 0
/// has an adjustment: class 0 stands for every other glyph of the font, which
/// a subtable read on its own cannot list.
pub open spec fn format2_class0_adjusted(s: Seq<u8>) -> bool {
    &&& s.len() >= 16
    &&& format2_glyphs(s) is Some
    &&& class_def_at(s, u16_at(s, 8)) is Some
    &&& class_def_at(s, u16_at(s, 10)) is Some
    &&& u16_at(s, 14) > 0
    &&& exists|c1: nat|
        c1 < u16_at(s, 12) && #[trigger] class0_record_adjusted(
            s,
            u16_at(s, 4),
            u16_at(s, 6),
            u16_at(s, 14) as nat,
            c1,
        )
}

/// Whether the rows before row `c1` read, and the first record of row `c1`
/// (second class 0) reads and has an adjustment.
pub open spec fn class0_record_adjusted(s: Seq<u8>, f1: u16, f2: u16, n2: nat, c1: nat) -> bool {
    match class_rows(s, f1, f2, n2, c1) {
        Some((_, q)) => match record_pair_at(s, q, f1, f2) {
            Some((rp, _)) => pair_has_any(rp),
            None => false,
        },
        None => false,
    }
}

/// The pairs of a format 2 subtable.
pub open spec fn format2_decoding(s: Seq<u8>) -> Option<Map<(u16, u16), (ValueRecord, ValueRecord)>> {
    if s.len() < 16 {
        None
    } else {
        match (
            format2_glyphs(s),
            class_def_at(s, u16_at(s, 8)),
            class_def_at(s, u16_at(s, 10)),
            class_rows(s, u16_at(s, 4), u16_at(s, 6), u16_at(s, 14) as nat, u16_at(s, 12) as nat),
        ) {
            (Some(g), Some(cd1), Some(cd2), Some((rows, _))) => Some(class_pair_map(g, cd1, cd2, rows)),
            _ => None,
        }
    }
}

fn read_record_pair(data: &[u8], q: usize, f1: u16, f2: u16) -> (r: Option<((ValueRecord, ValueRecord), usize)>)
    ensures
        match r {
            Some((rp, next)) => record_pair_at(data@, q as int, f1, f2) == Some((rp, next as int)),
            None => record_pair_at(data@, q as int, f1, f2) is None,
        },
{
    let (mut v1, q1) = match ValueRecord::read_with_format(data, q, f1) {
        Ok(t) => t,
        Err(_) => return None,
    };
    let (mut v2, q2) = match ValueRecord::read_with_format(data, q1, f2) {
        Ok(t) => t,
        Err(_) => return None,
    };
    v1.simplify();
    v2.simplify();
    Some(((v1, v2), q2))
}

/// The glyphs that a class definition puts in class `c`.
fn glyphs_of_class(cd: &BTreeMap<u16, u16>, c: u16) -> (r: Vec<u16>)
    ensures
        forall|x: u16| #[trigger] r@.contains(x) <==> (cd@.dom().contains(x) && cd@[x] == c),
{
    let (keys, values) = entries_in_order(cd);
    proof {
        crate::layout::ordered::lemma_keys_below(cd@.dom(), 65536);
    }
    let mut out: Vec<u16> = Vec::new();
    let mut i: usize = 0;
    while i < keys.len()
        invariant
            i <= keys@.len(),
            values@.len() == keys@.len(),
            keys@ == sorted_keys(cd@.dom()),
            forall|x: u16| keys@.contains(x) <==> cd@.dom().contains(x),
            forall|j: int| 0 <= j < keys@.len() ==> *values@[j] == cd@[keys@[j]],
            forall|x: u16|
                #[trigger] out@.contains(x) <==> exists|j: int| 0 <= j < i && keys@[j] == x && cd@[x] == c,
        decreases keys.len() - i,
    {
        let ghost before = out@;
        if *values[i] == c {
            out.push(keys[i]);
        }
        proof {
            assert forall|x: u16| #[trigger] out@.contains(x) <==> exists|j: int|
                0 <= j < i + 1 && keys@[j] == x && cd@[x] == c by {
                if out@.contains(x) {
                    if before.contains(x) {
                        let j = choose|j: int| 0 <= j < i && keys@[j] == x && cd@[x] == c;
                    } else {
                        assert(x == keys@[i as int]);
                    }
                }
                if exists|j: int| 0 <= j < i + 1 && keys@[j] == x && cd@[x] == c {
                    let j = choose|j: int| 0 <= j < i + 1 && keys@[j] == x && cd@[x] == c;
                    if j < i {
                        assert(before.contains(x));
                        let t = choose|t: int| 0 <= t < before.len() && before[t] == x;
                        assert(out@[t] == x);
                    } else {
                        assert(out@[out@.len() - 1] == x);
                    }
                }
            }
        }
        i = i + 1;
    }
    proof {
        assert forall|x: u16| #[trigger] out@.contains(x) <==> (cd@.dom().contains(x) && cd@[x] == c) by {
            if cd@.dom().contains(x) && cd@[x] == c {
                assert(keys@.contains(x));
                let j = choose|j: int| 0 <= j < keys@.len() && keys@[j] == x;
                assert(keys@[j] == x && cd@[x] == c);
            }
            if out@.contains(x) {
                let j = choose|j: int| 0 <= j < keys@.len() && keys@[j] == x && cd@[x] == c;
                assert(keys@.contains(keys@[j]));
            }
        }
    }
    out
}

/// The covered glyphs that a class definition does not list: class 0.
fn class0_glyphs(g: &Vec<u16>, cd: &BTreeMap<u16, u16>) -> (r: Vec<u16>)
    ensures
        forall|x: u16| #[trigger] r@.contains(x) <==> (g@.contains(x) && !cd@.dom().contains(x)),
{
    proof {
        lemma_map_key_order();
    }
    broadcast use vstd::std_specs::btree::group_btree_axioms;

    let mut out: Vec<u16> = Vec::new();
    let mut i: usize = 0;
    while i < g.len()
        invariant
            i <= g@.len(),
            u16_keys_ordered(),
            forall|x: u16|
                #[trigger] out@.contains(x) <==> exists|j: int| 0 <= j < i && g@[j] == x && !cd@.dom().contains(x),
        decreases g.len() - i,
    {
        let ghost before = out@;
        let x = g[i];
        if !cd.contains_key(&x) {
            out.push(x);
        }
        proof {
            assert forall|y: u16| #[trigger] out@.contains(y) <==> exists|j: int|
                0 <= j < i + 1 && g@[j] == y && !cd@.dom().contains(y) by {
                if out@.contains(y) {
                    if before.contains(y) {
                        let j = choose|j: int| 0 <= j < i && g@[j] == y && !cd@.dom().contains(y);
                    } else {
                        assert(y == x);
                    }
                }
                if exists|j: int| 0 <= j < i + 1 && g@[j] == y && !cd@.dom().contains(y) {
                    let j = choose|j: int| 0 <= j < i + 1 && g@[j] == y && !cd@.dom().contains(y);
                    if j < i {
                        assert(before.contains(y));
                        let t = choose|t: int| 0 <= t < before.len() && before[t] == y;
                        assert(out@[t] == y);
                    } else {
                        assert(out@[out@.len() - 1] == y);
                    }
                }
            }
        }
        i = i + 1;
    }
    proof {
        assert forall|x: u16| #[trigger] out@.contains(x) <==> (g@.contains(x) && !cd@.dom().contains(x)) by {
            if g@.contains(x) && !cd@.dom().contains(x) {
                let j = choose|j: int| 0 <= j < g@.len() && g@[j] == x;
            }
        }
    }
    out
}

/// Every pair of a glyph of `ls` and a glyph of `rs`, each with the record pair `v`.
pub open spec fn product_map(ls: Seq<u16>, rs: Seq<u16>, v: (ValueRecord, ValueRecord)) -> Map<
    (u16, u16),
    (ValueRecord, ValueRecord),
> {
    Map::new(|p: (u16, u16)| ls.contains(p.0) && rs.contains(p.1), |p: (u16, u16)| v)
}

fn insert_product(
    mapping: &mut BTreeMap<(u16, u16), (ValueRecord, ValueRecord)>,
    ls: &Vec<u16>,
    rs: &Vec<u16>,
    v: (ValueRecord, ValueRecord),
)
    requires
        pair_keys_ordered(),
    ensures
        final(mapping)@ == old(mapping)@.union_prefer_right(product_map(ls@, rs@, v)),
{
    let ghost start = mapping@;
    let mut i: usize = 0;
    while i < ls.len()
        invariant
            i <= ls@.len(),
            pair_keys_ordered(),
            mapping@ == start.union_prefer_right(product_map(ls@.take(i as int), rs@, v)),
        decreases ls.len() - i,
    {
        let ghost before = mapping@;
        let mut j: usize = 0;
        while j < rs.len()
            invariant
                j <= rs@.len(),
                i < ls@.len(),
                pair_keys_ordered(),
                mapping@ == before.union_prefer_right(
                    Map::new(|p: (u16, u16)| p.0 == ls@[i as int] && rs@.take(j as int).contains(p.1), |p: (u16, u16)| v),
                ),
            decreases rs.len() - j,
        {
            mapping.insert((ls[i], rs[j]), v);
            proof {
                lemma_take_step(rs@, j as int);
                assert(mapping@ =~= before.union_prefer_right(
                    Map::new(|p: (u16, u16)| p.0 == ls@[i as int] && rs@.take(j + 1).contains(p.1), |p: (u16, u16)| v),
                ));
            }
            j = j + 1;
        }
        proof {
            assert(rs@.take(rs@.len() as int) == rs@);
            lemma_take_step(ls@, i as int);
            assert(mapping@ =~= start.union_prefer_right(product_map(ls@.take(i + 1), rs@, v)));
        }
        i = i + 1;
    }
    assert(ls@.take(ls@.len() as int) == ls@);
}

/// The first `j + 1` glyphs hold those of the first `j` and glyph `j`.
proof fn lemma_take_step(s: Seq<u16>, j: int)
    requires
        0 <= j < s.len(),
    ensures
        forall|y: u16| #[trigger] s.take(j + 1).contains(y) <==> (s.take(j).contains(y) || y == s[j]),
{
    let a = s.take(j);
    let b = s.take(j + 1);
    assert(b == a.push(s[j]));
    assert forall|y: u16| #[trigger] b.contains(y) <==> (a.contains(y) || y == s[j]) by {
        if b.contains(y) {
            let t = choose|t: int| 0 <= t < b.len() && b[t] == y;
            if t < j {
                assert(a[t] == y);
            }
        }
        if a.contains(y) {
            let t = choose|t: int| 0 <= t < a.len() && a[t] == y;
            assert(b[t] == y);
        }
        if y == s[j] {
            assert(b[j] == y);
        }
    }
}

/// A row with no records yet adds no pairs.
proof fn lemma_class_pair_empty_row(
    g: Seq<u16>,
    cd1: Map<u16, u16>,
    cd2: Map<u16, u16>,
    rows: Seq<Seq<(ValueRecord, ValueRecord)>>,
)
    ensures
        class_pair_map(g, cd1, cd2, rows.push(Seq::empty())) == class_pair_map(g, cd1, cd2, rows),
{
    let a = class_pair_map(g, cd1, cd2, rows.push(Seq::empty()));
    let b = class_pair_map(g, cd1, cd2, rows);
    assert forall|p: (u16, u16)| #[trigger] a.dom().contains(p) <==> b.dom().contains(p) by {
        if let Some(c1) = first_class(g, cd1, p.0) {
            if c1 < rows.len() {
                assert(rows.push(Seq::empty())[c1 as int] == rows[c1 as int]);
            }
        }
    }
    assert forall|p: (u16, u16)| #[trigger] a.dom().contains(p) implies a[p] == b[p] by {
        let c1 = first_class(g, cd1, p.0).unwrap();
        assert(rows.push(Seq::empty())[c1 as int] == rows[c1 as int]);
    }
    assert(a =~= b);
}

/// Reading one more record pair of the last row: where it has an adjustment
/// and its second class is not 0, its pairs are added.
proof fn lemma_class_pair_step(
    g: Seq<u16>,
    cd1: Map<u16, u16>,
    cd2: Map<u16, u16>,
    rows: Seq<Seq<(ValueRecord, ValueRecord)>>,
    row: Seq<(ValueRecord, ValueRecord)>,
    rp: (ValueRecord, ValueRecord),
    ls: Seq<u16>,
    rs: Seq<u16>,
)
    requires
        rows.len() < 65536,
        row.len() < 65536,
        forall|x: u16| #[trigger] ls.contains(x) <==> first_class(g, cd1, x) == Some(rows.len() as u16),
        forall|x: u16| #[trigger] rs.contains(x) <==> (cd2.dom().contains(x) && cd2[x] == row.len()),
    ensures
        class_pair_map(g, cd1, cd2, rows.push(row.push(rp))) == (if pair_has_any(rp) && row.len() >= 1 {
            class_pair_map(g, cd1, cd2, rows.push(row)).union_prefer_right(product_map(ls, rs, rp))
        } else {
            class_pair_map(g, cd1, cd2, rows.push(row))
        }),
{
    let n = rows.len();
    let new_rows = rows.push(row.push(rp));
    let old_rows = rows.push(row);
    let a = class_pair_map(g, cd1, cd2, new_rows);
    let old = class_pair_map(g, cd1, cd2, old_rows);
    let b = if pair_has_any(rp) && row.len() >= 1 {
        old.union_prefer_right(product_map(ls, rs, rp))
    } else {
        old
    };
    assert forall|c: int| 0 <= c < n implies new_rows[c] == old_rows[c] by {}
    assert(new_rows[n as int] == row.push(rp));
    assert(old_rows[n as int] == row);
    assert forall|p: (u16, u16)| #[trigger] a.dom().contains(p) <==> b.dom().contains(p) by {
        if let Some(c1) = first_class(g, cd1, p.0) {
            if c1 == n {
                assert(ls.contains(p.0));
                if cd2.dom().contains(p.1) && cd2[p.1] == row.len() {
                    assert(rs.contains(p.1));
                }
                if rs.contains(p.1) {
                    assert(cd2.dom().contains(p.1) && cd2[p.1] == row.len());
                }
            } else {
                assert(!ls.contains(p.0));
            }
        } else {
            assert(!ls.contains(p.0));
        }
    }
    assert forall|p: (u16, u16)| #[trigger] a.dom().contains(p) implies a[p] == b[p] by {
        let c1 = first_class(g, cd1, p.0).unwrap();
        if c1 == n {
            assert(ls.contains(p.0));
            if cd2[p.1] == row.len() {
                assert(rs.contains(p.1));
            } else {
                assert(!rs.contains(p.1));
            }
        } else {
            assert(!ls.contains(p.0));
        }
    }
    assert(a =~= b);
}

proof fn lemma_record_row_fail(s: Seq<u8>, q: int, f1: u16, f2: u16, k: nat, n: nat)
    requires
        k <= n,
        record_row(s, q, f1, f2, k) is None,
    ensures
        record_row(s, q, f1, f2, n) is None,
    decreases n - k,
{
    if k < n {
        lemma_record_row_fail(s, q, f1, f2, k + 1, n);
    }
}

proof fn lemma_class_rows_fail(s: Seq<u8>, f1: u16, f2: u16, n2: nat, k: nat, n: nat)
    requires
        k <= n,
        class_rows(s, f1, f2, n2, k) is None,
    ensures
        class_rows(s, f1, f2, n2, n) is None,
    decreases n - k,
{
    if k < n {
        lemma_class_rows_fail(s, f1, f2, n2, k + 1, n);
    }
}

fn class_def_or_empty(data: &[u8], off: u16) -> (r: Option<BTreeMap<u16, u16>>)
    ensures
        match r {
            Some(c) => class_def_at(data@, off) == Some(c@),
            None => class_def_at(data@, off) is None,
        },
{
    if off == 0 {
        Some(BTreeMap::new())
    } else {
        read_class_def(data, off as usize)
    }
}

/// Reads the pairs of a format 2 subtable.
#[verifier::spinoff_prover]
#[verifier::rlimit(40)]
fn read_format2(data: &[u8], f1: u16, f2: u16) -> (r: Option<BTreeMap<(u16, u16), (ValueRecord, ValueRecord)>>)
    requires
        data@.len() >= 16,
        f1 == u16_at(data@, 4),
        f2 == u16_at(data@, 6),
        u16_at(data@, 2) != 0 && u16_at(data@, 2) <= data@.len() ==> !coverage_range_overflows(
            coverage_part(data@),
        ),
        !format2_class0_adjusted(data@),
    ensures
        match r {
            Some(m) => format2_decoding(data@) == Some(m@),
            None => format2_decoding(data@) is None,
        },
{
    proof {
        lemma_pair_key_order();
    }
    let cov_off = read_u16(data, 2).unwrap();
    let g: Vec<u16> = if cov_off == 0 {
        Vec::new()
    } else if cov_off as usize > data.len() {
        return None;
    } else {
        match Coverage::from_bytes(vstd::slice::slice_subrange(data, cov_off as usize, data.len())) {
            Ok(c) => c.glyphs,
            Err(_) => return None,
        }
    };
    assert(format2_glyphs(data@) == Some(g@));
    let cd1 = match class_def_or_empty(data, read_u16(data, 8).unwrap()) {
        Some(c) => c,
        None => return None,
    };
    let cd2 = match class_def_or_empty(data, read_u16(data, 10).unwrap()) {
        Some(c) => c,
        None => return None,
    };
    let n1 = read_u16(data, 12).unwrap();
    let n2 = read_u16(data, 14).unwrap();
    let mut mapping: BTreeMap<(u16, u16), (ValueRecord, ValueRecord)> = BTreeMap::new();
    let ghost mut rows: Seq<Seq<(ValueRecord, ValueRecord)>> = Seq::empty();
    assert(class_pair_map(g@, cd1@, cd2@, rows) =~= mapping@);
    let mut q: usize = 16;
    let mut c1: u16 = 0;
    while c1 < n1
        invariant
            c1 <= n1,
            data@.len() >= 16,
            f1 == u16_at(data@, 4),
            f2 == u16_at(data@, 6),
            n1 == u16_at(data@, 12),
            n2 == u16_at(data@, 14),
            format2_glyphs(data@) == Some(g@),
            class_def_at(data@, u16_at(data@, 8)) == Some(cd1@),
            class_def_at(data@, u16_at(data@, 10)) == Some(cd2@),
            !format2_class0_adjusted(data@),
            pair_keys_ordered(),
            class_rows(data@, f1, f2, n2 as nat, c1 as nat) == Some((rows, q as int)),
            rows.len() == c1,
            mapping@ == class_pair_map(g@, cd1@, cd2@, rows),
        decreases n1 - c1,
    {
        let ls = if c1 == 0 {
            class0_glyphs(&g, &cd1)
        } else {
            glyphs_of_class(&cd1, c1)
        };
        assert forall|x: u16| #[trigger] ls@.contains(x) <==> first_class(g@, cd1@, x) == Some(c1) by {}
        let ghost row_start: int = q as int;
        let ghost mut row: Seq<(ValueRecord, ValueRecord)> = Seq::empty();
        proof {
            lemma_class_pair_empty_row(g@, cd1@, cd2@, rows);
        }
        let mut c2: u16 = 0;
        while c2 < n2
            invariant
                c2 <= n2,
                c1 < n1,
                data@.len() >= 16,
                f1 == u16_at(data@, 4),
                f2 == u16_at(data@, 6),
                n1 == u16_at(data@, 12),
                n2 == u16_at(data@, 14),
                format2_glyphs(data@) == Some(g@),
                class_def_at(data@, u16_at(data@, 8)) == Some(cd1@),
                class_def_at(data@, u16_at(data@, 10)) == Some(cd2@),
                !format2_class0_adjusted(data@),
                pair_keys_ordered(),
                class_rows(data@, f1, f2, n2 as nat, c1 as nat) == Some((rows, row_start)),
                rows.len() == c1,
                record_row(data@, row_start, f1, f2, c2 as nat) == Some((row, q as int)),
                row.len() == c2,
                forall|x: u16| #[trigger] ls@.contains(x) <==> first_class(g@, cd1@, x) == Some(c1),
                mapping@ == class_pair_map(g@, cd1@, cd2@, rows.push(row)),
            decreases n2 - c2,
        {
            let (rp, q2) = match read_record_pair(data, q, f1, f2) {
                Some(t) => t,
                None => {
                    proof {
                        lemma_record_row_fail(data@, row_start, f1, f2, (c2 + 1) as nat, n2 as nat);
                        lemma_class_rows_fail(data@, f1, f2, n2 as nat, (c1 + 1) as nat, n1 as nat);
                    }
                    return None;
                },
            };
            let any = rp.0.has_any() || rp.1.has_any();
            if any && c2 == 0 {
                proof {
                    assert(row_start == q);
                    assert(class0_record_adjusted(data@, f1, f2, n2 as nat, c1 as nat));
                    assert(format2_class0_adjusted(data@));
                }
                return None;
            }
            let rs = glyphs_of_class(&cd2, c2);
            if any {
                insert_product(&mut mapping, &ls, &rs, rp);
            }
            proof {
                lemma_class_pair_step(g@, cd1@, cd2@, rows, row, rp, ls@, rs@);
                row = row.push(rp);
            }
            q = q2;
            c2 = c2 + 1;
        }
        proof {
            rows = rows.push(row);
        }
        c1 = c1 + 1;
    }
    Some(mapping)
}

/// A subtable in neither format whose header and coverage table read: a
/// format that the reader has no rule for.
pub open spec fn pair_pos_bad_format(s: Seq<u8>) -> bool {
    &&& s.len() >= 8
    &&& u16_at(s, 0) != 1
    &&& u16_at(s, 0) != 2
    &&& (u16_at(s, 2) == 0 || (u16_at(s, 2) <= s.len() && coverage_decoding(coverage_part(s)) is Some))
}

/// A coverage table whose range records run past glyph 65535 (see `Coverage::from_bytes`).
pub open spec fn pair_pos_coverage_overflows(s: Seq<u8>) -> bool {
    &&& s.len() >= 4
    &&& u16_at(s, 2) != 0
    &&& u16_at(s, 2) <= s.len()
    &&& coverage_range_overflows(coverage_part(s))
}

/// The pairs that the subtable in `s` holds, in either format; `None` where
/// it is cut short, its format 1 coverage offset is null, or a class
/// definition is in neither of its formats.
pub open spec fn pair_pos_decoding(s: Seq<u8>) -> Option<Map<(u16, u16), (ValueRecord, ValueRecord)>> {
    if s.len() >= 2 && u16_at(s, 0) == 1 {
        format1_decoding(s)
    } else if s.len() >= 2 && u16_at(s, 0) == 2 {
        format2_decoding(s)
    } else {
        None
    }
}

impl PairPos {
    /// Reads a pair positioning subtable in format 1 or 2. Zero adjustments
    /// are dropped; in format 2 the pairs of each two classes whose record has
    /// an adjustment are listed.
    pub fn from_bytes(data: &[u8]) -> (r: Result<PairPos, DeserializationError>)
        requires
            !pair_pos_coverage_overflows(data@),
            !pair_pos_bad_format(data@),
            !(u16_at(data@, 0) == 2 && format2_class0_adjusted(data@)),
        ensures
            match r {
                Ok(t) => pair_pos_decoding(data@) == Some(t@),
                Err(_) => pair_pos_decoding(data@) is None,
            },
    {
        if data.len() < 10 {
            return Err(DeserializationError::UnexpectedEof);
        }
        let format = read_u16(data, 0).unwrap();
        let f1 = read_u16(data, 4).unwrap();
        let f2 = read_u16(data, 6).unwrap();
        if format == 1 {
            match read_format1(data, f1, f2) {
                Some(mapping) => Ok(PairPos { mapping }),
                None => Err(DeserializationError::UnexpectedEof),
            }
        } else if format == 2 {
            if data.len() < 16 {
                return Err(DeserializationError::UnexpectedEof);
            }
            match read_format2(data, f1, f2) {
                Some(mapping) => Ok(PairPos { mapping }),
                None => Err(DeserializationError::UnexpectedEof),
            }
        } else {
            Err(DeserializationError::BadFormat)
        }
    }
}

} // verus!
