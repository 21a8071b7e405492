//! Reading back a written pair positioning subtable gives its pairs, with zero
//! adjustments dropped.
use crate::binary::{
    be16, be16_seq, bei16, i16_at, lemma_be16_seq_len, lemma_read_be16, lemma_read_be16_seq, lemma_read_bei16,
    u16_at,
};
use crate::coverage::{coverage_encoding, coverage_decoding, lemma_coverage_decoding_prefix, lemma_coverage_roundtrip, uses_format1};
use crate::layout::gsub2::coverage_part;
use crate::layout::common_proofs::{
    lemma_window_extend, lemma_window_nest, lemma_window_parts, lemma_window_u16, window,
};
use crate::layout::gpos2::{
    format1_decoding, format1_pairs, pair_coverage, pair_pos_coverage_overflows, pair_pos_decoding,
    pair_pos_encoding, pair_pos_fits, pair_set_offsets, pair_sets_bytes, pair_sets_start,
    format_bit, insert_pairs, left_glyphs, pair_record_bytes, pair_records_bytes, pair_records_decoding,
    pair_set_bytes, pair_set_decoding, pair_set_entries, pair_uses, pair_value_format, right_map, vr_field,
};
use crate::layout::ordered::{lemma_keys_below, sorted_keys};
use crate::layout::valuerecord::{
    field_with_format, has_flag, lemma_flag_bits, nonzero, opt_field, simplified, value_record_fields,
    value_record_with_format, ValueRecord,
};
use vstd::prelude::*;

verus! {

/// The format word of the first (or second) records has bit `i` exactly where
/// some pair uses adjustment `i`.
proof fn lemma_pair_format_bits(m: Map<(u16, u16), (ValueRecord, ValueRecord)>, second: bool)
    ensures
        has_flag(pair_value_format(m, second), 1) == pair_uses(m, second, 0),
        has_flag(pair_value_format(m, second), 2) == pair_uses(m, second, 1),
        has_flag(pair_value_format(m, second), 4) == pair_uses(m, second, 2),
        has_flag(pair_value_format(m, second), 8) == pair_uses(m, second, 3),
{
    let a = format_bit(pair_uses(m, second, 0), 1) as u16;
    let b = format_bit(pair_uses(m, second, 1), 2) as u16;
    let c = format_bit(pair_uses(m, second, 2), 4) as u16;
    let d = format_bit(pair_uses(m, second, 3), 8) as u16;
    lemma_flag_bits(a, b, c, d);
    assert(pair_value_format(m, second) == (a + b + c + d) as u16);
}

proof fn lemma_window_split(s: Seq<u8>, p: int, x: Seq<u8>, y: Seq<u8>)
    requires
        window(s, p, x + y),
    ensures
        window(s, p, x),
        window(s, p + x.len(), y),
{
    lemma_window_parts(x, y, Seq::empty());
    assert(x + y + Seq::<u8>::empty() =~= x + y);
    lemma_window_nest(s, p, x + y, 0, x);
    lemma_window_nest(s, p, x + y, x.len() as int, y);
}

/// A field written where the format has it reads back as its value (0 for none).
proof fn lemma_field_read(s: Seq<u8>, p: int, o: Option<i16>, present: bool)
    requires
        window(s, p, field_with_format(o, present)),
    ensures
        opt_field(s, p, present) == Some(
            (
                if present {
                    Some(
                        match o {
                            Some(v) => v,
                            None => 0i16,
                        },
                    )
                } else {
                    None
                },
                p + field_with_format(o, present).len(),
            ),
        ),
{
    if present {
        let v: i16 = match o {
            Some(v) => v,
            None => 0i16,
        };
        let e = Seq::<u8>::empty();
        assert(field_with_format(o, present) == bei16(v));
        lemma_read_bei16(e, v, e);
        assert(e + bei16(v) + e =~= bei16(v));
        lemma_window_u16(s, p, bei16(v), 0);
    }
}

/// What a field reads back as, once a zero is dropped: the field itself,
/// provided the format has it wherever it is not zero.
pub open spec fn field_back(o: Option<i16>, present: bool) -> Option<i16> {
    if present {
        Some(
            match o {
                Some(v) => v,
                None => 0i16,
            },
        )
    } else {
        None
    }
}

proof fn lemma_field_back(o: Option<i16>, present: bool)
    requires
        nonzero(o) == o,
        o is Some ==> present,
    ensures
        nonzero(field_back(o, present)) == o,
{
}

/// A record written in format `f`, zero adjustments dropped, reads back as the
/// same record once zero adjustments are dropped from what is read.
#[verifier::spinoff_prover]
#[verifier::rlimit(30)]
proof fn lemma_record_read(s: Seq<u8>, p: int, v: ValueRecord, f: u16)
    requires
        window(s, p, value_record_with_format(simplified(v), f)),
        nonzero(v.xPlacement) is Some ==> has_flag(f, 1),
        nonzero(v.yPlacement) is Some ==> has_flag(f, 2),
        nonzero(v.xAdvance) is Some ==> has_flag(f, 4),
        nonzero(v.yAdvance) is Some ==> has_flag(f, 8),
    ensures
        value_record_fields(s, p, f) matches Some((r, q)) && q == p + value_record_with_format(
            simplified(v),
            f,
        ).len() && simplified(r) == simplified(v),
{
    let sv = simplified(v);
    let a = field_with_format(sv.xPlacement, has_flag(f, 1));
    let b = field_with_format(sv.yPlacement, has_flag(f, 2));
    let c = field_with_format(sv.xAdvance, has_flag(f, 4));
    let d = field_with_format(sv.yAdvance, has_flag(f, 8));
    let p1 = p + a.len();
    let p2 = p1 + b.len();
    let p3 = p2 + c.len();
    let p4 = p3 + d.len();
    assert(value_record_with_format(sv, f) =~= a + (b + (c + d)));
    lemma_window_split(s, p, a, b + (c + d));
    lemma_window_split(s, p1, b, c + d);
    lemma_window_split(s, p2, c, d);
    lemma_field_read(s, p, sv.xPlacement, has_flag(f, 1));
    lemma_field_read(s, p1, sv.yPlacement, has_flag(f, 2));
    lemma_field_read(s, p2, sv.xAdvance, has_flag(f, 4));
    lemma_field_read(s, p3, sv.yAdvance, has_flag(f, 8));
    let xp = field_back(sv.xPlacement, has_flag(f, 1));
    let yp = field_back(sv.yPlacement, has_flag(f, 2));
    let xa = field_back(sv.xAdvance, has_flag(f, 4));
    let ya = field_back(sv.yAdvance, has_flag(f, 8));
    assert(opt_field(s, p, has_flag(f, 1)) == Some((xp, p1)));
    assert(opt_field(s, p1, has_flag(f, 2)) == Some((yp, p2)));
    assert(opt_field(s, p2, has_flag(f, 4)) == Some((xa, p3)));
    assert(opt_field(s, p3, has_flag(f, 8)) == Some((ya, p4)));
    let r = ValueRecord { xPlacement: xp, yPlacement: yp, xAdvance: xa, yAdvance: ya };
    assert(value_record_fields(s, p, f) == Some((r, p4)));
    lemma_field_back(sv.xPlacement, has_flag(f, 1));
    lemma_field_back(sv.yPlacement, has_flag(f, 2));
    lemma_field_back(sv.xAdvance, has_flag(f, 4));
    lemma_field_back(sv.yAdvance, has_flag(f, 8));
}

/// Record `v` written in format `f` keeps every adjustment that is not zero.
pub open spec fn record_fits(v: ValueRecord, f: u16) -> bool {
    &&& nonzero(v.xPlacement) is Some ==> has_flag(f, 1)
    &&& nonzero(v.yPlacement) is Some ==> has_flag(f, 2)
    &&& nonzero(v.xAdvance) is Some ==> has_flag(f, 4)
    &&& nonzero(v.yAdvance) is Some ==> has_flag(f, 8)
}

/// The formats keep every adjustment of the records of `es` that is not zero.
pub open spec fn formats_cover(es: Seq<(u16, (ValueRecord, ValueRecord))>, f1: u16, f2: u16) -> bool {
    forall|k: int| 0 <= k < es.len() ==> record_fits(#[trigger] es[k].1.0, f1) && record_fits(es[k].1.1, f2)
}

/// What reading back the records of `es` gives.
pub open spec fn records_back(es: Seq<(u16, (ValueRecord, ValueRecord))>) -> Seq<(u16, ValueRecord, ValueRecord)> {
    es.map_values(|e: (u16, (ValueRecord, ValueRecord))| (e.0, simplified(e.1.0), simplified(e.1.1)))
}

/// Record `k` of a list stands after those before it.
proof fn lemma_records_piece(es: Seq<(u16, (ValueRecord, ValueRecord))>, f1: u16, f2: u16, k: int)
    requires
        0 <= k < es.len(),
    ensures
        window(
            pair_records_bytes(es, f1, f2),
            pair_records_bytes(es.take(k), f1, f2).len() as int,
            pair_record_bytes(es[k].0, es[k].1, f1, f2),
        ),
    decreases es.len(),
{
    let init = es.drop_last();
    assert(pair_records_bytes(es, f1, f2) == pair_records_bytes(init, f1, f2) + pair_record_bytes(
        es.last().0,
        es.last().1,
        f1,
        f2,
    ));
    if k == es.len() - 1 {
        assert(init =~= es.take(k));
        lemma_window_parts(pair_records_bytes(init, f1, f2), pair_record_bytes(es.last().0, es.last().1, f1, f2), Seq::empty());
        assert(pair_records_bytes(init, f1, f2) + pair_record_bytes(es.last().0, es.last().1, f1, f2) + Seq::<u8>::empty()
            =~= pair_records_bytes(es, f1, f2));
    } else {
        lemma_records_piece(init, f1, f2, k);
        assert(init.take(k) =~= es.take(k));
        lemma_window_extend(
            pair_records_bytes(init, f1, f2),
            pair_record_bytes(es.last().0, es.last().1, f1, f2),
            pair_records_bytes(es.take(k), f1, f2).len() as int,
            pair_record_bytes(es[k].0, es[k].1, f1, f2),
        );
    }
}

/// One record written at `q1` reads back.
#[verifier::spinoff_prover]
proof fn lemma_one_record_read(s: Seq<u8>, q1: int, e: (u16, (ValueRecord, ValueRecord)), f1: u16, f2: u16)
    requires
        window(s, q1, pair_record_bytes(e.0, e.1, f1, f2)),
        record_fits(e.1.0, f1),
        record_fits(e.1.1, f2),
    ensures
        0 <= q1 && q1 + 2 <= s.len(),
        u16_at(s, q1) == e.0,
        ({
            let o1 = value_record_fields(s, q1 + 2, f1);
            let q2 = q1 + 2 + value_record_with_format(simplified(e.1.0), f1).len();
            let o2 = value_record_fields(s, q2, f2);
            &&& o1 is Some
            &&& simplified(o1.unwrap().0) == simplified(e.1.0)
            &&& o1.unwrap().1 == q2
            &&& o2 is Some
            &&& simplified(o2.unwrap().0) == simplified(e.1.1)
            &&& o2.unwrap().1 == q1 + pair_record_bytes(e.0, e.1, f1, f2).len()
        }),
{
    let rb = pair_record_bytes(e.0, e.1, f1, f2);
    let a = value_record_with_format(simplified(e.1.0), f1);
    let b = value_record_with_format(simplified(e.1.1), f2);
    assert(rb =~= be16(e.0) + (a + b));
    lemma_window_split(s, q1, be16(e.0), a + b);
    lemma_window_split(s, q1 + 2, a, b);
    lemma_window_u16(s, q1, be16(e.0), 0);
    crate::binary::lemma_read_be16(Seq::empty(), e.0, Seq::empty());
    assert(Seq::<u8>::empty() + be16(e.0) + Seq::<u8>::empty() =~= be16(e.0));
    lemma_record_read(s, q1 + 2, e.1.0, f1);
    lemma_record_read(s, q1 + 2 + a.len(), e.1.1, f2);
}

/// The first `n` records written from `q` on read back.
#[verifier::spinoff_prover]
#[verifier::rlimit(40)]
proof fn lemma_records_read(
    s: Seq<u8>,
    q: int,
    es: Seq<(u16, (ValueRecord, ValueRecord))>,
    f1: u16,
    f2: u16,
    n: nat,
)
    requires
        window(s, q, pair_records_bytes(es, f1, f2)),
        n <= es.len(),
        formats_cover(es, f1, f2),
    ensures
        pair_records_decoding(s, q, f1, f2, n) == Some(
            (records_back(es.take(n as int)), q + pair_records_bytes(es.take(n as int), f1, f2).len()),
        ),
    decreases n,
{
    if n == 0 {
        assert(es.take(0) =~= Seq::<(u16, (ValueRecord, ValueRecord))>::empty());
        assert(records_back(es.take(0)) =~= Seq::empty());
    } else {
        let k = (n - 1) as int;
        lemma_records_read(s, q, es, f1, f2, k as nat);
        let e = es[k];
        let rb = pair_record_bytes(e.0, e.1, f1, f2);
        let q1 = q + pair_records_bytes(es.take(k), f1, f2).len();
        lemma_records_piece(es, f1, f2, k);
        lemma_window_nest(s, q, pair_records_bytes(es, f1, f2), pair_records_bytes(es.take(k), f1, f2).len() as int, rb);
        assert(record_fits(e.1.0, f1) && record_fits(e.1.1, f2));
        lemma_one_record_read(s, q1, e, f1, f2);
        let o1 = value_record_fields(s, q1 + 2, f1);
        let o2 = value_record_fields(s, o1.unwrap().1, f2);
        let rs = records_back(es.take(k));
        assert(pair_records_decoding(s, q, f1, f2, k as nat) == Some((rs, q1)));
        assert(pair_records_decoding(s, q, f1, f2, n) == Some(
            (rs.push((u16_at(s, q1), simplified(o1.unwrap().0), simplified(o2.unwrap().0))), o2.unwrap().1),
        ));
        assert(es.take(n as int).drop_last() =~= es.take(k));
        assert(pair_records_bytes(es.take(n as int), f1, f2) == pair_records_bytes(es.take(k), f1, f2) + rb);
        assert(records_back(es.take(n as int)) =~= records_back(es.take(k)).push((e.0, simplified(e.1.0), simplified(e.1.1))));
    }
}

/// The entries of `l`'s pair set are the pairs of `m` that start with `l`,
/// their second glyphs distinct, and the formats keep their adjustments.
#[verifier::spinoff_prover]
proof fn lemma_set_entries(m: Map<(u16, u16), (ValueRecord, ValueRecord)>, l: u16)
    ensures
        ({
            let es = pair_set_entries(m, l);
            &&& forall|i: int| 0 <= i < es.len() ==> m.dom().contains((l, #[trigger] es[i].0)) && es[i].1 == m[(l, es[i].0)]
            &&& forall|i: int, j: int| 0 <= i < j < es.len() ==> es[i].0 < es[j].0
            &&& forall|r: u16| m.dom().contains((l, r)) ==> exists|i: int| 0 <= i < es.len() && #[trigger] es[i].0 == r
            &&& formats_cover(es, pair_value_format(m, false), pair_value_format(m, true))
        }),
{
    let d = right_map(m, l).dom();
    let ks = sorted_keys(d);
    let es = pair_set_entries(m, l);
    lemma_keys_below(d, 65536);
    assert forall|i: int| 0 <= i < es.len() implies m.dom().contains((l, #[trigger] es[i].0)) && es[i].1 == m[(l, es[i].0)] by {
        assert(ks.contains(ks[i]));
    }
    assert forall|r: u16| m.dom().contains((l, r)) implies exists|i: int| 0 <= i < es.len() && #[trigger] es[i].0 == r by {
        assert(d.contains(r));
        assert(ks.contains(r));
        let i = choose|i: int| 0 <= i < ks.len() && ks[i] == r;
        assert(es[i].0 == r);
    }
    lemma_pair_format_bits(m, false);
    lemma_pair_format_bits(m, true);
    let f1 = pair_value_format(m, false);
    let f2 = pair_value_format(m, true);
    assert forall|k: int| 0 <= k < es.len() implies record_fits(#[trigger] es[k].1.0, f1) && record_fits(es[k].1.1, f2) by {
        assert(ks.contains(ks[k]));
        let key = (l, es[k].0);
        assert(m.dom().contains(key));
        assert(vr_field(m[key].0, 0) == m[key].0.xPlacement);
        assert(vr_field(m[key].0, 1) == m[key].0.yPlacement);
        assert(vr_field(m[key].0, 2) == m[key].0.xAdvance);
        assert(vr_field(m[key].0, 3) == m[key].0.yAdvance);
        assert(vr_field(m[key].1, 0) == m[key].1.xPlacement);
        assert(vr_field(m[key].1, 1) == m[key].1.yPlacement);
        assert(vr_field(m[key].1, 2) == m[key].1.xAdvance);
        assert(vr_field(m[key].1, 3) == m[key].1.yAdvance);
    }
}

/// What inserting the pairs of a set does, their second glyphs distinct.
proof fn lemma_insert_pairs(
    mz: Map<(u16, u16), (ValueRecord, ValueRecord)>,
    l: u16,
    rs: Seq<(u16, ValueRecord, ValueRecord)>,
)
    requires
        forall|i: int, j: int| 0 <= i < j < rs.len() ==> rs[i].0 != rs[j].0,
    ensures
        forall|k: (u16, u16)| #[trigger] insert_pairs(mz, l, rs).dom().contains(k) <==> (mz.dom().contains(k) || (
        k.0 == l && exists|i: int| 0 <= i < rs.len() && rs[i].0 == k.1)),
        forall|i: int| 0 <= i < rs.len() ==> insert_pairs(mz, l, rs)[(l, #[trigger] rs[i].0)] == (rs[i].1, rs[i].2),
        forall|k: (u16, u16)|
            mz.dom().contains(k) && !(k.0 == l && exists|i: int| 0 <= i < rs.len() && rs[i].0 == k.1)
                ==> #[trigger] insert_pairs(mz, l, rs)[k] == mz[k],
    decreases rs.len(),
{
    if rs.len() > 0 {
        let init = rs.drop_last();
        lemma_insert_pairs(mz, l, init);
        let im = insert_pairs(mz, l, init);
        let last = rs.last();
        assert(insert_pairs(mz, l, rs) == im.insert((l, last.0), (last.1, last.2)));
        assert forall|k: (u16, u16)| #[trigger] insert_pairs(mz, l, rs).dom().contains(k) <==> (mz.dom().contains(k) || (
        k.0 == l && exists|i: int| 0 <= i < rs.len() && rs[i].0 == k.1)) by {
            if k.0 == l && exists|i: int| 0 <= i < rs.len() && rs[i].0 == k.1 {
                let i = choose|i: int| 0 <= i < rs.len() && rs[i].0 == k.1;
                if i < rs.len() - 1 {
                    assert(init[i].0 == k.1);
                }
            }
            if k.0 == l && exists|i: int| 0 <= i < init.len() && init[i].0 == k.1 {
                let i = choose|i: int| 0 <= i < init.len() && init[i].0 == k.1;
                assert(rs[i].0 == k.1);
            }
        }
        assert forall|i: int| 0 <= i < rs.len() implies insert_pairs(mz, l, rs)[(l, #[trigger] rs[i].0)] == (rs[i].1, rs[i].2) by {
            if i < rs.len() - 1 {
                assert(init[i] == rs[i]);
                assert(rs[i].0 != last.0);
            }
        }
        assert forall|k: (u16, u16)|
            mz.dom().contains(k) && !(k.0 == l && exists|i: int| 0 <= i < rs.len() && rs[i].0 == k.1)
                implies #[trigger] insert_pairs(mz, l, rs)[k] == mz[k] by {
            if k.0 == l && exists|i: int| 0 <= i < init.len() && init[i].0 == k.1 {
                let i = choose|i: int| 0 <= i < init.len() && init[i].0 == k.1;
                assert(rs[i].0 == k.1);
            }
            assert(k != (l, last.0) || k.0 != l || rs[rs.len() - 1].0 != k.1);
        }
    }
}

/// The pair set of `l`, written at `off`, reads back as its records.
#[verifier::spinoff_prover]
proof fn lemma_set_read(s: Seq<u8>, off: int, m: Map<(u16, u16), (ValueRecord, ValueRecord)>, l: u16)
    requires
        window(s, off, pair_set_bytes(m, l)),
        pair_set_entries(m, l).len() <= 65535,
    ensures
        pair_set_decoding(s, off, pair_value_format(m, false), pair_value_format(m, true)) == Some(
            records_back(pair_set_entries(m, l)),
        ),
{
    let es = pair_set_entries(m, l);
    let f1 = pair_value_format(m, false);
    let f2 = pair_value_format(m, true);
    let rb = pair_records_bytes(es, f1, f2);
    lemma_set_entries(m, l);
    assert(pair_set_bytes(m, l) == be16(es.len() as u16) + rb);
    lemma_window_split(s, off, be16(es.len() as u16), rb);
    lemma_window_u16(s, off, be16(es.len() as u16), 0);
    lemma_read_be16(Seq::empty(), es.len() as u16, Seq::empty());
    assert(Seq::<u8>::empty() + be16(es.len() as u16) + Seq::<u8>::empty() =~= be16(es.len() as u16));
    lemma_records_read(s, off + 2, es, f1, f2, es.len());
    assert(es.take(es.len() as int) =~= es);
}

/// The pair set of the `k`-th glyph stands after those before it.
proof fn lemma_sets_piece(m: Map<(u16, u16), (ValueRecord, ValueRecord)>, ls: Seq<u16>, k: int)
    requires
        0 <= k < ls.len(),
    ensures
        window(pair_sets_bytes(m, ls), pair_sets_bytes(m, ls.take(k)).len() as int, pair_set_bytes(m, ls[k])),
    decreases ls.len(),
{
    let init = ls.drop_last();
    assert(pair_sets_bytes(m, ls) == pair_sets_bytes(m, init) + pair_set_bytes(m, ls.last()));
    if k == ls.len() - 1 {
        assert(init =~= ls.take(k));
        lemma_window_parts(pair_sets_bytes(m, init), pair_set_bytes(m, ls.last()), Seq::empty());
        assert(pair_sets_bytes(m, init) + pair_set_bytes(m, ls.last()) + Seq::<u8>::empty() =~= pair_sets_bytes(m, ls));
    } else {
        lemma_sets_piece(m, init, k);
        assert(init.take(k) =~= ls.take(k));
        lemma_window_extend(pair_sets_bytes(m, init), pair_set_bytes(m, ls.last()), pair_sets_bytes(m, ls.take(k)).len() as int, pair_set_bytes(m, ls[k]));
    }
}

/// Where the pieces of a written subtable lie.
#[verifier::spinoff_prover]
proof fn lemma_pair_pos_layout(m: Map<(u16, u16), (ValueRecord, ValueRecord)>)
    requires
        pair_pos_fits(m),
    ensures
        ({
            let s = pair_pos_encoding(m);
            let ls = pair_coverage(m);
            &&& s.len() >= 10 + 2 * ls.len()
            &&& u16_at(s, 0) == 1
            &&& u16_at(s, 2) == 10 + 2 * ls.len()
            &&& u16_at(s, 4) == pair_value_format(m, false)
            &&& u16_at(s, 6) == pair_value_format(m, true)
            &&& u16_at(s, 8) == ls.len()
            &&& forall|k: int| 0 <= k < ls.len() ==> #[trigger] u16_at(s, 10 + 2 * k) == pair_set_offsets(m)[k]
            &&& coverage_part(s) == coverage_encoding(ls) + pair_sets_bytes(m, ls)
            &&& window(s, pair_sets_start(m), pair_sets_bytes(m, ls))
        }),
{
    let ls = pair_coverage(m);
    let n = ls.len();
    let f1 = pair_value_format(m, false);
    let f2 = pair_value_format(m, true);
    let offs = pair_set_offsets(m);
    let c = coverage_encoding(ls);
    let b = pair_sets_bytes(m, ls);
    let e = Seq::<u8>::empty();
    let h = be16(1) + be16((10 + 2 * n) as u16) + be16(f1) + be16(f2) + be16(n as u16);
    let s = pair_pos_encoding(m);
    lemma_be16_seq_len(offs);
    assert(s == h + be16_seq(offs) + c + b);
    let rest = be16_seq(offs) + c + b;
    assert(s =~= e + be16(1) + (be16((10 + 2 * n) as u16) + be16(f1) + be16(f2) + be16(n as u16) + rest));
    lemma_read_be16(e, 1, be16((10 + 2 * n) as u16) + be16(f1) + be16(f2) + be16(n as u16) + rest);
    assert(s =~= be16(1) + be16((10 + 2 * n) as u16) + (be16(f1) + be16(f2) + be16(n as u16) + rest));
    lemma_read_be16(be16(1), (10 + 2 * n) as u16, be16(f1) + be16(f2) + be16(n as u16) + rest);
    assert(s =~= be16(1) + be16((10 + 2 * n) as u16) + be16(f1) + (be16(f2) + be16(n as u16) + rest));
    lemma_read_be16(be16(1) + be16((10 + 2 * n) as u16), f1, be16(f2) + be16(n as u16) + rest);
    assert(s =~= be16(1) + be16((10 + 2 * n) as u16) + be16(f1) + be16(f2) + (be16(n as u16) + rest));
    lemma_read_be16(be16(1) + be16((10 + 2 * n) as u16) + be16(f1), f2, be16(n as u16) + rest);
    assert(s =~= h + rest);
    lemma_read_be16(be16(1) + be16((10 + 2 * n) as u16) + be16(f1) + be16(f2), n as u16, rest);
    assert forall|k: int| 0 <= k < n implies #[trigger] u16_at(s, 10 + 2 * k) == offs[k] by {
        lemma_read_be16_seq(h, offs, c + b, k);
        assert(h + be16_seq(offs) + (c + b) == s);
    }
    assert(coverage_part(s) =~= c + b);
    lemma_window_parts(h + be16_seq(offs) + c, b, e);
    assert(s + e =~= s);
}

/// The pairs of `m` whose first glyph is among the first `j` of `g`, each
/// record with its zero adjustments dropped.
pub open spec fn pairs_back_prefix(
    m: Map<(u16, u16), (ValueRecord, ValueRecord)>,
    g: Seq<u16>,
    j: int,
) -> Map<(u16, u16), (ValueRecord, ValueRecord)> {
    Map::new(
        |k: (u16, u16)| m.dom().contains(k) && g.take(j).contains(k.0),
        |k: (u16, u16)| (simplified(m[k].0), simplified(m[k].1)),
    )
}

/// The pairs of `m`, each record with its zero adjustments dropped.
pub open spec fn pairs_back(m: Map<(u16, u16), (ValueRecord, ValueRecord)>) -> Map<(u16, u16), (ValueRecord, ValueRecord)> {
    Map::new(|k: (u16, u16)| m.dom().contains(k), |k: (u16, u16)| (simplified(m[k].0), simplified(m[k].1)))
}

/// Adding the pair set of the next covered glyph.
#[verifier::spinoff_prover]
proof fn lemma_prefix_step(m: Map<(u16, u16), (ValueRecord, ValueRecord)>, g: Seq<u16>, j: int)
    requires
        0 <= j < g.len(),
        forall|a: int, b: int| 0 <= a < b < g.len() ==> g[a] < g[b],
    ensures
        insert_pairs(pairs_back_prefix(m, g, j), g[j], records_back(pair_set_entries(m, g[j])))
            == pairs_back_prefix(m, g, j + 1),
{
    let l = g[j];
    let es = pair_set_entries(m, l);
    let rs = records_back(es);
    let q0 = pairs_back_prefix(m, g, j);
    let q1 = pairs_back_prefix(m, g, j + 1);
    lemma_set_entries(m, l);
    assert forall|a: int, b: int| 0 <= a < b < rs.len() implies rs[a].0 != rs[b].0 by {
        assert(es[a].0 < es[b].0);
    }
    lemma_insert_pairs(q0, l, rs);
    let im = insert_pairs(q0, l, rs);
    let t0 = g.take(j);
    let t1 = g.take(j + 1);
    assert forall|x: u16| #[trigger] t1.contains(x) <==> (t0.contains(x) || x == l) by {
        if t1.contains(x) {
            let i = choose|i: int| 0 <= i < t1.len() && t1[i] == x;
            if i < j {
                assert(t0[i] == x);
            }
        }
        if t0.contains(x) {
            let i = choose|i: int| 0 <= i < t0.len() && t0[i] == x;
            assert(t1[i] == x);
        }
        if x == l {
            assert(t1[j] == x);
        }
    }
    assert(!t0.contains(l)) by {
        if t0.contains(l) {
            let i = choose|i: int| 0 <= i < t0.len() && t0[i] == l;
            assert(g[i] < g[j]);
        }
    }
    assert forall|k: (u16, u16)| #[trigger] im.dom().contains(k) <==> q1.dom().contains(k) by {
        if k.0 == l && exists|i: int| 0 <= i < rs.len() && rs[i].0 == k.1 {
            let i = choose|i: int| 0 <= i < rs.len() && rs[i].0 == k.1;
            assert(es[i].0 == rs[i].0);
            assert(m.dom().contains((l, es[i].0)));
        }
        if q1.dom().contains(k) && k.0 == l {
            assert(m.dom().contains((l, k.1)));
            let i = choose|i: int| 0 <= i < es.len() && #[trigger] es[i].0 == k.1;
            assert(rs[i].0 == k.1);
        }
    }
    assert forall|k: (u16, u16)| #[trigger] im.dom().contains(k) implies im[k] == q1[k] by {
        if k.0 == l {
            assert(m.dom().contains((l, k.1)));
            let i = choose|i: int| 0 <= i < es.len() && #[trigger] es[i].0 == k.1;
            assert(rs[i].0 == k.1);
            assert(im[(l, rs[i].0)] == (rs[i].1, rs[i].2));
        } else {
            assert(!(k.0 == l && exists|i: int| 0 <= i < rs.len() && rs[i].0 == k.1));
        }
    }
    assert(im =~= q1);
}

/// The pairs of the first `k` covered glyphs read back.
#[verifier::spinoff_prover]
proof fn lemma_format1_pairs(m: Map<(u16, u16), (ValueRecord, ValueRecord)>, k: nat)
    requires
        pair_pos_fits(m),
        k <= pair_coverage(m).len(),
    ensures
        format1_pairs(
            pair_pos_encoding(m),
            pair_coverage(m),
            pair_value_format(m, false),
            pair_value_format(m, true),
            k,
        ) == Some(pairs_back_prefix(m, pair_coverage(m), k as int)),
    decreases k,
{
    let s = pair_pos_encoding(m);
    let ls = pair_coverage(m);
    let f1 = pair_value_format(m, false);
    let f2 = pair_value_format(m, true);
    if k == 0 {
        assert(pairs_back_prefix(m, ls, 0) =~= Map::empty());
    } else {
        let j = (k - 1) as int;
        lemma_format1_pairs(m, j as nat);
        lemma_pair_pos_layout(m);
        let a = pair_sets_bytes(m, ls.take(j)).len() as int;
        let off = pair_sets_start(m) + a;
        assert(off <= 65535);
        assert(u16_at(s, 10 + 2 * j) == pair_set_offsets(m)[j]);
        assert(u16_at(s, 10 + 2 * j) == off);
        lemma_sets_piece(m, ls, j);
        lemma_window_nest(s, pair_sets_start(m), pair_sets_bytes(m, ls), a, pair_set_bytes(m, ls[j]));
        assert(pair_set_entries(m, ls[j]).len() <= 65535);
        lemma_set_read(s, off, m, ls[j]);
        lemma_keys_below(left_glyphs(m), 65536);
        lemma_prefix_step(m, ls, j);
    }
}

/// All covered glyphs take in every pair.
proof fn lemma_prefix_all(m: Map<(u16, u16), (ValueRecord, ValueRecord)>)
    ensures
        pairs_back_prefix(m, pair_coverage(m), pair_coverage(m).len() as int) == pairs_back(m),
{
    let ls = pair_coverage(m);
    lemma_keys_below(left_glyphs(m), 65536);
    assert(ls.take(ls.len() as int) =~= ls);
    assert forall|k: (u16, u16)| m.dom().contains(k) implies #[trigger] ls.contains(k.0) by {
        assert(m.dom().contains((k.0, k.1)));
        assert(left_glyphs(m).contains(k.0));
    }
    assert(pairs_back_prefix(m, ls, ls.len() as int) =~= pairs_back(m));
}

/// The covered glyphs read back from the coverage table.
#[verifier::spinoff_prover]
proof fn lemma_pair_coverage_read(m: Map<(u16, u16), (ValueRecord, ValueRecord)>)
    requires
        pair_pos_fits(m),
        uses_format1(pair_coverage(m)) || !left_glyphs(m).contains(65535),
    ensures
        coverage_decoding(coverage_part(pair_pos_encoding(m))) == Some(pair_coverage(m)),
        !crate::coverage::coverage_range_overflows(coverage_part(pair_pos_encoding(m))),
{
    let ls = pair_coverage(m);
    lemma_pair_pos_layout(m);
    lemma_keys_below(left_glyphs(m), 65536);
    if !uses_format1(ls) {
        assert forall|i: int| 0 <= i < ls.len() implies ls[i] != 65535 by {
            assert(ls.contains(ls[i]));
        }
    }
    lemma_coverage_roundtrip(ls);
    lemma_coverage_decoding_prefix(coverage_encoding(ls), pair_sets_bytes(m, ls));
}

/// Writing a pair positioning subtable and reading it back gives its pairs,
/// each record with its zero adjustments dropped; for every mapping whose
/// offsets and counts fit in 16 bits and whose coverage table is written in
/// format 1 or does not cover glyph 65535 (a range record that ends there
/// cannot be read).
#[verifier::spinoff_prover]
pub proof fn lemma_pair_pos_roundtrip(m: Map<(u16, u16), (ValueRecord, ValueRecord)>)
    requires
        pair_pos_fits(m),
        uses_format1(pair_coverage(m)) || !left_glyphs(m).contains(65535),
    ensures
        !pair_pos_coverage_overflows(pair_pos_encoding(m)),
        pair_pos_decoding(pair_pos_encoding(m)) == Some(pairs_back(m)),
{
    let s = pair_pos_encoding(m);
    let ls = pair_coverage(m);
    let n = ls.len();
    lemma_pair_pos_layout(m);
    lemma_pair_coverage_read(m);
    lemma_format1_pairs(m, n);
    lemma_prefix_all(m);
    assert(s.len() >= 10);
    assert(u16_at(s, 2) != 0);
    assert(u16_at(s, 2) <= s.len());
    assert(10 + 2 * u16_at(s, 8) <= s.len());
    assert(coverage_decoding(coverage_part(s)) == Some(ls));
    assert(u16_at(s, 8) == n);
    assert(format1_decoding(s) == format1_pairs(
        s,
        ls,
        pair_value_format(m, false),
        pair_value_format(m, true),
        n,
    ));
}

} // verus!
