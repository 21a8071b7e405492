//! Single substitution (one glyph replaced by another), in the binary form of
//! its two subtable formats: format 1 shifts every covered glyph by one delta,
//! format 2 lists a replacement for each covered glyph.
use crate::binary::{
    be16, be16_seq, bei16, i16_at, i16_bits, i16_from_bits, i16_of_bits, i16_to_bits,
    lemma_be16_seq_len, push_bytes, push_i16, push_u16, push_u16_slice, read_i16, read_u16,
    read_u16_vec, u16_at, DeserializationError, SerializationError,
};
use crate::coverage::{coverage_decoding, coverage_encoding, coverage_range_overflows, Coverage};
use crate::layout::gsub2::coverage_part;
use crate::layout::ordered::{entries_in_order, lemma_map_key_order, sorted_keys, u16_keys_ordered};
use std::collections::BTreeMap;
use vstd::prelude::*;

verus! {

/// A single substitution subtable.
#[derive(Debug, PartialEq, Clone, Default)]
pub struct SingleSubst {
    /// The mapping of input glyph IDs to replacement glyph IDs.
    pub mapping: BTreeMap<u16, u16>,
}

impl View for SingleSubst {
    type V = Map<u16, u16>;

    open spec fn view(&self) -> Map<u16, u16> {
        self.mapping@
    }
}

/// `x` wrapped into the range of `i16`, for `x` within one wrap of it.
pub open spec fn wrap_i16(x: int) -> i16 {
    if x > 32767 {
        (x - 65536) as i16
    } else if x < -32768 {
        (x + 65536) as i16
    } else {
        x as i16
    }
}

/// The delta that takes glyph `l` to glyph `r`, both read as `int16`, with wrapping.
pub open spec fn glyph_delta(l: u16, r: u16) -> i16 {
    wrap_i16(i16_of_bits(r) - i16_of_bits(l))
}

/// Whether adding `d` to glyph `l` (as `int16`, with wrapping) gives glyph `r`.
pub open spec fn shifts_to(l: u16, d: i16, r: u16) -> bool {
    wrap_i16(i16_of_bits(l) + d) == i16_of_bits(r)
}

/// The format the subtable is written in, and the delta of the first pair:
/// format 1 where every covered glyph is shifted by that delta, format 2
/// otherwise and for an empty mapping (delta 0).
pub open spec fn single_subst_format(m: Map<u16, u16>) -> (u16, i16) {
    let ks = sorted_keys(m.dom());
    if ks.len() == 0 {
        (2, 0)
    } else {
        let d = glyph_delta(ks[0], m[ks[0]]);
        if forall|i: int| 0 <= i < ks.len() ==> #[trigger] shifts_to(ks[i], d, m[ks[i]]) {
            (1, d)
        } else {
            (2, d)
        }
    }
}

/// Whether the counts and offsets of the subtable fit in 16 bits.
pub open spec fn single_subst_fits(m: Map<u16, u16>) -> bool {
    let n = sorted_keys(m.dom()).len();
    &&& n <= 65535
    &&& single_subst_format(m).0 == 2 ==> 6 + 2 * n <= 65535
}

/// The bytes of the subtable: format 1 (format, coverage offset, delta) or
/// format 2 (format, coverage offset, count, replacements in the order of the
/// covered glyphs), then the coverage table.
pub open spec fn single_subst_encoding(m: Map<u16, u16>) -> Seq<u8> {
    let ks = sorted_keys(m.dom());
    let (fmt, d) = single_subst_format(m);
    if fmt == 1 {
        be16(1) + be16(6) + bei16(d) + coverage_encoding(ks)
    } else {
        be16(2) + be16((6 + 2 * ks.len()) as u16) + be16(ks.len() as u16) + be16_seq(
            ks.map_values(|k: u16| m[k]),
        ) + coverage_encoding(ks)
    }
}

/// The covered glyphs: none for a null coverage offset.
pub open spec fn single_subst_glyphs(s: Seq<u8>) -> Option<Seq<u16>> {
    if u16_at(s, 2) == 0 {
        Some(Seq::empty())
    } else if u16_at(s, 2) > s.len() {
        None
    } else {
        coverage_decoding(coverage_part(s))
    }
}

/// The map that inserting the first `n` pairs of `g` and `r` in order gives.
pub open spec fn pairs_map(g: Seq<u16>, r: Seq<u16>, n: nat) -> Map<u16, u16>
    decreases n,
{
    if n == 0 {
        Map::empty()
    } else {
        let k = (n - 1) as nat;
        pairs_map(g, r, k).insert(g[k as int], r[k as int])
    }
}

/// Each glyph of `g` shifted by `d` (as `int16`, without wrapping).
pub open spec fn shifted(g: Seq<u16>, d: i16) -> Seq<u16> {
    g.map_values(|x: u16| i16_bits((i16_of_bits(x) + d) as i16))
}

/// A format 1 subtable that shifts a covered glyph out of the range of `int16`.
pub open spec fn single_subst_shift_overflows(s: Seq<u8>) -> bool {
    &&& s.len() >= 6
    &&& u16_at(s, 0) == 1
    &&& single_subst_glyphs(s) matches Some(g) && exists|i: int|
        0 <= i < g.len() && !(-32768 <= #[trigger] i16_of_bits(g[i]) + i16_at(s, 4) <= 32767)
}

/// A coverage table whose range records run past glyph 65535 (see `Coverage::from_bytes`).
pub open spec fn single_subst_coverage_overflows(s: Seq<u8>) -> bool {
    &&& s.len() >= 4
    &&& u16_at(s, 2) != 0
    &&& u16_at(s, 2) <= s.len()
    &&& coverage_range_overflows(coverage_part(s))
}

/// The mapping that the subtable in `s` holds: format 1 maps each covered
/// glyph to itself plus the delta, format 2 to the replacement at the same
/// position (as far as both lists go). `None` where the data is cut short or
/// the format is neither.
pub open spec fn single_subst_decoding(s: Seq<u8>) -> Option<Map<u16, u16>> {
    if s.len() < 6 {
        None
    } else {
        match single_subst_glyphs(s) {
            None => None,
            Some(g) => if u16_at(s, 0) == 1 {
                Some(pairs_map(g, shifted(g, i16_at(s, 4)), g.len()))
            } else if u16_at(s, 0) == 2 {
                let n = u16_at(s, 4);
                if 6 + 2 * n > s.len() {
                    None
                } else {
                    let r = Seq::new(n as nat, |k: int| u16_at(s, 6 + 2 * k));
                    Some(pairs_map(g, r, if g.len() < n { g.len() } else { n as nat }))
                }
            } else {
                None
            },
        }
    }
}

proof fn lemma_first_pair_shifts(l: u16, r: u16)
    ensures
        shifts_to(l, glyph_delta(l, r), r),
{
}

impl SingleSubst {
    /// Chooses the format to write: format 1 where one delta takes every
    /// covered glyph to its replacement, format 2 otherwise.
    pub fn best_format(&self) -> (r: (u16, i16))
        ensures
            r == single_subst_format(self@),
    {
        let (keys, values) = entries_in_order(&self.mapping);
        let ghost m = self@;
        let ghost ks = sorted_keys(m.dom());
        assert(keys@ == ks);
        if keys.len() == 0 {
            return (2, 0);
        }
        let delta = i16_from_bits(*values[0]).wrapping_sub(i16_from_bits(keys[0]));
        proof {
            crate::layout::ordered::lemma_keys_below(m.dom(), 65536);
            assert(ks.contains(ks[0]));
            lemma_first_pair_shifts(ks[0], m[ks[0]]);
        }
        let mut i: usize = 1;
        while i < keys.len()
            invariant
                1 <= i <= keys@.len(),
                m == self@,
                keys@ == ks,
                ks == sorted_keys(m.dom()),
                values@.len() == keys@.len(),
                forall|j: int| 0 <= j < keys@.len() ==> *values@[j] == m[keys@[j]],
                delta == glyph_delta(ks[0], m[ks[0]]),
                forall|j: int| 0 <= j < i ==> #[trigger] shifts_to(ks[j], delta, m[ks[j]]),
            decreases keys.len() - i,
        {
            if i16_from_bits(keys[i]).wrapping_add(delta) != i16_from_bits(*values[i]) {
                assert(!shifts_to(ks[i as int], delta, m[ks[i as int]]));
                return (2, delta);
            }
            i = i + 1;
        }
        (1, delta)
    }

    /// Writes the subtable in the format `best_format` chooses, then its
    /// coverage table; fails where a count or offset would not fit in 16 bits.
    pub fn to_bytes(&self) -> (r: Result<Vec<u8>, SerializationError>)
        ensures
            match r {
                Ok(b) => single_subst_fits(self@) && b@ == single_subst_encoding(self@),
                Err(e) => !single_subst_fits(self@) && e == SerializationError::OffsetOverflow,
            },
    {
        let (format, delta) = self.best_format();
        let (keys, values) = entries_in_order(&self.mapping);
        let ghost m = self@;
        let ghost ks = sorted_keys(m.dom());
        let n = keys.len();
        if n > 65535 || (format == 2 && n > 32764) {
            return Err(SerializationError::OffsetOverflow);
        }
        proof {
            crate::layout::ordered::lemma_keys_below(m.dom(), 65536);
        }
        let mut replacements: Vec<u16> = Vec::new();
        let mut i: usize = 0;
        while i < n
            invariant
                i <= n,
                n == keys@.len(),
                keys@ == ks,
                values@.len() == n,
                forall|j: int| 0 <= j < n ==> *values@[j] == m[keys@[j]],
                replacements@ == ks.map_values(|k: u16| m[k]).take(i as int),
            decreases n - i,
        {
            replacements.push(*values[i]);
            assert(ks.map_values(|k: u16| m[k]).take(i + 1) == ks.map_values(|k: u16| m[k]).take(
                i as int,
            ).push(m[ks[i as int]]));
            i = i + 1;
        }
        assert(replacements@ == ks.map_values(|k: u16| m[k]));
        let coverage = Coverage { glyphs: keys };
        assert(crate::coverage::no_inner_max_glyph(coverage.glyphs@)) by {
            assert forall|j: int| 0 <= j < ks.len() - 1 implies ks[j] != 65535 by {
                assert(ks[j] < ks[j + 1]);
            }
        }
        let cov = coverage.to_bytes();
        let mut out: Vec<u8> = Vec::new();
        if format == 1 {
            push_u16(&mut out, 1);
            push_u16(&mut out, 6);
            push_i16(&mut out, delta);
        } else {
            push_u16(&mut out, 2);
            push_u16(&mut out, (6 + 2 * n) as u16);
            push_u16(&mut out, n as u16);
            push_u16_slice(&mut out, replacements.as_slice());
        }
        push_bytes(&mut out, cov.as_slice());
        Ok(out)
    }

    /// Reads a subtable in format 1 or 2.
    pub fn from_bytes(data: &[u8]) -> (r: Result<SingleSubst, DeserializationError>)
        requires
            !single_subst_coverage_overflows(data@),
            !single_subst_shift_overflows(data@),
        ensures
            match r {
                Ok(t) => single_subst_decoding(data@) == Some(t@),
                Err(_) => single_subst_decoding(data@) is None,
            },
    {
        proof {
            lemma_map_key_order();
        }
        if data.len() < 6 {
            return Err(DeserializationError::UnexpectedEof);
        }
        let format = read_u16(data, 0).unwrap();
        let cov_off = read_u16(data, 2).unwrap();
        let glyphs: Vec<u16> = if cov_off == 0 {
            Vec::new()
        } else if cov_off as usize > data.len() {
            return Err(DeserializationError::UnexpectedEof);
        } else {
            match Coverage::from_bytes(vstd::slice::slice_subrange(data, cov_off as usize, data.len())) {
                Ok(c) => c.glyphs,
                Err(e) => return Err(e),
            }
        };
        assert(single_subst_glyphs(data@) == Some(glyphs@));
        let mut mapping: BTreeMap<u16, u16> = BTreeMap::new();
        if format == 1 {
            let delta = read_i16(data, 4).unwrap();
            let ghost r = shifted(glyphs@, delta);
            let mut i: usize = 0;
            while i < glyphs.len()
                invariant
                    i <= glyphs@.len(),
                    r == shifted(glyphs@, delta),
                    forall|j: int|
                        0 <= j < glyphs@.len() ==> -32768 <= #[trigger] i16_of_bits(glyphs@[j]) + delta
                            <= 32767,
                    mapping@ == pairs_map(glyphs@, r, i as nat),
                    u16_keys_ordered(),
                decreases glyphs.len() - i,
            {
                let g = glyphs[i];
                let sum: i16 = i16_from_bits(g) + delta;
                mapping.insert(g, i16_to_bits(sum));
                i = i + 1;
            }
            Ok(SingleSubst { mapping })
        } else if format == 2 {
            let n = read_u16(data, 4).unwrap();
            let replacements = match read_u16_vec(data, 6, n as usize) {
                Some(v) => v,
                None => return Err(DeserializationError::UnexpectedEof),
            };
            assert(replacements@ == Seq::new(n as nat, |k: int| u16_at(data@, 6 + 2 * k)));
            let mut i: usize = 0;
            while i < glyphs.len() && i < replacements.len()
                invariant
                    i <= glyphs@.len(),
                    i <= replacements@.len(),
                    mapping@ == pairs_map(glyphs@, replacements@, i as nat),
                    u16_keys_ordered(),
                decreases glyphs.len() - i,
            {
                mapping.insert(glyphs[i], replacements[i]);
                i = i + 1;
            }
            Ok(SingleSubst { mapping })
        } else {
            Err(DeserializationError::BadFormat)
        }
    }
}

/// Inserting distinct glyphs in order: each maps to its own replacement.
proof fn lemma_pairs_map_distinct(ks: Seq<u16>, r: Seq<u16>, j: nat)
    requires
        crate::layout::ordered::strictly_increasing(ks),
        j <= ks.len(),
        j <= r.len(),
    ensures
        forall|x: u16|
            #[trigger] pairs_map(ks, r, j).dom().contains(x) <==> exists|i: int| 0 <= i < j && ks[i] == x,
        forall|i: int| 0 <= i < j ==> #[trigger] pairs_map(ks, r, j)[ks[i]] == r[i],
    decreases j,
{
    if j > 0 {
        let k = (j - 1) as nat;
        lemma_pairs_map_distinct(ks, r, k);
        let pm = pairs_map(ks, r, j);
        assert forall|x: u16| #[trigger] pm.dom().contains(x) <==> exists|i: int| 0 <= i < j && ks[i] == x by {
            if pm.dom().contains(x) && x != ks[k as int] {
                assert(pairs_map(ks, r, k).dom().contains(x));
            }
            if exists|i: int| 0 <= i < j && ks[i] == x {
                let i = choose|i: int| 0 <= i < j && ks[i] == x;
                if i < k {
                    assert(pairs_map(ks, r, k).dom().contains(ks[i]));
                }
            }
        }
        assert forall|i: int| 0 <= i < j implies #[trigger] pm[ks[i]] == r[i] by {
            if i < k {
                assert(ks[i] < ks[k as int]);
                assert(pairs_map(ks, r, k)[ks[i]] == r[i]);
            }
        }
    }
}

/// Inserting the covered glyphs with their replacements gives the mapping back.
proof fn lemma_pairs_map_is(m: Map<u16, u16>, r: Seq<u16>)
    requires
        r.len() == sorted_keys(m.dom()).len(),
        forall|i: int| 0 <= i < r.len() ==> #[trigger] r[i] == m[sorted_keys(m.dom())[i]],
    ensures
        pairs_map(sorted_keys(m.dom()), r, r.len()) == m,
{
    let ks = sorted_keys(m.dom());
    let n = ks.len();
    crate::layout::ordered::lemma_keys_below(m.dom(), 65536);
    lemma_pairs_map_distinct(ks, r, n);
    let pm = pairs_map(ks, r, n);
    assert forall|x: u16| #[trigger] pm.dom().contains(x) <==> m.dom().contains(x) by {
        if m.dom().contains(x) {
            assert(ks.contains(x));
            let i = choose|i: int| 0 <= i < ks.len() && ks[i] == x;
            assert(pm.dom().contains(ks[i]));
        }
        if pm.dom().contains(x) {
            let i = choose|i: int| 0 <= i < n && ks[i] == x;
            assert(ks.contains(ks[i]));
        }
    }
    assert forall|x: u16| #[trigger] pm.dom().contains(x) implies pm[x] == m[x] by {
        let i = choose|i: int| 0 <= i < n && ks[i] == x;
        assert(pm[ks[i]] == r[i]);
    }
    assert(pm =~= m);
}

/// Where a format 1 subtable's header and coverage table lie.
#[verifier::spinoff_prover]
proof fn lemma_format1_layout(m: Map<u16, u16>)
    requires
        single_subst_format(m).0 == 1,
    ensures
        ({
            let s = single_subst_encoding(m);
            &&& s.len() >= 6
            &&& u16_at(s, 0) == 1
            &&& u16_at(s, 2) == 6
            &&& i16_at(s, 4) == single_subst_format(m).1
            &&& coverage_part(s) == coverage_encoding(sorted_keys(m.dom()))
        }),
{
    let ks = sorted_keys(m.dom());
    let d = single_subst_format(m).1;
    let c = coverage_encoding(ks);
    let s = single_subst_encoding(m);
    let e = Seq::<u8>::empty();
    let h = be16(1) + be16(6) + bei16(d);
    assert(s == h + c);
    crate::binary::lemma_read_be16(e, 1, be16(6) + bei16(d) + c);
    assert(e + be16(1) + (be16(6) + bei16(d) + c) == s);
    crate::binary::lemma_read_be16(be16(1), 6, bei16(d) + c);
    assert(be16(1) + be16(6) + (bei16(d) + c) == s);
    crate::binary::lemma_read_bei16(be16(1) + be16(6), d, c);
    assert(coverage_part(s) =~= c);
}

#[verifier::spinoff_prover]
proof fn lemma_roundtrip_format1(m: Map<u16, u16>)
    requires
        single_subst_fits(m),
        single_subst_format(m).0 == 1,
        forall|i: int| 0 <= i < sorted_keys(m.dom()).len() ==> sorted_keys(m.dom())[i] != 65535,
        forall|k: u16|
            #[trigger] m.dom().contains(k) ==> -32768 <= i16_of_bits(k) + single_subst_format(m).1 <= 32767,
    ensures
        !single_subst_coverage_overflows(single_subst_encoding(m)),
        !single_subst_shift_overflows(single_subst_encoding(m)),
        single_subst_decoding(single_subst_encoding(m)) == Some(m),
{
    let ks = sorted_keys(m.dom());
    let d = single_subst_format(m).1;
    let s = single_subst_encoding(m);
    crate::layout::ordered::lemma_keys_below(m.dom(), 65536);
    crate::coverage::lemma_coverage_roundtrip(ks);
    lemma_format1_layout(m);
    assert(single_subst_glyphs(s) == Some(ks));
    let r = shifted(ks, d);
    assert forall|i: int| 0 <= i < r.len() implies #[trigger] r[i] == m[ks[i]] by {
        assert(ks.contains(ks[i]));
        assert(shifts_to(ks[i], d, m[ks[i]]));
        assert(-32768 <= i16_of_bits(ks[i]) + d <= 32767);
    }
    lemma_pairs_map_is(m, r);
    assert forall|i: int| 0 <= i < ks.len() implies -32768 <= #[trigger] i16_of_bits(ks[i]) + i16_at(s, 4)
        <= 32767 by {
        assert(ks.contains(ks[i]));
    }
}

#[verifier::spinoff_prover]
proof fn lemma_roundtrip_format2(m: Map<u16, u16>)
    requires
        single_subst_fits(m),
        single_subst_format(m).0 == 2,
        forall|i: int| 0 <= i < sorted_keys(m.dom()).len() ==> sorted_keys(m.dom())[i] != 65535,
    ensures
        !single_subst_coverage_overflows(single_subst_encoding(m)),
        !single_subst_shift_overflows(single_subst_encoding(m)),
        single_subst_decoding(single_subst_encoding(m)) == Some(m),
{
    let ks = sorted_keys(m.dom());
    let n = ks.len();
    let c = coverage_encoding(ks);
    let s = single_subst_encoding(m);
    let e = Seq::<u8>::empty();
    crate::layout::ordered::lemma_keys_below(m.dom(), 65536);
    crate::coverage::lemma_coverage_roundtrip(ks);
    let vs = ks.map_values(|k: u16| m[k]);
    lemma_be16_seq_len(vs);
    let h = be16(2) + be16((6 + 2 * n) as u16) + be16(n as u16);
    assert(s == h + be16_seq(vs) + c);
    crate::binary::lemma_read_be16(e, 2, be16((6 + 2 * n) as u16) + be16(n as u16) + be16_seq(vs) + c);
    assert(e + be16(2) + (be16((6 + 2 * n) as u16) + be16(n as u16) + be16_seq(vs) + c) == s);
    crate::binary::lemma_read_be16(be16(2), (6 + 2 * n) as u16, be16(n as u16) + be16_seq(vs) + c);
    assert(be16(2) + be16((6 + 2 * n) as u16) + (be16(n as u16) + be16_seq(vs) + c) == s);
    crate::binary::lemma_read_be16(be16(2) + be16((6 + 2 * n) as u16), n as u16, be16_seq(vs) + c);
    assert(be16(2) + be16((6 + 2 * n) as u16) + be16(n as u16) + (be16_seq(vs) + c) == s);
    assert forall|k: int| 0 <= k < n implies #[trigger] u16_at(s, 6 + 2 * k) == vs[k] by {
        crate::binary::lemma_read_be16_seq(h, vs, c, k);
    }
    assert(coverage_part(s) =~= c);
    assert(single_subst_glyphs(s) == Some(ks));
    let r = Seq::new(n as nat, |k: int| u16_at(s, 6 + 2 * k));
    assert(r =~= vs);
    lemma_pairs_map_is(m, vs);
}

/// Reading back a written single substitution gives the same mapping, for
/// every mapping that fits, does not substitute glyph 65535 and, where it is
/// written in format 1, shifts no glyph out of the range of `int16`.
pub proof fn lemma_single_subst_roundtrip(m: Map<u16, u16>)
    requires
        single_subst_fits(m),
        !m.dom().contains(65535),
        single_subst_format(m).0 == 1 ==> forall|k: u16|
            #[trigger] m.dom().contains(k) ==> -32768 <= i16_of_bits(k) + single_subst_format(m).1 <= 32767,
    ensures
        !single_subst_coverage_overflows(single_subst_encoding(m)),
        !single_subst_shift_overflows(single_subst_encoding(m)),
        single_subst_decoding(single_subst_encoding(m)) == Some(m),
{
    let ks = sorted_keys(m.dom());
    crate::layout::ordered::lemma_keys_below(m.dom(), 65536);
    assert forall|i: int| 0 <= i < ks.len() implies ks[i] != 65535 by {
        assert(ks.contains(ks[i]));
    }
    if single_subst_format(m).0 == 1 {
        lemma_roundtrip_format1(m);
    } else {
        lemma_roundtrip_format2(m);
    }
}

} // verus!
