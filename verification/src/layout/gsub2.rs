//! Multiple substitution (one glyph replaced by a sequence of glyphs), in the
//! binary form of its format 1 subtable: a format word, an offset to the
//! coverage table, and one offset per covered glyph to a sequence table.
use crate::binary::{
    be16, be16_seq, lemma_be16_seq_len, push_bytes, push_u16, push_u16_slice, read_u16, read_u16_vec,
    u16_at, DeserializationError, SerializationError,
};
use crate::coverage::{coverage_decoding, coverage_encoding, coverage_range_overflows, Coverage};
use crate::layout::ordered::{
    entries_in_order, lemma_map_key_order, sorted_keys, strictly_increasing, u16_keys_ordered,
};
use std::collections::BTreeMap;
use vstd::prelude::*;

verus! {

/// A multiple substitution (one-to-many) subtable.
#[derive(Debug, PartialEq, Clone, Default)]
pub struct MultipleSubst {
    /// The mapping of input glyph IDs to sequence of replacement glyph IDs.
    pub mapping: BTreeMap<u16, Vec<u16>>,
}

/// The mapping with each replacement taken as a sequence.
pub open spec fn mapping_view(m: Map<u16, Vec<u16>>) -> Map<u16, Seq<u16>> {
    m.map_values(|v: Vec<u16>| v@)
}

impl View for MultipleSubst {
    type V = Map<u16, Seq<u16>>;

    open spec fn view(&self) -> Map<u16, Seq<u16>> {
        mapping_view(self.mapping@)
    }
}

/// A sequence table: the glyph count, then the glyphs.
pub open spec fn sequence_bytes(v: Seq<u16>) -> Seq<u8> {
    be16(v.len() as u16) + be16_seq(v)
}

/// The sequence tables of `vs`, one after another.
pub open spec fn sequences_bytes(vs: Seq<Seq<u16>>) -> Seq<u8>
    decreases vs.len(),
{
    if vs.len() == 0 {
        Seq::empty()
    } else {
        sequences_bytes(vs.drop_last()) + sequence_bytes(vs.last())
    }
}

/// Where each sequence table starts, when the first starts at `start`.
pub open spec fn sequence_offsets(start: int, vs: Seq<Seq<u16>>) -> Seq<u16> {
    Seq::new(vs.len(), |i: int| (start + sequences_bytes(vs.take(i)).len()) as u16)
}

/// The replacements in the order of the covered glyphs.
pub open spec fn replacements_in_order(m: Map<u16, Seq<u16>>) -> Seq<Seq<u16>> {
    sorted_keys(m.dom()).map_values(|k: u16| m[k])
}

/// Where the coverage table starts: after the format word, the coverage
/// offset, the count and one offset per covered glyph.
pub open spec fn coverage_start(m: Map<u16, Seq<u16>>) -> int {
    (6 + 2 * sorted_keys(m.dom()).len()) as int
}

/// Where the first sequence table starts: after the coverage table.
pub open spec fn sequences_start(m: Map<u16, Seq<u16>>) -> int {
    coverage_start(m) + coverage_encoding(sorted_keys(m.dom())).len()
}

/// Whether every offset and count of the subtable fits in 16 bits.
pub open spec fn multiple_subst_fits(m: Map<u16, Seq<u16>>) -> bool {
    let vs = replacements_in_order(m);
    &&& coverage_start(m) <= 65535
    &&& forall|i: int| 0 <= i < vs.len() ==> #[trigger] vs[i].len() <= 65535
    &&& forall|i: int|
        0 <= i < vs.len() ==> sequences_start(m) + #[trigger] sequences_bytes(vs.take(i)).len() <= 65535
}

/// The bytes of the format 1 subtable: format, coverage offset, count,
/// sequence offsets, then the coverage table and the sequence tables in the
/// order of the covered glyphs, which is increasing.
pub open spec fn multiple_subst_encoding(m: Map<u16, Seq<u16>>) -> Seq<u8> {
    let ks = sorted_keys(m.dom());
    let vs = replacements_in_order(m);
    be16(1) + be16(coverage_start(m) as u16) + be16(ks.len() as u16) + be16_seq(
        sequence_offsets(sequences_start(m), vs),
    ) + coverage_encoding(ks) + sequences_bytes(vs)
}

/// The sequence table at `p`, or `None` where it runs past the end.
pub open spec fn sequence_decoding(s: Seq<u8>, p: int) -> Option<Seq<u16>> {
    if 0 <= p && p + 2 <= s.len() && p + 2 + 2 * u16_at(s, p) <= s.len() {
        Some(Seq::new(u16_at(s, p) as nat, |k: int| u16_at(s, p + 2 + 2 * k)))
    } else {
        None
    }
}

/// The first `n` sequence tables that the offsets after the header point at;
/// `None` where an offset is null or a table runs past the end.
pub open spec fn sequences_decoding(s: Seq<u8>, n: nat) -> Option<Seq<Seq<u16>>>
    decreases n,
{
    if n == 0 {
        Some(Seq::empty())
    } else {
        let k = (n - 1) as nat;
        let off = u16_at(s, 6 + 2 * k as int);
        match sequences_decoding(s, k) {
            None => None,
            Some(vs) => if off == 0 {
                None
            } else {
                match sequence_decoding(s, off as int) {
                    None => None,
                    Some(v) => Some(vs.push(v)),
                }
            },
        }
    }
}

/// The map that inserting the first `n` pairs of `g` and `vs` in order gives:
/// a later pair for the same glyph replaces an earlier one.
pub open spec fn zip_map(g: Seq<u16>, vs: Seq<Seq<u16>>, n: nat) -> Map<u16, Seq<u16>>
    decreases n,
{
    if n == 0 {
        Map::empty()
    } else {
        let k = (n - 1) as nat;
        zip_map(g, vs, k).insert(g[k as int], vs[k as int])
    }
}

/// The coverage table that the header of `s` points at, from its offset to the end.
pub open spec fn coverage_part(s: Seq<u8>) -> Seq<u8> {
    s.subrange(u16_at(s, 2) as int, s.len() as int)
}

/// A coverage table whose range records run past glyph 65535 (see `Coverage::from_bytes`).
pub open spec fn multiple_subst_overflows(s: Seq<u8>) -> bool {
    &&& s.len() >= 6
    &&& u16_at(s, 2) <= s.len()
    &&& coverage_range_overflows(coverage_part(s))
}

/// The mapping that the subtable in `s` holds: each covered glyph with the
/// sequence table at the same position, as far as both lists go. `None`
/// where the header, the coverage table or a sequence table is cut short,
/// or an offset is null.
pub open spec fn multiple_subst_decoding(s: Seq<u8>) -> Option<Map<u16, Seq<u16>>> {
    if s.len() < 6 {
        None
    } else {
        let cov = u16_at(s, 2);
        let n = u16_at(s, 4);
        if cov == 0 || cov > s.len() || 6 + 2 * n > s.len() {
            None
        } else {
            match coverage_decoding(coverage_part(s)) {
                None => None,
                Some(g) => match sequences_decoding(s, n as nat) {
                    None => None,
                    Some(vs) => Some(
                        zip_map(g, vs, if g.len() < vs.len() { g.len() } else { vs.len() }),
                    ),
                },
            }
        }
    }
}

pub(crate) fn read_sequence(data: &[u8], pos: usize) -> (r: Option<Vec<u16>>)
    ensures
        match r {
            Some(v) => sequence_decoding(data@, pos as int) == Some(v@),
            None => sequence_decoding(data@, pos as int) is None,
        },
{
    let count = match read_u16(data, pos) {
        Some(c) => c,
        None => return None,
    };
    assert(pos + 2 <= data.len());
    match read_u16_vec(data, pos + 2, count as usize) {
        Some(v) => {
            assert(v@ == Seq::new(count as nat, |k: int| u16_at(data@, pos + 2 + 2 * k)));
            Some(v)
        },
        None => None,
    }
}

proof fn lemma_sequences_decoding_fail(s: Seq<u8>, k: nat, n: nat)
    requires
        k <= n,
        sequences_decoding(s, k) is None,
    ensures
        sequences_decoding(s, n) is None,
    decreases n - k,
{
    if k < n {
        lemma_sequences_decoding_fail(s, k + 1, n);
    }
}

/// Writes a subtable that maps each covered glyph to a glyph sequence through
/// a table of offsets: the layout of multiple and of alternate substitution.
pub(crate) fn sequence_subtable_to_bytes(mapping: &BTreeMap<u16, Vec<u16>>) -> (r: Result<
    Vec<u8>,
    SerializationError,
>)
    ensures
        match r {
            Ok(b) => multiple_subst_fits(mapping_view(mapping@)) && b@ == multiple_subst_encoding(
                mapping_view(mapping@),
            ),
            Err(e) => !multiple_subst_fits(mapping_view(mapping@)) && e
                == SerializationError::OffsetOverflow,
        },
{
    let ghost m = mapping_view(mapping@);
    let (keys, values) = entries_in_order(mapping);
    let ghost ks = sorted_keys(m.dom());
    let ghost vs = replacements_in_order(m);
    assert(mapping@.dom() =~= m.dom());
    assert(keys@ == ks);
    proof {
        crate::layout::ordered::lemma_keys_below(m.dom(), 65536);
        assert forall|j: int| 0 <= j < ks.len() implies (*#[trigger] values@[j])@ == vs[j] by {
            assert(ks.contains(ks[j]));
        }
    }
    let n = keys.len();
    if n > 32764 {
        return Err(SerializationError::OffsetOverflow);
    }
    let coverage = Coverage { glyphs: keys };
    assert(crate::coverage::no_inner_max_glyph(coverage.glyphs@)) by {
        assert forall|i: int| 0 <= i < ks.len() - 1 implies ks[i] != 65535 by {
            assert(ks[i] < ks[i + 1]);
        }
    }
    let cov = coverage.to_bytes();
    if n > 0 && cov.len() > 65535 {
        proof {
            assert(vs.take(0) == Seq::<Seq<u16>>::empty());
            assert(sequences_bytes(vs.take(0)).len() == 0);
        }
        return Err(SerializationError::OffsetOverflow);
    }
    if n == 0 {
        assert(cov@.len() == 4);
    }
    let start: usize = 6 + 2 * n + cov.len();
    let mut offsets: Vec<u16> = Vec::new();
    let mut blocks: Vec<u8> = Vec::new();
    let mut off: usize = start;
    let mut i: usize = 0;
    while i < n
        invariant
            i <= n,
            m == mapping_view(mapping@),
            vs == replacements_in_order(m),
            n == ks.len(),
            n <= 32764,
            values@.len() == n,
            forall|j: int| 0 <= j < n ==> (*#[trigger] values@[j])@ == vs[j],
            vs.len() == n,
            start == sequences_start(m),
            start <= 6 + 2 * 32764 + 65535,
            blocks@ == sequences_bytes(vs.take(i as int)),
            off == start + blocks@.len(),
            off <= 65535 + 2 * 65536 + start,
            offsets@ == sequence_offsets(start as int, vs).take(i as int),
            forall|j: int| 0 <= j < i ==> #[trigger] vs[j].len() <= 65535,
            forall|j: int| 0 <= j < i ==> start + #[trigger] sequences_bytes(vs.take(j)).len() <= 65535,
        decreases n - i,
    {
        let v: &Vec<u16> = values[i];
        if v.len() > 65535 || off > 65535 {
            proof {
                assert(v@ == vs[i as int]);
                assert(sequences_bytes(vs.take(i as int)).len() == blocks@.len());
            }
            return Err(SerializationError::OffsetOverflow);
        }
        offsets.push(off as u16);
        let ghost before = blocks@;
        push_u16(&mut blocks, v.len() as u16);
        push_u16_slice(&mut blocks, v.as_slice());
        proof {
            assert(vs.take(i + 1).drop_last() == vs.take(i as int));
            assert(vs.take(i + 1).last() == vs[i as int]);
            lemma_be16_seq_len(vs[i as int]);
            assert(offsets@ == sequence_offsets(start as int, vs).take(i + 1));
        }
        off = off + 2 + 2 * v.len();
        i = i + 1;
    }
    proof {
        assert(vs.take(n as int) == vs);
        assert(sequence_offsets(start as int, vs).take(n as int) == sequence_offsets(start as int, vs));
    }
    let mut out: Vec<u8> = Vec::new();
    push_u16(&mut out, 1);
    push_u16(&mut out, (6 + 2 * n) as u16);
    push_u16(&mut out, n as u16);
    push_u16_slice(&mut out, offsets.as_slice());
    push_bytes(&mut out, cov.as_slice());
    push_bytes(&mut out, blocks.as_slice());
    Ok(out)
}

impl MultipleSubst {
    /// Writes the format 1 subtable, its coverage table and its sequence
    /// tables; fails where an offset or a count would not fit in 16 bits.
    pub fn to_bytes(&self) -> (r: Result<Vec<u8>, SerializationError>)
        ensures
            match r {
                Ok(b) => multiple_subst_fits(self@) && b@ == multiple_subst_encoding(self@),
                Err(e) => !multiple_subst_fits(self@) && e == SerializationError::OffsetOverflow,
            },
    {
        sequence_subtable_to_bytes(&self.mapping)
    }

    /// Reads a format 1 subtable. The format word is not checked.
    pub fn from_bytes(data: &[u8]) -> (r: Result<MultipleSubst, DeserializationError>)
        requires
            !multiple_subst_overflows(data@),
        ensures
            match r {
                Ok(t) => multiple_subst_decoding(data@) == Some(t@),
                Err(_) => multiple_subst_decoding(data@) is None,
            },
    {
        proof {
            lemma_map_key_order();
        }
        if data.len() < 6 {
            return Err(DeserializationError::UnexpectedEof);
        }
        let cov_off = read_u16(data, 2).unwrap();
        let n = read_u16(data, 4).unwrap();
        if cov_off == 0 {
            return Err(DeserializationError::Missing);
        }
        if cov_off as usize > data.len() || 6 + 2 * (n as usize) > data.len() {
            return Err(DeserializationError::UnexpectedEof);
        }
        let coverage = match Coverage::from_bytes(vstd::slice::slice_subrange(data, cov_off as usize, data.len())) {
            Ok(c) => c,
            Err(e) => return Err(e),
        };
        let g = coverage.glyphs;
        let mut mapping: BTreeMap<u16, Vec<u16>> = BTreeMap::new();
        let ghost mut read: Seq<Seq<u16>> = Seq::empty();
        let mut k: u16 = 0;
        while k < n
            invariant
                k <= n,
                6 + 2 * n <= data@.len(),
                n == u16_at(data@, 4),
                sequences_decoding(data@, k as nat) == Some(read),
                read.len() == k,
                mapping_view(mapping@) == zip_map(
                    g@,
                    read,
                    if g@.len() < k { g@.len() } else { k as nat },
                ),
                u16_keys_ordered(),
            decreases n - k,
        {
            let off = read_u16(data, 6 + 2 * (k as usize)).unwrap();
            if off == 0 {
                proof {
                    lemma_sequences_decoding_fail(data@, (k + 1) as nat, n as nat);
                }
                return Err(DeserializationError::Missing);
            }
            let v = match read_sequence(data, off as usize) {
                Some(v) => v,
                None => {
                    proof {
                        lemma_sequences_decoding_fail(data@, (k + 1) as nat, n as nat);
                    }
                    return Err(DeserializationError::UnexpectedEof);
                },
            };
            let ghost vv = v@;
            let ghost old_map = mapping@;
            let ghost next = read.push(vv);
            if (k as usize) < g.len() {
                mapping.insert(g[k as usize], v);
                proof {
                    assert(mapping_view(mapping@) =~= mapping_view(old_map).insert(g@[k as int], vv));
                    lemma_zip_map_prefix(g@, read, next, k as nat);
                }
            } else {
                proof {
                    lemma_zip_map_prefix(g@, read, next, g@.len());
                }
            }
            proof {
                read = next;
            }
            k = k + 1;
        }
        Ok(MultipleSubst { mapping })
    }
}

/// `zip_map` reads only the first `n` replacements.
pub(crate) proof fn lemma_zip_map_prefix(g: Seq<u16>, a: Seq<Seq<u16>>, b: Seq<Seq<u16>>, n: nat)
    requires
        n <= a.len(),
        n <= b.len(),
        forall|i: int| 0 <= i < n ==> a[i] == b[i],
    ensures
        zip_map(g, a, n) == zip_map(g, b, n),
    decreases n,
{
    if n > 0 {
        lemma_zip_map_prefix(g, a, b, (n - 1) as nat);
    }
}

proof fn lemma_u16_at_sub(s: Seq<u8>, p: int, x: Seq<u8>, i: int)
    requires
        0 <= p,
        p + x.len() <= s.len(),
        s.subrange(p, p + x.len()) == x,
        0 <= i,
        i + 2 <= x.len(),
    ensures
        u16_at(s, p + i) == u16_at(x, i),
{
    assert(s[p + i] == x[i]);
    assert(s[p + i + 1] == x[i + 1]);
}

/// Sequence table `j` lies in `sequences_bytes(vs)` right after those before it.
proof fn lemma_sequences_bytes_at(vs: Seq<Seq<u16>>, j: int)
    requires
        0 <= j < vs.len(),
    ensures
        sequences_bytes(vs.take(j)).len() + sequence_bytes(vs[j]).len() <= sequences_bytes(vs).len(),
        sequences_bytes(vs).subrange(
            sequences_bytes(vs.take(j)).len() as int,
            (sequences_bytes(vs.take(j)).len() + sequence_bytes(vs[j]).len()) as int,
        ) == sequence_bytes(vs[j]),
    decreases vs.len(),
{
    let p = vs.drop_last();
    if j == vs.len() - 1 {
        assert(vs.take(j) == p);
        assert(sequences_bytes(vs) == sequences_bytes(p) + sequence_bytes(vs.last()));
    } else {
        lemma_sequences_bytes_at(p, j);
        assert(p.take(j) == vs.take(j));
        assert(p[j] == vs[j]);
        let whole = sequences_bytes(p) + sequence_bytes(vs.last());
        assert(sequences_bytes(vs) == whole);
        let a = sequences_bytes(vs.take(j)).len() as int;
        let b = sequence_bytes(vs[j]).len() as int;
        assert(whole.subrange(a, a + b) == sequences_bytes(p).subrange(a, a + b));
    }
}

/// A sequence table written at `p` reads back.
proof fn lemma_sequence_read(s: Seq<u8>, p: int, v: Seq<u16>)
    requires
        v.len() <= 65535,
        0 <= p,
        p + sequence_bytes(v).len() <= s.len(),
        s.subrange(p, p + sequence_bytes(v).len()) == sequence_bytes(v),
    ensures
        sequence_decoding(s, p) == Some(v),
{
    let x = sequence_bytes(v);
    let e = Seq::<u8>::empty();
    lemma_be16_seq_len(v);
    crate::binary::lemma_read_be16(e, v.len() as u16, be16_seq(v));
    assert(e + be16(v.len() as u16) + be16_seq(v) == x);
    lemma_u16_at_sub(s, p, x, 0);
    assert forall|k: int| 0 <= k < v.len() implies #[trigger] u16_at(s, p + 2 + 2 * k) == v[k] by {
        crate::binary::lemma_read_be16_seq(be16(v.len() as u16), v, e, k);
        assert(be16(v.len() as u16) + be16_seq(v) + e == x);
        lemma_u16_at_sub(s, p, x, 2 + 2 * k);
    }
    assert(Seq::new(u16_at(s, p) as nat, |k: int| u16_at(s, p + 2 + 2 * k)) == v);
}

/// Inserting distinct glyphs in order: each maps to its own replacement.
proof fn lemma_zip_map_distinct(ks: Seq<u16>, vs: Seq<Seq<u16>>, j: nat)
    requires
        strictly_increasing(ks),
        j <= ks.len(),
        j <= vs.len(),
    ensures
        forall|x: u16|
            #[trigger] zip_map(ks, vs, j).dom().contains(x) <==> exists|i: int| 0 <= i < j && ks[i] == x,
        forall|i: int| 0 <= i < j ==> #[trigger] zip_map(ks, vs, j)[ks[i]] == vs[i],
    decreases j,
{
    if j > 0 {
        let k = (j - 1) as nat;
        lemma_zip_map_distinct(ks, vs, k);
        let zm = zip_map(ks, vs, j);
        assert forall|x: u16| #[trigger] zm.dom().contains(x) <==> exists|i: int| 0 <= i < j && ks[i] == x by {
            if zm.dom().contains(x) && x != ks[k as int] {
                assert(zip_map(ks, vs, k).dom().contains(x));
            }
            if exists|i: int| 0 <= i < j && ks[i] == x {
                let i = choose|i: int| 0 <= i < j && ks[i] == x;
                if i < k {
                    assert(zip_map(ks, vs, k).dom().contains(ks[i]));
                }
            }
        }
        assert forall|i: int| 0 <= i < j implies #[trigger] zm[ks[i]] == vs[i] by {
            if i < k {
                assert(ks[i] < ks[k as int]);
                assert(zip_map(ks, vs, k)[ks[i]] == vs[i]);
            }
        }
    }
}

/// The sequence tables of an encoded subtable read back, one by one.
proof fn lemma_sequences_read(m: Map<u16, Seq<u16>>, s: Seq<u8>, n: nat)
    requires
        multiple_subst_fits(m),
        s == multiple_subst_encoding(m),
        n <= sorted_keys(m.dom()).len(),
        forall|k: int|
            0 <= k < sorted_keys(m.dom()).len() ==> #[trigger] u16_at(s, 6 + 2 * k) == sequence_offsets(
                sequences_start(m),
                replacements_in_order(m),
            )[k],
        sequences_start(m) <= s.len(),
        s.subrange(sequences_start(m), s.len() as int) == sequences_bytes(replacements_in_order(m)),
    ensures
        sequences_decoding(s, n) == Some(replacements_in_order(m).take(n as int)),
    decreases n,
{
    let vs = replacements_in_order(m);
    let start = sequences_start(m);
    if n == 0 {
        assert(vs.take(0) == Seq::<Seq<u16>>::empty());
    } else {
        let k = (n - 1) as int;
        lemma_sequences_read(m, s, k as nat);
        let a = sequences_bytes(vs.take(k)).len() as int;
        let off = u16_at(s, 6 + 2 * k);
        assert(start + a <= 65535);
        assert(off == start + a);
        assert(start >= 6);
        lemma_sequences_bytes_at(vs, k);
        let x = sequence_bytes(vs[k]);
        let tail = s.subrange(start, s.len() as int);
        assert(s.subrange(start + a, start + a + x.len()) =~= tail.subrange(a, a + x.len()));
        lemma_sequence_read(s, start + a, vs[k]);
        assert(vs.take(n as int) == vs.take(k).push(vs[k]));
    }
}

/// The header, coverage table and sequence tables of an encoded subtable lie
/// where its offsets say.
#[verifier::spinoff_prover]
pub(crate) proof fn lemma_encoding_layout(m: Map<u16, Seq<u16>>)
    requires
        multiple_subst_fits(m),
    ensures
        ({
            let s = multiple_subst_encoding(m);
            let ks = sorted_keys(m.dom());
            &&& s.len() >= 6
            &&& u16_at(s, 2) == coverage_start(m)
            &&& u16_at(s, 4) == ks.len()
            &&& forall|k: int|
                0 <= k < ks.len() ==> #[trigger] u16_at(s, 6 + 2 * k) == sequence_offsets(
                    sequences_start(m),
                    replacements_in_order(m),
                )[k]
            &&& coverage_part(s) == coverage_encoding(ks) + sequences_bytes(replacements_in_order(m))
            &&& sequences_start(m) <= s.len()
            &&& s.subrange(sequences_start(m), s.len() as int) == sequences_bytes(
                replacements_in_order(m),
            )
        }),
{
    let ks = sorted_keys(m.dom());
    let vs = replacements_in_order(m);
    let n = ks.len();
    let cs = coverage_start(m) as u16;
    let start = sequences_start(m);
    let offs = sequence_offsets(start, vs);
    let c = coverage_encoding(ks);
    let b = sequences_bytes(vs);
    let h = be16(1) + be16(cs) + be16(n as u16);
    let s = multiple_subst_encoding(m);
    lemma_be16_seq_len(offs);
    assert(s == h + be16_seq(offs) + c + b);
    crate::binary::lemma_read_be16(be16(1), cs, be16(n as u16) + be16_seq(offs) + c + b);
    assert(be16(1) + be16(cs) + (be16(n as u16) + be16_seq(offs) + c + b) == s);
    crate::binary::lemma_read_be16(be16(1) + be16(cs), n as u16, be16_seq(offs) + c + b);
    assert(be16(1) + be16(cs) + be16(n as u16) + (be16_seq(offs) + c + b) == s);
    assert forall|k: int| 0 <= k < n implies #[trigger] u16_at(s, 6 + 2 * k) == offs[k] by {
        crate::binary::lemma_read_be16_seq(h, offs, c + b, k);
        assert(h + be16_seq(offs) + (c + b) == s);
    }
    assert(coverage_part(s) =~= c + b);
    assert(s.subrange(start, s.len() as int) =~= b);
}

/// Inserting the glyphs in increasing order with their replacements gives the mapping back.
proof fn lemma_zip_map_is(m: Map<u16, Seq<u16>>)
    ensures
        zip_map(sorted_keys(m.dom()), replacements_in_order(m), sorted_keys(m.dom()).len()) == m,
{
    let ks = sorted_keys(m.dom());
    let vs = replacements_in_order(m);
    let n = ks.len();
    crate::layout::ordered::lemma_keys_below(m.dom(), 65536);
    lemma_zip_map_distinct(ks, vs, n);
    let zm = zip_map(ks, vs, n);
    assert forall|x: u16| #[trigger] zm.dom().contains(x) <==> m.dom().contains(x) by {
        if m.dom().contains(x) {
            assert(ks.contains(x));
            let i = choose|i: int| 0 <= i < ks.len() && ks[i] == x;
            assert(zm.dom().contains(ks[i]));
        }
        if zm.dom().contains(x) {
            let i = choose|i: int| 0 <= i < n && ks[i] == x;
            assert(ks.contains(ks[i]));
        }
    }
    assert forall|x: u16| #[trigger] zm.dom().contains(x) implies zm[x] == m[x] by {
        let i = choose|i: int| 0 <= i < n && ks[i] == x;
        assert(zm[ks[i]] == vs[i]);
    }
    assert(zm =~= m);
}

/// Reading back a written multiple substitution gives the same mapping, for
/// every mapping whose offsets and counts fit in 16 bits and that does not
/// substitute glyph 65535.
pub proof fn lemma_multiple_subst_roundtrip(m: Map<u16, Seq<u16>>)
    requires
        multiple_subst_fits(m),
        !m.dom().contains(65535),
    ensures
        !multiple_subst_overflows(multiple_subst_encoding(m)),
        multiple_subst_decoding(multiple_subst_encoding(m)) == Some(m),
{
    let ks = sorted_keys(m.dom());
    let vs = replacements_in_order(m);
    let n = ks.len();
    let s = multiple_subst_encoding(m);
    lemma_encoding_layout(m);
    crate::layout::ordered::lemma_keys_below(m.dom(), 65536);
    assert forall|i: int| 0 <= i < ks.len() implies ks[i] != 65535 by {
        assert(ks.contains(ks[i]));
    }
    crate::coverage::lemma_coverage_roundtrip(ks);
    crate::coverage::lemma_coverage_decoding_prefix(coverage_encoding(ks), sequences_bytes(vs));
    lemma_sequences_read(m, s, n);
    assert(vs.take(n as int) == vs);
    lemma_zip_map_is(m);
}

} // verus!
