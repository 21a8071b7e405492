//! Alternate substitution (a glyph with a choice of replacements), in the
//! binary form of its format 1 subtable, which is laid out as a multiple
//! substitution is: a coverage table and one offset per covered glyph to its
//! list of alternates.
use crate::binary::{read_u16, u16_at, DeserializationError, SerializationError};
use crate::coverage::{coverage_decoding, coverage_range_overflows, Coverage};
use crate::layout::gsub2::{
    coverage_part, lemma_zip_map_prefix, mapping_view, multiple_subst_decoding, multiple_subst_encoding,
    multiple_subst_fits, read_sequence, sequence_decoding, sequence_subtable_to_bytes,
    sequences_decoding, zip_map,
};
use crate::layout::ordered::{lemma_map_key_order, sorted_keys, u16_keys_ordered};
use std::collections::BTreeMap;
use vstd::prelude::*;

verus! {

/// A alternate substitution (`sub ... from ...`) subtable.
#[derive(Debug, PartialEq, Clone, Default)]
pub struct AlternateSubst {
    /// The mapping of input glyph IDs to array of possible glyph IDs.
    pub mapping: BTreeMap<u16, Vec<u16>>,
}

impl View for AlternateSubst {
    type V = Map<u16, Seq<u16>>;

    open spec fn view(&self) -> Map<u16, Seq<u16>> {
        mapping_view(self.mapping@)
    }
}

/// The first `n` alternate lists that the offsets after the header point at;
/// a null offset stands for an empty list. `None` where a list runs past the end.
pub open spec fn alternate_sets_decoding(s: Seq<u8>, n: nat) -> Option<Seq<Seq<u16>>>
    decreases n,
{
    if n == 0 {
        Some(Seq::empty())
    } else {
        let k = (n - 1) as nat;
        let off = u16_at(s, 6 + 2 * k as int);
        match alternate_sets_decoding(s, k) {
            None => None,
            Some(vs) => if off == 0 {
                Some(vs.push(Seq::empty()))
            } else {
                match sequence_decoding(s, off as int) {
                    None => None,
                    Some(v) => Some(vs.push(v)),
                }
            },
        }
    }
}

/// The covered glyphs: none for a null coverage offset.
pub open spec fn alternate_glyphs(s: Seq<u8>) -> Option<Seq<u16>> {
    if u16_at(s, 2) == 0 {
        Some(Seq::empty())
    } else if u16_at(s, 2) > s.len() {
        None
    } else {
        coverage_decoding(coverage_part(s))
    }
}

/// A coverage table whose range records run past glyph 65535 (see `Coverage::from_bytes`).
pub open spec fn alternate_subst_overflows(s: Seq<u8>) -> bool {
    &&& s.len() >= 6
    &&& u16_at(s, 2) != 0
    &&& u16_at(s, 2) <= s.len()
    &&& coverage_range_overflows(coverage_part(s))
}

/// The mapping that the subtable in `s` holds: each covered glyph with the
/// alternate list at the same position, as far as both lists go. `None`
/// where the header, the coverage table or a list is cut short.
pub open spec fn alternate_subst_decoding(s: Seq<u8>) -> Option<Map<u16, Seq<u16>>> {
    if s.len() < 6 || 6 + 2 * u16_at(s, 4) > s.len() {
        None
    } else {
        match alternate_glyphs(s) {
            None => None,
            Some(g) => match alternate_sets_decoding(s, u16_at(s, 4) as nat) {
                None => None,
                Some(vs) => Some(zip_map(g, vs, if g.len() < vs.len() { g.len() } else { vs.len() })),
            },
        }
    }
}

proof fn lemma_alternate_sets_fail(s: Seq<u8>, k: nat, n: nat)
    requires
        k <= n,
        alternate_sets_decoding(s, k) is None,
    ensures
        alternate_sets_decoding(s, n) is None,
    decreases n - k,
{
    if k < n {
        lemma_alternate_sets_fail(s, k + 1, n);
    }
}

impl AlternateSubst {
    /// Writes the format 1 subtable, its coverage table and its alternate
    /// lists; fails where an offset or a count would not fit in 16 bits.
    pub fn to_bytes(&self) -> (r: Result<Vec<u8>, SerializationError>)
        ensures
            match r {
                Ok(b) => multiple_subst_fits(self@) && b@ == multiple_subst_encoding(self@),
                Err(e) => !multiple_subst_fits(self@) && e == SerializationError::OffsetOverflow,
            },
    {
        sequence_subtable_to_bytes(&self.mapping)
    }

    /// Reads a format 1 subtable. The format word is not checked.
    pub fn from_bytes(data: &[u8]) -> (r: Result<AlternateSubst, DeserializationError>)
        requires
            !alternate_subst_overflows(data@),
        ensures
            match r {
                Ok(t) => alternate_subst_decoding(data@) == Some(t@),
                Err(_) => alternate_subst_decoding(data@) is None,
            },
    {
        proof {
            lemma_map_key_order();
        }
        if data.len() < 6 {
            return Err(DeserializationError::UnexpectedEof);
        }
        let cov_off = read_u16(data, 2).unwrap();
        let n = read_u16(data, 4).unwrap();
        if 6 + 2 * (n as usize) > data.len() {
            return Err(DeserializationError::UnexpectedEof);
        }
        let g: Vec<u16> = if cov_off == 0 {
            Vec::new()
        } else if cov_off as usize > data.len() {
            return Err(DeserializationError::UnexpectedEof);
        } else {
            match Coverage::from_bytes(vstd::slice::slice_subrange(data, cov_off as usize, data.len())) {
                Ok(c) => c.glyphs,
                Err(e) => return Err(e),
            }
        };
        assert(alternate_glyphs(data@) == Some(g@));
        let mut mapping: BTreeMap<u16, Vec<u16>> = BTreeMap::new();
        let ghost mut read: Seq<Seq<u16>> = Seq::empty();
        let mut k: u16 = 0;
        while k < n
            invariant
                k <= n,
                6 + 2 * n <= data@.len(),
                n == u16_at(data@, 4),
                alternate_sets_decoding(data@, k as nat) == Some(read),
                read.len() == k,
                mapping_view(mapping@) == zip_map(
                    g@,
                    read,
                    if g@.len() < k { g@.len() } else { k as nat },
                ),
                u16_keys_ordered(),
            decreases n - k,
        {
            let off = read_u16(data, 6 + 2 * (k as usize)).unwrap();
            let v: Vec<u16> = if off == 0 {
                Vec::new()
            } else {
                match read_sequence(data, off as usize) {
                    Some(v) => v,
                    None => {
                        proof {
                            lemma_alternate_sets_fail(data@, (k + 1) as nat, n as nat);
                        }
                        return Err(DeserializationError::UnexpectedEof);
                    },
                }
            };
            let ghost vv = v@;
            let ghost old_map = mapping@;
            let ghost next = read.push(vv);
            assert(alternate_sets_decoding(data@, (k + 1) as nat) == Some(next));
            if (k as usize) < g.len() {
                mapping.insert(g[k as usize], v);
                proof {
                    assert(mapping_view(mapping@) =~= mapping_view(old_map).insert(g@[k as int], vv));
                    lemma_zip_map_prefix(g@, read, next, k as nat);
                }
            } else {
                proof {
                    lemma_zip_map_prefix(g@, read, next, g@.len());
                }
            }
            proof {
                read = next;
            }
            k = k + 1;
        }
        Ok(AlternateSubst { mapping })
    }
}

/// Where no offset is null, alternate lists read as sequence tables do.
proof fn lemma_alternate_sets_agree(s: Seq<u8>, n: nat)
    requires
        forall|k: int| 0 <= k < n ==> #[trigger] u16_at(s, 6 + 2 * k) != 0,
    ensures
        alternate_sets_decoding(s, n) == sequences_decoding(s, n),
    decreases n,
{
    if n > 0 {
        lemma_alternate_sets_agree(s, (n - 1) as nat);
        assert(u16_at(s, 6 + 2 * (n - 1)) != 0);
    }
}

/// Reading back a written alternate substitution gives the same mapping, for
/// every mapping whose offsets and counts fit in 16 bits and that does not
/// substitute glyph 65535.
pub proof fn lemma_alternate_subst_roundtrip(m: Map<u16, Seq<u16>>)
    requires
        multiple_subst_fits(m),
        !m.dom().contains(65535),
    ensures
        !alternate_subst_overflows(multiple_subst_encoding(m)),
        alternate_subst_decoding(multiple_subst_encoding(m)) == Some(m),
{
    let s = multiple_subst_encoding(m);
    let n = sorted_keys(m.dom()).len();
    crate::layout::gsub2::lemma_multiple_subst_roundtrip(m);
    crate::layout::gsub2::lemma_encoding_layout(m);
    assert forall|k: int| 0 <= k < n implies #[trigger] u16_at(s, 6 + 2 * k) != 0 by {
        assert(u16_at(s, 6 + 2 * k) == crate::layout::gsub2::sequence_offsets(
            crate::layout::gsub2::sequences_start(m),
            crate::layout::gsub2::replacements_in_order(m),
        )[k]);
    }
    lemma_alternate_sets_agree(s, n);
}

} // verus!
