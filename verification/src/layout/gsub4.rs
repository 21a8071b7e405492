//! Ligature substitution (a sequence of glyphs replaced by one glyph), in the
//! binary form of its format 1 subtable: a coverage table of the first glyphs,
//! and for each of them a ligature set listing the ligatures that start with it.
use crate::binary::{
    be16, be16_seq, lemma_be16_seq_len, push_bytes, push_u16, push_u16_slice, read_u16, read_u16_vec,
    u16_at, DeserializationError, SerializationError,
};
use crate::coverage::{coverage_decoding, coverage_encoding, coverage_range_overflows, Coverage};
use crate::layout::gsub2::coverage_part;
use vstd::prelude::*;

verus! {

/// A ligature substitution (many-to-one) subtable.
///
/// The entries are kept in increasing (lexicographic) order of their input
/// sequences, each input sequence at most once: see `ligature_map_wf`.
#[derive(Debug, PartialEq, Clone, Default)]
pub struct LigatureSubst {
    /// The mapping of sequences of input glyphs IDs to replacement glyph IDs.
    pub mapping: Vec<(Vec<u16>, u16)>,
}

/// Lexicographic order on glyph sequences: at the first place where they
/// differ the smaller glyph comes first, and a proper prefix comes first.
pub open spec fn lex_lt(a: Seq<u16>, b: Seq<u16>) -> bool
    decreases a.len(),
{
    if a.len() == 0 {
        b.len() > 0
    } else if b.len() == 0 {
        false
    } else if a[0] != b[0] {
        a[0] < b[0]
    } else {
        lex_lt(a.drop_first(), b.drop_first())
    }
}

/// The entries as mathematical values: input sequence and replacement.
pub open spec fn entries_view(m: Seq<(Vec<u16>, u16)>) -> Seq<(Seq<u16>, u16)> {
    m.map_values(|e: (Vec<u16>, u16)| (e.0@, e.1))
}

/// The input sequences are in strictly increasing order.
pub open spec fn entries_sorted(es: Seq<(Seq<u16>, u16)>) -> bool {
    forall|i: int, j: int| 0 <= i < j < es.len() ==> lex_lt(es[i].0, es[j].0)
}

/// A well-formed mapping: strictly increasing input sequences.
pub open spec fn ligature_map_wf(m: Seq<(Vec<u16>, u16)>) -> bool {
    entries_sorted(entries_view(m))
}

/// The mapping that the entries stand for.
pub open spec fn entries_map(es: Seq<(Seq<u16>, u16)>) -> Map<Seq<u16>, u16>
    decreases es.len(),
{
    if es.len() == 0 {
        Map::empty()
    } else {
        entries_map(es.drop_last()).insert(es.last().0, es.last().1)
    }
}

impl View for LigatureSubst {
    type V = Map<Seq<u16>, u16>;

    open spec fn view(&self) -> Map<Seq<u16>, u16> {
        entries_map(entries_view(self.mapping@))
    }
}

proof fn lemma_lex_irreflexive(a: Seq<u16>)
    ensures
        !lex_lt(a, a),
    decreases a.len(),
{
    if a.len() > 0 {
        lemma_lex_irreflexive(a.drop_first());
    }
}

proof fn lemma_lex_transitive(a: Seq<u16>, b: Seq<u16>, c: Seq<u16>)
    requires
        lex_lt(a, b),
        lex_lt(b, c),
    ensures
        lex_lt(a, c),
    decreases a.len(),
{
    if a.len() > 0 && b.len() > 0 && c.len() > 0 && a[0] == b[0] && b[0] == c[0] {
        lemma_lex_transitive(a.drop_first(), b.drop_first(), c.drop_first());
    }
}

proof fn lemma_lex_total(a: Seq<u16>, b: Seq<u16>)
    ensures
        a == b || lex_lt(a, b) || lex_lt(b, a),
    decreases a.len(),
{
    if a.len() > 0 && b.len() > 0 && a[0] == b[0] {
        lemma_lex_total(a.drop_first(), b.drop_first());
        if a.drop_first() == b.drop_first() {
            assert(a =~= seq![a[0]] + a.drop_first());
            assert(b =~= seq![b[0]] + b.drop_first());
        }
    } else if a.len() == 0 && b.len() == 0 {
        assert(a =~= b);
    }
}

/// Where the input sequences are distinct, each entry's input maps to its replacement.
#[verifier::spinoff_prover]
proof fn lemma_entries_map(es: Seq<(Seq<u16>, u16)>)
    requires
        entries_sorted(es),
    ensures
        forall|k: Seq<u16>|
            #[trigger] entries_map(es).dom().contains(k) <==> exists|i: int| 0 <= i < es.len() && es[i].0 == k,
        forall|i: int| 0 <= i < es.len() ==> #[trigger] entries_map(es)[es[i].0] == es[i].1,
    decreases es.len(),
{
    if es.len() > 0 {
        let p = es.drop_last();
        assert forall|i: int, j: int| 0 <= i < j < p.len() implies lex_lt(p[i].0, p[j].0) by {
            assert(p[i] == es[i] && p[j] == es[j]);
        }
        lemma_entries_map(p);
        let n = es.len() - 1;
        let m = entries_map(es);
        assert forall|k: Seq<u16>| #[trigger] m.dom().contains(k) <==> exists|i: int| 0 <= i < es.len() && es[i].0 == k by {
            if m.dom().contains(k) {
                if k == es[n].0 {
                    assert(es[n].0 == k);
                } else {
                    assert(entries_map(p).dom().contains(k));
                    let i = choose|i: int| 0 <= i < p.len() && p[i].0 == k;
                    assert(es[i].0 == k);
                }
            }
            if exists|i: int| 0 <= i < es.len() && es[i].0 == k {
                let i = choose|i: int| 0 <= i < es.len() && es[i].0 == k;
                if i < n {
                    assert(p[i].0 == k);
                    assert(entries_map(p).dom().contains(k));
                }
            }
        }
        assert forall|i: int| 0 <= i < es.len() implies #[trigger] m[es[i].0] == es[i].1 by {
            if i < n {
                assert(lex_lt(es[i].0, es[n].0));
                lemma_lex_irreflexive(es[i].0);
                assert(entries_map(p)[p[i].0] == p[i].1);
            }
        }
    }
}

/// A key that comes before entry `i` of a sorted list comes before all later ones.
proof fn lemma_key_before_rest(es: Seq<(Seq<u16>, u16)>, i: int, key: Seq<u16>)
    requires
        entries_sorted(es),
        0 <= i <= es.len(),
        i < es.len() ==> lex_lt(key, es[i].0),
    ensures
        forall|j: int| i <= j < es.len() ==> lex_lt(key, #[trigger] es[j].0),
{
    assert forall|j: int| i <= j < es.len() implies lex_lt(key, #[trigger] es[j].0) by {
        if j > i {
            lemma_lex_transitive(key, es[i].0, es[j].0);
        }
    }
}

/// `lex_lt(a, b)`, computed.
fn lex_less(a: &Vec<u16>, b: &Vec<u16>) -> (r: bool)
    ensures
        r == lex_lt(a@, b@),
{
    let mut i: usize = 0;
    assert(a@.skip(0) =~= a@);
    assert(b@.skip(0) =~= b@);
    while i < a.len() && i < b.len()
        invariant
            i <= a@.len(),
            i <= b@.len(),
            lex_lt(a@, b@) == lex_lt(a@.skip(i as int), b@.skip(i as int)),
        decreases a.len() - i,
    {
        if a[i] != b[i] {
            assert(a@.skip(i as int)[0] == a@[i as int]);
            assert(b@.skip(i as int)[0] == b@[i as int]);
            return a[i] < b[i];
        }
        assert(a@.skip(i as int).drop_first() == a@.skip(i + 1));
        assert(b@.skip(i as int).drop_first() == b@.skip(i + 1));
        i = i + 1;
    }
    i == a.len() && i < b.len()
}

/// Whether two glyph sequences are equal.
fn same_glyphs(a: &Vec<u16>, b: &Vec<u16>) -> (r: bool)
    ensures
        r == (a@ == b@),
{
    if a.len() != b.len() {
        return false;
    }
    let mut i: usize = 0;
    while i < a.len()
        invariant
            a@.len() == b@.len(),
            i <= a@.len(),
            forall|j: int| 0 <= j < i ==> a@[j] == b@[j],
        decreases a.len() - i,
    {
        if a[i] != b[i] {
            return false;
        }
        i = i + 1;
    }
    assert(a@ =~= b@);
    true
}

/// Adds `key => glyph` to a sorted mapping, in its place; an entry with the
/// same input sequence takes the new replacement.
fn insert_entry(m: &mut Vec<(Vec<u16>, u16)>, key: Vec<u16>, glyph: u16)
    requires
        ligature_map_wf(old(m)@),
    ensures
        ligature_map_wf(final(m)@),
        entries_map(entries_view(final(m)@)) == entries_map(entries_view(old(m)@)).insert(key@, glyph),
{
    let ghost es = entries_view(m@);
    let mut i: usize = 0;
    let mut found = false;
    while !found && i < m.len()
        invariant
            i <= m@.len(),
            es == entries_view(m@),
            entries_sorted(es),
            forall|j: int| 0 <= j < i ==> lex_lt(#[trigger] es[j].0, key@),
            found ==> i < m@.len() && !lex_lt(es[i as int].0, key@),
        decreases m.len() - i + (if found { 0int } else { 1int }),
    {
        if lex_less(&m[i].0, &key) {
            i = i + 1;
        } else {
            found = true;
        }
    }
    proof {
        lemma_entries_map(es);
    }
    if i < m.len() && same_glyphs(&m[i].0, &key) {
        m.set(i, (key, glyph));
        proof {
            let ns = entries_view(m@);
            assert(ns == es.update(i as int, (key@, glyph)));
            assert forall|j: int| 0 <= j < ns.len() implies #[trigger] ns[j].0 == es[j].0 by {}
            assert(entries_sorted(ns));
            lemma_entries_map(ns);
            let a = entries_map(ns);
            let b = entries_map(es).insert(key@, glyph);
            assert forall|k: Seq<u16>| #[trigger] a.dom().contains(k) <==> b.dom().contains(k) by {
                if a.dom().contains(k) {
                    let j = choose|j: int| 0 <= j < ns.len() && ns[j].0 == k;
                    if j != i {
                        assert(es[j].0 == k);
                        assert(entries_map(es).dom().contains(k));
                    }
                }
                if b.dom().contains(k) {
                    if k == key@ {
                        assert(ns[i as int].0 == k);
                    } else {
                        assert(entries_map(es).dom().contains(k));
                        let j = choose|j: int| 0 <= j < es.len() && es[j].0 == k;
                        assert(ns[j].0 == k);
                    }
                }
            }
            assert forall|k: Seq<u16>| #[trigger] a.dom().contains(k) implies a[k] == b[k] by {
                let j = choose|j: int| 0 <= j < ns.len() && ns[j].0 == k;
                assert(a[ns[j].0] == ns[j].1);
                if j != i {
                    assert(es[j].0 == k);
                    assert(entries_map(es)[es[j].0] == es[j].1);
                }
            }
            assert(a =~= b);
        }
    } else {
        m.insert(i, (key, glyph));
        proof {
            let ns = entries_view(m@);
            assert(ns == es.insert(i as int, (key@, glyph)));
            if i < es.len() {
                lemma_lex_total(es[i as int].0, key@);
            }
            lemma_key_before_rest(es, i as int, key@);
            assert forall|a: int, b: int| 0 <= a < b < ns.len() implies lex_lt(ns[a].0, ns[b].0) by {
                if a < i && b == i {
                } else if a < i && b > i {
                    assert(lex_lt(key@, es[b - 1].0));
                    lemma_lex_transitive(ns[a].0, key@, ns[b].0);
                } else if a == i {
                    assert(lex_lt(key@, es[b - 1].0));
                } else if a > i {
                    assert(ns[a] == es[a - 1] && ns[b] == es[b - 1]);
                } else {
                    assert(ns[a] == es[a] && ns[b] == es[b]);
                }
            }
            lemma_entries_map(ns);
            let x = entries_map(ns);
            let y = entries_map(es).insert(key@, glyph);
            assert forall|k: Seq<u16>| #[trigger] x.dom().contains(k) <==> y.dom().contains(k) by {
                if x.dom().contains(k) && k != key@ {
                    let j = choose|j: int| 0 <= j < ns.len() && ns[j].0 == k;
                    if j < i {
                        assert(es[j].0 == k);
                    } else if j > i {
                        assert(es[j - 1].0 == k);
                    }
                }
                if y.dom().contains(k) {
                    if k == key@ {
                        assert(ns[i as int].0 == k);
                    } else {
                        let j = choose|j: int| 0 <= j < es.len() && es[j].0 == k;
                        if j < i {
                            assert(ns[j].0 == k);
                        } else {
                            assert(ns[j + 1].0 == k);
                        }
                    }
                }
            }
            assert forall|k: Seq<u16>| #[trigger] x.dom().contains(k) implies x[k] == y[k] by {
                let j = choose|j: int| 0 <= j < ns.len() && ns[j].0 == k;
                assert(x[ns[j].0] == ns[j].1);
                if j < i {
                    assert(ns[j] == es[j]);
                    assert(entries_map(es)[es[j].0] == es[j].1);
                    lemma_lex_irreflexive(key@);
                } else if j > i {
                    assert(ns[j] == es[j - 1]);
                    assert(entries_map(es)[es[j - 1].0] == es[j - 1].1);
                    lemma_lex_irreflexive(key@);
                    assert(lex_lt(key@, es[j - 1].0));
                }
            }
            assert(x =~= y);
        }
    }
}

/// A ligature read at `p`: its replacement glyph and the input glyphs after
/// the first; `None` where it is cut short or its component count is 0.
pub open spec fn ligature_decoding(s: Seq<u8>, p: int) -> Option<(u16, Seq<u16>)> {
    if 0 <= p && p + 4 <= s.len() && u16_at(s, p + 2) >= 1 && p + 4 + 2 * (u16_at(s, p + 2) - 1)
        <= s.len() {
        Some(
            (
                u16_at(s, p),
                Seq::new((u16_at(s, p + 2) - 1) as nat, |k: int| u16_at(s, p + 4 + 2 * k)),
            ),
        )
    } else {
        None
    }
}

/// The first `n` ligatures of the ligature set at `base`, through the offsets
/// after its count (relative to the set); `None` where an offset is null or a
/// ligature cannot be read.
pub open spec fn set_ligatures(s: Seq<u8>, base: int, n: nat) -> Option<Seq<(u16, Seq<u16>)>>
    decreases n,
{
    if n == 0 {
        Some(Seq::empty())
    } else {
        let k = (n - 1) as nat;
        match set_ligatures(s, base, k) {
            None => None,
            Some(ls) => {
                let off = u16_at(s, base + 2 + 2 * k);
                if off == 0 {
                    None
                } else {
                    match ligature_decoding(s, base + off) {
                        None => None,
                        Some(l) => Some(ls.push(l)),
                    }
                }
            },
        }
    }
}

/// The ligature set at `base`: a count, the ligature offsets and the ligatures.
pub open spec fn ligature_set_decoding(s: Seq<u8>, base: int) -> Option<Seq<(u16, Seq<u16>)>> {
    if 0 <= base && base + 2 <= s.len() && base + 2 + 2 * u16_at(s, base) <= s.len() {
        set_ligatures(s, base, u16_at(s, base) as nat)
    } else {
        None
    }
}

/// The first `n` ligature sets that the offsets after the header point at.
pub open spec fn ligature_sets_decoding(s: Seq<u8>, n: nat) -> Option<Seq<Seq<(u16, Seq<u16>)>>>
    decreases n,
{
    if n == 0 {
        Some(Seq::empty())
    } else {
        let k = (n - 1) as nat;
        match ligature_sets_decoding(s, k) {
            None => None,
            Some(sets) => {
                let off = u16_at(s, 6 + 2 * k as int);
                if off == 0 {
                    None
                } else {
                    match ligature_set_decoding(s, off as int) {
                        None => None,
                        Some(ls) => Some(sets.push(ls)),
                    }
                }
            },
        }
    }
}

/// `m` with each ligature of a set added, keyed by `first` and then the
/// ligature's other input glyphs; later entries replace earlier ones.
pub open spec fn insert_set(m: Map<Seq<u16>, u16>, first: u16, ls: Seq<(u16, Seq<u16>)>) -> Map<
    Seq<u16>,
    u16,
>
    decreases ls.len(),
{
    if ls.len() == 0 {
        m
    } else {
        insert_set(m, first, ls.drop_last()).insert(seq![first] + ls.last().1, ls.last().0)
    }
}

/// The mapping built from the first `n` covered glyphs and their ligature sets.
pub open spec fn insert_sets(g: Seq<u16>, sets: Seq<Seq<(u16, Seq<u16>)>>, n: nat) -> Map<
    Seq<u16>,
    u16,
>
    decreases n,
{
    if n == 0 {
        Map::empty()
    } else {
        let k = (n - 1) as nat;
        insert_set(insert_sets(g, sets, k), g[k as int], sets[k as int])
    }
}

/// A coverage table whose range records run past glyph 65535 (see `Coverage::from_bytes`).
pub open spec fn ligature_subst_overflows(s: Seq<u8>) -> bool {
    &&& s.len() >= 6
    &&& u16_at(s, 2) <= s.len()
    &&& coverage_range_overflows(coverage_part(s))
}

/// The mapping that the subtable in `s` holds: each covered glyph with the
/// ligature set at the same position, as far as both lists go. `None` where
/// the header, the coverage table or a ligature set is cut short, an offset is
/// null, or a ligature has no components.
pub open spec fn ligature_subst_decoding(s: Seq<u8>) -> Option<Map<Seq<u16>, u16>> {
    if s.len() < 6 {
        None
    } else {
        let cov = u16_at(s, 2);
        let n = u16_at(s, 4);
        if cov == 0 || cov > s.len() || 6 + 2 * n > s.len() {
            None
        } else {
            match coverage_decoding(coverage_part(s)) {
                None => None,
                Some(g) => match ligature_sets_decoding(s, n as nat) {
                    None => None,
                    Some(sets) => Some(
                        insert_sets(g, sets, if g.len() < sets.len() { g.len() } else { sets.len() }),
                    ),
                },
            }
        }
    }
}

/// The ligatures of a set as mathematical values.
pub open spec fn ligatures_view(v: Seq<(u16, Vec<u16>)>) -> Seq<(u16, Seq<u16>)> {
    v.map_values(|e: (u16, Vec<u16>)| (e.0, e.1@))
}

fn read_ligature(data: &[u8], pos: usize) -> (r: Option<(u16, Vec<u16>)>)
    ensures
        match r {
            Some((g, c)) => ligature_decoding(data@, pos as int) == Some((g, c@)),
            None => ligature_decoding(data@, pos as int) is None,
        },
{
    let glyph = match read_u16(data, pos) {
        Some(g) => g,
        None => return None,
    };
    assert(pos + 2 <= data.len());
    let count = match read_u16(data, pos + 2) {
        Some(c) => c,
        None => return None,
    };
    if count == 0 {
        return None;
    }
    assert(pos + 4 <= data.len());
    match read_u16_vec(data, pos + 4, (count - 1) as usize) {
        Some(c) => {
            assert(c@ == Seq::new((count - 1) as nat, |k: int| u16_at(data@, pos + 4 + 2 * k)));
            Some((glyph, c))
        },
        None => None,
    }
}

proof fn lemma_set_ligatures_fail(s: Seq<u8>, base: int, k: nat, n: nat)
    requires
        k <= n,
        set_ligatures(s, base, k) is None,
    ensures
        set_ligatures(s, base, n) is None,
    decreases n - k,
{
    if k < n {
        lemma_set_ligatures_fail(s, base, k + 1, n);
    }
}

proof fn lemma_sets_decoding_fail(s: Seq<u8>, k: nat, n: nat)
    requires
        k <= n,
        ligature_sets_decoding(s, k) is None,
    ensures
        ligature_sets_decoding(s, n) is None,
    decreases n - k,
{
    if k < n {
        lemma_sets_decoding_fail(s, k + 1, n);
    }
}

fn read_ligature_set(data: &[u8], base: usize) -> (r: Option<Vec<(u16, Vec<u16>)>>)
    ensures
        match r {
            Some(v) => ligature_set_decoding(data@, base as int) == Some(ligatures_view(v@)),
            None => ligature_set_decoding(data@, base as int) is None,
        },
{
    let count = match read_u16(data, base) {
        Some(c) => c,
        None => return None,
    };
    if data.len() - base - 2 < 2 * (count as usize) {
        return None;
    }
    let mut ligs: Vec<(u16, Vec<u16>)> = Vec::new();
    let mut k: u16 = 0;
    while k < count
        invariant
            k <= count,
            base + 2 + 2 * count <= data@.len(),
            data@.len() <= usize::MAX,
            count == u16_at(data@, base as int),
            set_ligatures(data@, base as int, k as nat) == Some(ligatures_view(ligs@)),
        decreases count - k,
    {
        let off = read_u16(data, base + 2 + 2 * (k as usize)).unwrap();
        if off == 0 {
            proof {
                lemma_set_ligatures_fail(data@, base as int, (k + 1) as nat, count as nat);
            }
            return None;
        }
        if data.len() - base < off as usize {
            proof {
                lemma_set_ligatures_fail(data@, base as int, (k + 1) as nat, count as nat);
            }
            return None;
        }
        let lig = match read_ligature(data, base + off as usize) {
            Some(l) => l,
            None => {
                proof {
                    lemma_set_ligatures_fail(data@, base as int, (k + 1) as nat, count as nat);
                }
                return None;
            },
        };
        let ghost before = ligs@;
        ligs.push(lig);
        assert(ligatures_view(ligs@) == ligatures_view(before).push((lig.0, lig.1@)));
        k = k + 1;
    }
    Some(ligs)
}

/// `first` followed by `rest`.
fn prepend_glyph(first: u16, rest: &Vec<u16>) -> (r: Vec<u16>)
    ensures
        r@ == seq![first] + rest@,
{
    let mut v: Vec<u16> = Vec::new();
    v.push(first);
    let mut i: usize = 0;
    while i < rest.len()
        invariant
            i <= rest@.len(),
            v@ == seq![first] + rest@.take(i as int),
        decreases rest.len() - i,
    {
        v.push(rest[i]);
        assert(rest@.take(i + 1) == rest@.take(i as int).push(rest@[i as int]));
        i = i + 1;
    }
    assert(rest@.take(rest@.len() as int) == rest@);
    v
}

impl LigatureSubst {
    /// Reads a format 1 subtable. The format word is not checked.
    pub fn from_bytes(data: &[u8]) -> (r: Result<LigatureSubst, DeserializationError>)
        requires
            !ligature_subst_overflows(data@),
        ensures
            match r {
                Ok(t) => ligature_map_wf(t.mapping@) && ligature_subst_decoding(data@) == Some(t@),
                Err(_) => ligature_subst_decoding(data@) is None,
            },
    {
        if data.len() < 6 {
            return Err(DeserializationError::UnexpectedEof);
        }
        let cov_off = read_u16(data, 2).unwrap();
        let n = read_u16(data, 4).unwrap();
        if cov_off == 0 {
            return Err(DeserializationError::Missing);
        }
        if cov_off as usize > data.len() || 6 + 2 * (n as usize) > data.len() {
            return Err(DeserializationError::UnexpectedEof);
        }
        let coverage = match Coverage::from_bytes(vstd::slice::slice_subrange(data, cov_off as usize, data.len())) {
            Ok(c) => c,
            Err(e) => return Err(e),
        };
        let g = coverage.glyphs;
        let mut mapping: Vec<(Vec<u16>, u16)> = Vec::new();
        let ghost mut sets: Seq<Seq<(u16, Seq<u16>)>> = Seq::empty();
        let mut k: u16 = 0;
        while k < n
            invariant
                k <= n,
                6 + 2 * n <= data@.len(),
                n == u16_at(data@, 4),
                ligature_sets_decoding(data@, k as nat) == Some(sets),
                sets.len() == k,
                ligature_map_wf(mapping@),
                entries_map(entries_view(mapping@)) == insert_sets(
                    g@,
                    sets,
                    if g@.len() < k { g@.len() } else { k as nat },
                ),
            decreases n - k,
        {
            let off = read_u16(data, 6 + 2 * (k as usize)).unwrap();
            if off == 0 {
                proof {
                    lemma_sets_decoding_fail(data@, (k + 1) as nat, n as nat);
                }
                return Err(DeserializationError::Missing);
            }
            let ligs = match read_ligature_set(data, off as usize) {
                Some(l) => l,
                None => {
                    proof {
                        lemma_sets_decoding_fail(data@, (k + 1) as nat, n as nat);
                    }
                    return Err(DeserializationError::UnexpectedEof);
                },
            };
            let ghost lv = ligatures_view(ligs@);
            let ghost next = sets.push(lv);
            if (k as usize) < g.len() {
                let first = g[k as usize];
                let ghost start = entries_map(entries_view(mapping@));
                let mut j: usize = 0;
                while j < ligs.len()
                    invariant
                        j <= ligs@.len(),
                        lv == ligatures_view(ligs@),
                        ligature_map_wf(mapping@),
                        entries_map(entries_view(mapping@)) == insert_set(start, first, lv.take(j as int)),
                    decreases ligs.len() - j,
                {
                    let key = prepend_glyph(first, &ligs[j].1);
                    insert_entry(&mut mapping, key, ligs[j].0);
                    assert(lv.take(j + 1).drop_last() == lv.take(j as int));
                    j = j + 1;
                }
                proof {
                    assert(lv.take(lv.len() as int) == lv);
                    lemma_insert_sets_prefix(g@, sets, next, k as nat);
                }
            } else {
                proof {
                    lemma_insert_sets_prefix(g@, sets, next, g@.len());
                }
            }
            proof {
                sets = next;
            }
            k = k + 1;
        }
        Ok(LigatureSubst { mapping })
    }
}

/// `insert_sets` reads only the first `n` ligature sets.
proof fn lemma_insert_sets_prefix(
    g: Seq<u16>,
    a: Seq<Seq<(u16, Seq<u16>)>>,
    b: Seq<Seq<(u16, Seq<u16>)>>,
    n: nat,
)
    requires
        n <= a.len(),
        n <= b.len(),
        forall|i: int| 0 <= i < n ==> a[i] == b[i],
    ensures
        insert_sets(g, a, n) == insert_sets(g, b, n),
    decreases n,
{
    if n > 0 {
        lemma_insert_sets_prefix(g, a, b, (n - 1) as nat);
    }
}

/// The first input glyph of each entry.
pub open spec fn first_glyph_seq(es: Seq<(Seq<u16>, u16)>) -> Seq<u16> {
    es.map_values(|e: (Seq<u16>, u16)| e.0[0])
}

/// The maximal runs of equal values in `f`, as half-open index ranges, in order.
pub open spec fn equal_runs(f: Seq<u16>) -> Seq<(nat, nat)>
    decreases f.len(),
{
    if f.len() == 0 {
        Seq::empty()
    } else if f.len() == 1 {
        seq![(0nat, 1nat)]
    } else {
        let p = equal_runs(f.drop_last());
        let n = f.len();
        if f[n - 2] == f[n - 1] {
            p.update(p.len() - 1, (p.last().0, n))
        } else {
            p.push(((n - 1) as nat, n))
        }
    }
}

proof fn lemma_equal_runs_shape(f: Seq<u16>)
    ensures
        f.len() == 0 ==> equal_runs(f).len() == 0,
        f.len() > 0 ==> equal_runs(f).len() >= 1 && equal_runs(f).last().1 == f.len() && equal_runs(f)[0].0 == 0,
        equal_runs(f).len() <= f.len(),
        forall|k: int|
            0 <= k < equal_runs(f).len() ==> #[trigger] equal_runs(f)[k].0 < equal_runs(f)[k].1 <= f.len(),
        forall|k: int|
            0 <= k < equal_runs(f).len() - 1 ==> #[trigger] equal_runs(f)[k].1 == equal_runs(f)[k + 1].0,
    decreases f.len(),
{
    if f.len() > 1 {
        lemma_equal_runs_shape(f.drop_last());
    }
}

/// Within a run all values are equal to its first.
#[verifier::spinoff_prover]
proof fn lemma_equal_runs_value(f: Seq<u16>, k: int, t: int)
    requires
        0 <= k < equal_runs(f).len(),
        equal_runs(f)[k].0 <= t < equal_runs(f)[k].1,
    ensures
        f[t] == f[equal_runs(f)[k].0 as int],
    decreases f.len(),
{
    lemma_equal_runs_shape(f);
    if f.len() > 1 {
        let g = f.drop_last();
        let p = equal_runs(g);
        let n = f.len();
        lemma_equal_runs_shape(g);
        if f[n - 2] == f[n - 1] {
            if k == p.len() - 1 && t == n - 1 {
                if p.last().0 <= n - 2 {
                    lemma_equal_runs_value(g, k, n - 2);
                }
            } else {
                lemma_equal_runs_value(g, k, t);
            }
        } else if k < p.len() {
            lemma_equal_runs_value(g, k, t);
        }
    }
}

/// A run starts where the value changes.
#[verifier::spinoff_prover]
proof fn lemma_equal_runs_break(f: Seq<u16>, k: int)
    requires
        0 < k < equal_runs(f).len(),
    ensures
        f[equal_runs(f)[k].0 as int] != f[equal_runs(f)[k].0 - 1],
    decreases f.len(),
{
    if f.len() > 1 {
        let g = f.drop_last();
        let p = equal_runs(g);
        let n = f.len();
        lemma_equal_runs_shape(g);
        let r = equal_runs(f);
        if f[n - 2] == f[n - 1] {
            assert(r[k].0 == p[k].0);
            lemma_equal_runs_break(g, k);
            assert(p[k].0 < p[k].1 <= n - 1);
            assert(p[k - 1].1 == p[k].0 && p[k - 1].0 < p[k - 1].1);
            assert(g[p[k].0 as int] == f[p[k].0 as int]);
            assert(g[p[k].0 - 1] == f[p[k].0 - 1]);
        } else if k < p.len() {
            assert(r[k] == p[k]);
            lemma_equal_runs_break(g, k);
            assert(p[k].0 < p[k].1 <= n - 1);
            assert(p[k - 1].1 == p[k].0 && p[k - 1].0 < p[k - 1].1);
            assert(g[p[k].0 as int] == f[p[k].0 as int]);
            assert(g[p[k].0 - 1] == f[p[k].0 - 1]);
        } else {
            assert(r[k].0 == n - 1);
        }
    }
}

/// The runs of equal values in `f`, found by scanning it.
fn equal_run_bounds(f: &Vec<u16>) -> (r: Vec<(usize, usize)>)
    ensures
        r@.len() == equal_runs(f@).len(),
        forall|k: int|
            0 <= k < r@.len() ==> (#[trigger] r@[k]).0 == equal_runs(f@)[k].0 && r@[k].1 == equal_runs(f@)[k].1,
{
    let mut run_start: usize = 0;
    let mut result: Vec<(usize, usize)> = Vec::new();
    if f.len() == 0 {
        return result;
    }
    let mut i: usize = 1;
    while i < f.len()
        invariant
            1 <= i <= f@.len(),
            run_start < i,
            result@.len() + 1 == equal_runs(f@.subrange(0, i as int)).len(),
            forall|k: int|
                0 <= k < result@.len() ==> (#[trigger] result@[k]).0 == equal_runs(f@.subrange(0, i as int))[k].0
                    && result@[k].1 == equal_runs(f@.subrange(0, i as int))[k].1,
            equal_runs(f@.subrange(0, i as int)).last() == (run_start as nat, i as nat),
        decreases f.len() - i,
    {
        let ghost g = f@.subrange(0, i + 1);
        assert(g.drop_last() == f@.subrange(0, i as int));
        proof {
            lemma_equal_runs_shape(f@.subrange(0, i as int));
        }
        if f[i - 1] != f[i] {
            result.push((run_start, i));
            run_start = i;
        }
        i = i + 1;
    }
    result.push((run_start, f.len()));
    assert(f@.subrange(0, f.len() as int) == f@);
    result
}

/// The entries grouped into ligature sets: runs that share their first glyph.
pub open spec fn ligature_groups(es: Seq<(Seq<u16>, u16)>) -> Seq<Seq<(Seq<u16>, u16)>> {
    equal_runs(first_glyph_seq(es)).map_values(|b: (nat, nat)| es.subrange(b.0 as int, b.1 as int))
}

/// The first glyph of each ligature set, which the coverage table lists.
pub open spec fn covered_glyphs(es: Seq<(Seq<u16>, u16)>) -> Seq<u16> {
    equal_runs(first_glyph_seq(es)).map_values(|b: (nat, nat)| es[b.0 as int].0[0])
}

/// A ligature: its replacement glyph, its number of input glyphs, then the
/// input glyphs after the first.
pub open spec fn ligature_bytes(e: (Seq<u16>, u16)) -> Seq<u8> {
    be16(e.1) + be16(e.0.len() as u16) + be16_seq(e.0.drop_first())
}

/// The ligatures of a set, one after another.
pub open spec fn ligatures_bytes(grp: Seq<(Seq<u16>, u16)>) -> Seq<u8>
    decreases grp.len(),
{
    if grp.len() == 0 {
        Seq::empty()
    } else {
        ligatures_bytes(grp.drop_last()) + ligature_bytes(grp.last())
    }
}

/// Where each ligature starts, from the start of its set.
pub open spec fn ligature_offsets(grp: Seq<(Seq<u16>, u16)>) -> Seq<u16> {
    Seq::new(grp.len(), |i: int| (2 + 2 * grp.len() + ligatures_bytes(grp.take(i)).len()) as u16)
}

/// A ligature set: the count, the offsets, then the ligatures.
pub open spec fn set_bytes(grp: Seq<(Seq<u16>, u16)>) -> Seq<u8> {
    be16(grp.len() as u16) + be16_seq(ligature_offsets(grp)) + ligatures_bytes(grp)
}

/// The ligature sets, one after another.
pub open spec fn sets_bytes(gs: Seq<Seq<(Seq<u16>, u16)>>) -> Seq<u8>
    decreases gs.len(),
{
    if gs.len() == 0 {
        Seq::empty()
    } else {
        sets_bytes(gs.drop_last()) + set_bytes(gs.last())
    }
}

/// Where each ligature set starts, when the first starts at `start`.
pub open spec fn set_offsets(start: int, gs: Seq<Seq<(Seq<u16>, u16)>>) -> Seq<u16> {
    Seq::new(gs.len(), |i: int| (start + sets_bytes(gs.take(i)).len()) as u16)
}

/// Where the coverage table starts: after the format word, the coverage
/// offset, the count and one offset per ligature set.
pub open spec fn ligature_coverage_start(es: Seq<(Seq<u16>, u16)>) -> int {
    (6 + 2 * ligature_groups(es).len()) as int
}

/// Where the first ligature set starts: after the coverage table.
pub open spec fn ligature_sets_start(es: Seq<(Seq<u16>, u16)>) -> int {
    ligature_coverage_start(es) + coverage_encoding(covered_glyphs(es)).len()
}

/// Whether every offset and count of the subtable fits in 16 bits.
pub open spec fn ligature_subst_fits(es: Seq<(Seq<u16>, u16)>) -> bool {
    let gs = ligature_groups(es);
    &&& ligature_coverage_start(es) <= 65535
    &&& forall|i: int| 0 <= i < es.len() ==> #[trigger] es[i].0.len() <= 65535
    &&& forall|i: int|
        0 <= i < gs.len() ==> ligature_sets_start(es) + #[trigger] sets_bytes(gs.take(i)).len() <= 65535
    &&& forall|i: int| 0 <= i < gs.len() ==> #[trigger] gs[i].len() <= 65535
    &&& forall|i: int, j: int|
        0 <= i < gs.len() && 0 <= j < gs[i].len() ==> 2 + 2 * gs[i].len() + #[trigger] ligatures_bytes(
            gs[i].take(j),
        ).len() <= 65535
}

/// The bytes of the format 1 subtable: format, coverage offset, set count,
/// set offsets, then the coverage table and the ligature sets, each followed
/// by its ligatures.
pub open spec fn ligature_subst_encoding(es: Seq<(Seq<u16>, u16)>) -> Seq<u8> {
    let gs = ligature_groups(es);
    be16(1) + be16(ligature_coverage_start(es) as u16) + be16(gs.len() as u16) + be16_seq(
        set_offsets(ligature_sets_start(es), gs),
    ) + coverage_encoding(covered_glyphs(es)) + sets_bytes(gs)
}

/// Input sequences that are all non-empty.
pub open spec fn keys_nonempty(es: Seq<(Seq<u16>, u16)>) -> bool {
    forall|i: int| 0 <= i < es.len() ==> #[trigger] es[i].0.len() > 0
}

proof fn lemma_lex_head(a: Seq<u16>, b: Seq<u16>)
    requires
        lex_lt(a, b),
        a.len() > 0,
        b.len() > 0,
    ensures
        a[0] <= b[0],
{
}

proof fn lemma_runs_ordered(f: Seq<u16>, k: int, l: int)
    requires
        0 <= k < l < equal_runs(f).len(),
    ensures
        equal_runs(f)[k].1 <= equal_runs(f)[l].0,
    decreases l - k,
{
    lemma_equal_runs_shape(f);
    if l > k + 1 {
        lemma_runs_ordered(f, k, l - 1);
    }
}

/// The first glyphs of the ligature sets are strictly increasing.
#[verifier::spinoff_prover]
proof fn lemma_covered_increasing(es: Seq<(Seq<u16>, u16)>)
    requires
        entries_sorted(es),
        keys_nonempty(es),
    ensures
        crate::layout::ordered::strictly_increasing(covered_glyphs(es)),
        covered_glyphs(es).len() == ligature_groups(es).len(),
{
    let f = first_glyph_seq(es);
    let r = equal_runs(f);
    let c = covered_glyphs(es);
    lemma_equal_runs_shape(f);
    assert forall|i: int, j: int| 0 <= i <= j < f.len() implies f[i] <= f[j] by {
        if i < j {
            lemma_lex_head(es[i].0, es[j].0);
        }
    }
    assert forall|k: int, l: int| 0 <= k < l < c.len() implies c[k] < c[l] by {
        lemma_runs_ordered(f, k, l);
        lemma_equal_runs_break(f, l);
        assert(c[k] == f[r[k].0 as int]);
        assert(c[l] == f[r[l].0 as int]);
        assert(f[r[l].0 - 1] >= f[r[k].0 as int]);
        assert(f[r[l].0 as int] >= f[r[l].0 - 1]);
    }
}

/// The bytes of a ligature take two bytes per input glyph, and two more.
proof fn lemma_ligature_bytes_len(e: (Seq<u16>, u16))
    requires
        e.0.len() > 0,
    ensures
        ligature_bytes(e).len() == 2 + 2 * e.0.len(),
{
    lemma_be16_seq_len(e.0.drop_first());
}

fn push_ligature(out: &mut Vec<u8>, key: &Vec<u16>, glyph: u16)
    requires
        key@.len() > 0,
        key@.len() <= 65535,
    ensures
        final(out)@ == old(out)@ + ligature_bytes((key@, glyph)),
{
    push_u16(out, glyph);
    push_u16(out, key.len() as u16);
    let ghost head = out@;
    let mut i: usize = 1;
    while i < key.len()
        invariant
            1 <= i <= key@.len(),
            out@ == head + be16_seq(key@.drop_first().take(i - 1)),
        decreases key.len() - i,
    {
        let ghost before = out@;
        push_u16(out, key[i]);
        proof {
            let t = key@.drop_first().take(i as int);
            assert(t.drop_last() == key@.drop_first().take(i - 1));
            assert(t.last() == key@[i as int]);
        }
        i = i + 1;
    }
    assert(key@.drop_first().take(key@.len() - 1) == key@.drop_first());
}

/// Whether a ligature set's count and ligature offsets fit in 16 bits.
pub open spec fn set_fits(grp: Seq<(Seq<u16>, u16)>) -> bool {
    &&& grp.len() <= 65535
    &&& forall|j: int|
        0 <= j < grp.len() ==> 2 + 2 * grp.len() + #[trigger] ligatures_bytes(grp.take(j)).len() <= 65535
}

/// Writes the ligature set of entries `a..b`.
fn set_to_bytes(m: &Vec<(Vec<u16>, u16)>, a: usize, b: usize) -> (r: Result<Vec<u8>, SerializationError>)
    requires
        a < b <= m@.len(),
        keys_nonempty(entries_view(m@)),
        forall|i: int| 0 <= i < m@.len() ==> #[trigger] m@[i].0@.len() <= 65535,
    ensures
        match r {
            Ok(v) => set_fits(entries_view(m@).subrange(a as int, b as int)) && v@ == set_bytes(
                entries_view(m@).subrange(a as int, b as int),
            ),
            Err(e) => !set_fits(entries_view(m@).subrange(a as int, b as int)),
        },
{
    let ghost grp = entries_view(m@).subrange(a as int, b as int);
    let count = b - a;
    if count > 65535 {
        return Err(SerializationError::OffsetOverflow);
    }
    let mut offsets: Vec<u16> = Vec::new();
    let mut ligs: Vec<u8> = Vec::new();
    let mut off: usize = 2 + 2 * count;
    let mut j: usize = 0;
    while j < count
        invariant
            j <= count,
            count == b - a,
            count <= 65535,
            a < b <= m@.len(),
            grp == entries_view(m@).subrange(a as int, b as int),
            keys_nonempty(entries_view(m@)),
            forall|i: int| 0 <= i < m@.len() ==> #[trigger] m@[i].0@.len() <= 65535,
            ligs@ == ligatures_bytes(grp.take(j as int)),
            off == 2 + 2 * count + ligs@.len(),
            off <= 65535 + 2 * 65536,
            offsets@ == ligature_offsets(grp).take(j as int),
            forall|t: int| 0 <= t < j ==> 2 + 2 * count + #[trigger] ligatures_bytes(grp.take(t)).len() <= 65535,
        decreases count - j,
    {
        if off > 65535 {
            assert(ligatures_bytes(grp.take(j as int)).len() == ligs@.len());
            return Err(SerializationError::OffsetOverflow);
        }
        offsets.push(off as u16);
        let key = &m[a + j].0;
        assert(grp[j as int] == (key@, m@[a + j].1));
        assert(entries_view(m@)[a + j].0.len() > 0);
        push_ligature(&mut ligs, key, m[a + j].1);
        proof {
            assert(grp.take(j + 1).drop_last() == grp.take(j as int));
            assert(grp.take(j + 1).last() == grp[j as int]);
            lemma_ligature_bytes_len(grp[j as int]);
            assert(offsets@ == ligature_offsets(grp).take(j + 1));
        }
        off = off + 2 + 2 * key.len();
        j = j + 1;
    }
    proof {
        assert(grp.take(count as int) == grp);
        assert(ligature_offsets(grp).take(count as int) == ligature_offsets(grp));
    }
    let mut out: Vec<u8> = Vec::new();
    push_u16(&mut out, count as u16);
    push_u16_slice(&mut out, offsets.as_slice());
    push_bytes(&mut out, ligs.as_slice());
    Ok(out)
}

impl LigatureSubst {
    /// Maps the input sequence `key` to `glyph`, in its place in the order;
    /// an existing entry for `key` takes the new replacement.
    pub fn insert(&mut self, key: Vec<u16>, glyph: u16)
        requires
            ligature_map_wf(old(self).mapping@),
        ensures
            ligature_map_wf(final(self).mapping@),
            final(self)@ == old(self)@.insert(key@, glyph),
    {
        insert_entry(&mut self.mapping, key, glyph);
    }

    /// Writes the format 1 subtable: the ligatures are grouped into sets by
    /// their first glyph, in increasing order, each set followed by its
    /// ligatures. Fails where an offset or a count would not fit in 16 bits.
    pub fn to_bytes(&self) -> (r: Result<Vec<u8>, SerializationError>)
        requires
            ligature_map_wf(self.mapping@),
            keys_nonempty(entries_view(self.mapping@)),
        ensures
            match r {
                Ok(b) => ligature_subst_fits(entries_view(self.mapping@)) && b@ == ligature_subst_encoding(
                    entries_view(self.mapping@),
                ),
                Err(e) => !ligature_subst_fits(entries_view(self.mapping@)) && e
                    == SerializationError::OffsetOverflow,
            },
    {
        let ghost es = entries_view(self.mapping@);
        let ghost gs = ligature_groups(es);
        let n = self.mapping.len();
        let mut firsts: Vec<u16> = Vec::new();
        let mut i: usize = 0;
        while i < n
            invariant
                i <= n,
                n == self.mapping@.len(),
                es == entries_view(self.mapping@),
                keys_nonempty(es),
                firsts@ == first_glyph_seq(es).take(i as int),
                forall|t: int| 0 <= t < i ==> #[trigger] self.mapping@[t].0@.len() <= 65535,
            decreases n - i,
        {
            let key = &self.mapping[i].0;
            assert(es[i as int].0 == key@);
            if key.len() > 65535 {
                assert(es[i as int].0.len() > 65535);
                return Err(SerializationError::OffsetOverflow);
            }
            firsts.push(key[0]);
            assert(first_glyph_seq(es).take(i + 1) == first_glyph_seq(es).take(i as int).push(key@[0]));
            i = i + 1;
        }
        assert(firsts@ == first_glyph_seq(es));
        let runs = equal_run_bounds(&firsts);
        let ng = runs.len();
        proof {
            lemma_equal_runs_shape(firsts@);
            lemma_covered_increasing(es);
        }
        if ng > 32764 {
            return Err(SerializationError::OffsetOverflow);
        }
        let mut covered: Vec<u16> = Vec::new();
        let mut k: usize = 0;
        while k < ng
            invariant
                k <= ng,
                ng == runs@.len(),
                runs@.len() == equal_runs(firsts@).len(),
                firsts@ == first_glyph_seq(es),
                es == entries_view(self.mapping@),
                forall|t: int|
                    0 <= t < runs@.len() ==> (#[trigger] runs@[t]).0 == equal_runs(firsts@)[t].0 && runs@[t].1
                        == equal_runs(firsts@)[t].1,
                forall|t: int|
                    0 <= t < equal_runs(firsts@).len() ==> #[trigger] equal_runs(firsts@)[t].0 < equal_runs(
                        firsts@,
                    )[t].1 <= firsts@.len(),
                covered@ == covered_glyphs(es).take(k as int),
            decreases ng - k,
        {
            let (a, _b) = runs[k];
            covered.push(firsts[a]);
            assert(covered_glyphs(es).take(k + 1) == covered_glyphs(es).take(k as int).push(firsts@[a as int]));
            k = k + 1;
        }
        assert(covered@ == covered_glyphs(es));
        let coverage = Coverage { glyphs: covered };
        assert(crate::coverage::no_inner_max_glyph(coverage.glyphs@)) by {
            assert forall|t: int| 0 <= t < coverage.glyphs@.len() - 1 implies coverage.glyphs@[t] != 65535 by {
                assert(coverage.glyphs@[t] < coverage.glyphs@[t + 1]);
            }
        }
        let cov = coverage.to_bytes();
        if ng > 0 && cov.len() > 65535 {
            proof {
                assert(gs.take(0) == Seq::<Seq<(Seq<u16>, u16)>>::empty());
                assert(sets_bytes(gs.take(0)).len() == 0);
            }
            return Err(SerializationError::OffsetOverflow);
        }
        if ng == 0 {
            assert(cov@.len() == 4);
        }
        let start: usize = 6 + 2 * ng + cov.len();
        let mut set_offs: Vec<u16> = Vec::new();
        let mut sets: Vec<u8> = Vec::new();
        let mut off: usize = start;
        let mut k: usize = 0;
        while k < ng
            invariant
                k <= ng,
                ng <= 32764,
                ng == runs@.len(),
                gs == ligature_groups(es),
                gs.len() == ng,
                es == entries_view(self.mapping@),
                keys_nonempty(es),
                forall|t: int| 0 <= t < self.mapping@.len() ==> #[trigger] self.mapping@[t].0@.len() <= 65535,
                firsts@ == first_glyph_seq(es),
                forall|t: int|
                    0 <= t < runs@.len() ==> (#[trigger] runs@[t]).0 == equal_runs(firsts@)[t].0 && runs@[t].1
                        == equal_runs(firsts@)[t].1,
                forall|t: int|
                    0 <= t < equal_runs(firsts@).len() ==> #[trigger] equal_runs(firsts@)[t].0 < equal_runs(
                        firsts@,
                    )[t].1 <= firsts@.len(),
                firsts@.len() == self.mapping@.len(),
                start == ligature_sets_start(es),
                start <= 6 + 2 * 32764 + 65535,
                sets@ == sets_bytes(gs.take(k as int)),
                off == start + sets@.len(),
                off <= 65535 + 65535 + 2 + 2 * 65535 + start,
                set_offs@ == set_offsets(start as int, gs).take(k as int),
                forall|t: int| 0 <= t < k ==> start + #[trigger] sets_bytes(gs.take(t)).len() <= 65535,
                forall|t: int| 0 <= t < k ==> set_fits(#[trigger] gs[t]),
            decreases ng - k,
        {
            if off > 65535 {
                assert(sets_bytes(gs.take(k as int)).len() == sets@.len());
                return Err(SerializationError::OffsetOverflow);
            }
            set_offs.push(off as u16);
            let (a, b) = runs[k];
            assert(gs[k as int] == es.subrange(a as int, b as int));
            let sb = match set_to_bytes(&self.mapping, a, b) {
                Ok(v) => v,
                Err(e) => {
                    proof {
                        lemma_set_fits_needed(es, k as int);
                    }
                    return Err(SerializationError::OffsetOverflow);
                },
            };
            proof {
                lemma_set_bytes_len(gs[k as int]);
            }
            push_bytes(&mut sets, sb.as_slice());
            proof {
                assert(gs.take(k + 1).drop_last() == gs.take(k as int));
                assert(gs.take(k + 1).last() == gs[k as int]);
                assert(set_offs@ == set_offsets(start as int, gs).take(k + 1));
            }
            off = off + sb.len();
            k = k + 1;
        }
        proof {
            assert(gs.take(ng as int) == gs);
            assert(set_offsets(start as int, gs).take(ng as int) == set_offsets(start as int, gs));
            lemma_fits_from_sets(es);
        }
        let mut out: Vec<u8> = Vec::new();
        push_u16(&mut out, 1);
        push_u16(&mut out, (6 + 2 * ng) as u16);
        push_u16(&mut out, ng as u16);
        push_u16_slice(&mut out, set_offs.as_slice());
        push_bytes(&mut out, cov.as_slice());
        push_bytes(&mut out, sets.as_slice());
        Ok(out)
    }
}

/// A set that does not fit makes the subtable not fit.
proof fn lemma_set_fits_needed(es: Seq<(Seq<u16>, u16)>, k: int)
    requires
        0 <= k < ligature_groups(es).len(),
        !set_fits(ligature_groups(es)[k]),
    ensures
        !ligature_subst_fits(es),
{
    let gs = ligature_groups(es);
    if gs[k].len() <= 65535 {
        let j = choose|j: int|
            0 <= j < gs[k].len() && !(2 + 2 * gs[k].len() + #[trigger] ligatures_bytes(gs[k].take(j)).len()
                <= 65535);
        assert(!(2 + 2 * gs[k].len() + ligatures_bytes(gs[k].take(j)).len() <= 65535));
    }
}

/// A ligature set is bounded in size by its offsets and its last ligature.
proof fn lemma_set_bytes_len(grp: Seq<(Seq<u16>, u16)>)
    requires
        set_fits(grp),
        keys_nonempty(grp),
        forall|i: int| 0 <= i < grp.len() ==> #[trigger] grp[i].0.len() <= 65535,
    ensures
        set_bytes(grp).len() <= 65535 + 2 + 2 * 65535,
{
    lemma_be16_seq_len(ligature_offsets(grp));
    if grp.len() > 0 {
        let l = grp.len() - 1;
        assert(2 + 2 * grp.len() + ligatures_bytes(grp.take(l)).len() <= 65535);
        assert(grp.take(grp.len() as int).drop_last() == grp.take(l));
        assert(grp.take(grp.len() as int) == grp);
        lemma_ligature_bytes_len(grp.last());
        assert(ligatures_bytes(grp) == ligatures_bytes(grp.take(l)) + ligature_bytes(grp.last()));
    } else {
        assert(ligatures_bytes(grp) == Seq::<u8>::empty());
    }
}

/// Where every set fits and every offset after the coverage table fits, the subtable fits.
proof fn lemma_fits_from_sets(es: Seq<(Seq<u16>, u16)>)
    requires
        ligature_coverage_start(es) <= 65535,
        forall|i: int| 0 <= i < es.len() ==> #[trigger] es[i].0.len() <= 65535,
        forall|t: int|
            0 <= t < ligature_groups(es).len() ==> ligature_sets_start(es) + #[trigger] sets_bytes(
                ligature_groups(es).take(t),
            ).len() <= 65535,
        forall|t: int| 0 <= t < ligature_groups(es).len() ==> set_fits(#[trigger] ligature_groups(es)[t]),
    ensures
        ligature_subst_fits(es),
{
}

/// The ligatures of a set as they read back: the replacement glyph and the
/// input glyphs after the first.
pub open spec fn group_read_view(grp: Seq<(Seq<u16>, u16)>) -> Seq<(u16, Seq<u16>)> {
    grp.map_values(|e: (Seq<u16>, u16)| (e.1, e.0.drop_first()))
}

proof fn lemma_u16_at_sub(s: Seq<u8>, p: int, x: Seq<u8>, i: int)
    requires
        0 <= p,
        p + x.len() <= s.len(),
        s.subrange(p, p + x.len()) == x,
        0 <= i,
        i + 2 <= x.len(),
    ensures
        u16_at(s, p + i) == u16_at(x, i),
{
    assert(s[p + i] == x[i]);
    assert(s[p + i + 1] == x[i + 1]);
}

/// Ligature `j` lies in `ligatures_bytes(grp)` right after those before it.
#[verifier::spinoff_prover]
proof fn lemma_ligatures_bytes_at(grp: Seq<(Seq<u16>, u16)>, j: int)
    requires
        0 <= j < grp.len(),
    ensures
        ligatures_bytes(grp.take(j)).len() + ligature_bytes(grp[j]).len() <= ligatures_bytes(grp).len(),
        ligatures_bytes(grp).subrange(
            ligatures_bytes(grp.take(j)).len() as int,
            (ligatures_bytes(grp.take(j)).len() + ligature_bytes(grp[j]).len()) as int,
        ) == ligature_bytes(grp[j]),
    decreases grp.len(),
{
    let p = grp.drop_last();
    if j == grp.len() - 1 {
        assert(grp.take(j) == p);
    } else {
        lemma_ligatures_bytes_at(p, j);
        assert(p.take(j) == grp.take(j));
        assert(p[j] == grp[j]);
        let a = ligatures_bytes(grp.take(j)).len() as int;
        let b = ligature_bytes(grp[j]).len() as int;
        let whole = ligatures_bytes(p) + ligature_bytes(grp.last());
        assert(whole.subrange(a, a + b) == ligatures_bytes(p).subrange(a, a + b));
    }
}

/// Set `k` lies in `sets_bytes(gs)` right after those before it.
#[verifier::spinoff_prover]
proof fn lemma_sets_bytes_at(gs: Seq<Seq<(Seq<u16>, u16)>>, k: int)
    requires
        0 <= k < gs.len(),
    ensures
        sets_bytes(gs.take(k)).len() + set_bytes(gs[k]).len() <= sets_bytes(gs).len(),
        sets_bytes(gs).subrange(
            sets_bytes(gs.take(k)).len() as int,
            (sets_bytes(gs.take(k)).len() + set_bytes(gs[k]).len()) as int,
        ) == set_bytes(gs[k]),
    decreases gs.len(),
{
    let p = gs.drop_last();
    if k == gs.len() - 1 {
        assert(gs.take(k) == p);
    } else {
        lemma_sets_bytes_at(p, k);
        assert(p.take(k) == gs.take(k));
        assert(p[k] == gs[k]);
        let a = sets_bytes(gs.take(k)).len() as int;
        let b = set_bytes(gs[k]).len() as int;
        let whole = sets_bytes(p) + set_bytes(gs.last());
        assert(whole.subrange(a, a + b) == sets_bytes(p).subrange(a, a + b));
    }
}

/// A ligature written at `p` reads back.
#[verifier::spinoff_prover]
proof fn lemma_ligature_read(s: Seq<u8>, p: int, e: (Seq<u16>, u16))
    requires
        1 <= e.0.len() <= 65535,
        0 <= p,
        p + ligature_bytes(e).len() <= s.len(),
        s.subrange(p, p + ligature_bytes(e).len()) == ligature_bytes(e),
    ensures
        ligature_decoding(s, p) == Some((e.1, e.0.drop_first())),
{
    let x = ligature_bytes(e);
    let rest = e.0.drop_first();
    let em = Seq::<u8>::empty();
    lemma_be16_seq_len(rest);
    crate::binary::lemma_read_be16(em, e.1, be16(e.0.len() as u16) + be16_seq(rest));
    assert(em + be16(e.1) + (be16(e.0.len() as u16) + be16_seq(rest)) == x);
    crate::binary::lemma_read_be16(be16(e.1), e.0.len() as u16, be16_seq(rest));
    lemma_u16_at_sub(s, p, x, 0);
    lemma_u16_at_sub(s, p, x, 2);
    assert forall|k: int| 0 <= k < rest.len() implies #[trigger] u16_at(s, p + 4 + 2 * k) == rest[k] by {
        crate::binary::lemma_read_be16_seq(be16(e.1) + be16(e.0.len() as u16), rest, em, k);
        assert(be16(e.1) + be16(e.0.len() as u16) + be16_seq(rest) + em == x);
        lemma_u16_at_sub(s, p, x, 4 + 2 * k);
    }
    assert(Seq::new((u16_at(s, p + 2) - 1) as nat, |k: int| u16_at(s, p + 4 + 2 * k)) == rest);
}

/// The facts about a written ligature set that reading it needs.
pub open spec fn set_written_at(s: Seq<u8>, base: int, grp: Seq<(Seq<u16>, u16)>) -> bool {
    &&& set_fits(grp)
    &&& keys_nonempty(grp)
    &&& forall|i: int| 0 <= i < grp.len() ==> #[trigger] grp[i].0.len() <= 65535
    &&& 0 <= base
    &&& base + set_bytes(grp).len() <= s.len()
    &&& s.subrange(base, base + set_bytes(grp).len()) == set_bytes(grp)
}

/// The first `j` ligatures of a written set read back.
#[verifier::spinoff_prover]
#[verifier::rlimit(30)]
proof fn lemma_set_ligatures_read(s: Seq<u8>, base: int, grp: Seq<(Seq<u16>, u16)>, j: nat)
    requires
        set_written_at(s, base, grp),
        j <= grp.len(),
    ensures
        set_ligatures(s, base, j) == Some(group_read_view(grp).take(j as int)),
    decreases j,
{
    let x = set_bytes(grp);
    let n = grp.len();
    let offs = ligature_offsets(grp);
    let ligs = ligatures_bytes(grp);
    let em = Seq::<u8>::empty();
    if j == 0 {
        assert(group_read_view(grp).take(0) == Seq::<(u16, Seq<u16>)>::empty());
    } else {
        let k = (j - 1) as int;
        lemma_set_ligatures_read(s, base, grp, (j - 1) as nat);
        lemma_be16_seq_len(offs);
        crate::binary::lemma_read_be16_seq(be16(n as u16), offs, ligs, k);
        lemma_u16_at_sub(s, base, x, 2 + 2 * k);
        let a = ligatures_bytes(grp.take(k)).len() as int;
        assert(2 + 2 * n + a <= 65535);
        let off = u16_at(s, base + 2 + 2 * k);
        assert(off == 2 + 2 * n + a);
        lemma_ligatures_bytes_at(grp, k);
        let lb = ligature_bytes(grp[k]);
        let pre = be16(n as u16) + be16_seq(offs);
        assert(x == pre + ligs);
        assert(pre.len() == 2 + 2 * n);
        let w = s.subrange(base + off, base + off + lb.len());
        assert forall|t: int| 0 <= t < lb.len() implies #[trigger] w[t] == lb[t] by {
            assert(s.subrange(base, base + x.len())[off + t] == x[off + t]);
            assert(ligs.subrange(a, a + lb.len())[t] == ligs[a + t]);
        }
        assert(w =~= lb);
        assert(grp[k].0.len() > 0);
        lemma_ligature_read(s, base + off, grp[k]);
        assert(group_read_view(grp).take(j as int) == group_read_view(grp).take(k).push(
            (grp[k].1, grp[k].0.drop_first()),
        ));
    }
}

/// A written ligature set reads back.
#[verifier::spinoff_prover]
proof fn lemma_set_read(s: Seq<u8>, base: int, grp: Seq<(Seq<u16>, u16)>)
    requires
        set_written_at(s, base, grp),
    ensures
        ligature_set_decoding(s, base) == Some(group_read_view(grp)),
{
    let x = set_bytes(grp);
    let n = grp.len();
    let offs = ligature_offsets(grp);
    lemma_be16_seq_len(offs);
    crate::binary::lemma_read_be16(Seq::<u8>::empty(), n as u16, be16_seq(offs) + ligatures_bytes(grp));
    assert(Seq::<u8>::empty() + be16(n as u16) + (be16_seq(offs) + ligatures_bytes(grp)) == x);
    lemma_u16_at_sub(s, base, x, 0);
    lemma_set_ligatures_read(s, base, grp, n);
    assert(group_read_view(grp).take(n as int) == group_read_view(grp));
}

/// The header, coverage table and ligature sets of an encoded subtable lie
/// where its offsets say.
#[verifier::spinoff_prover]
proof fn lemma_ligature_layout(es: Seq<(Seq<u16>, u16)>)
    requires
        ligature_subst_fits(es),
    ensures
        ({
            let s = ligature_subst_encoding(es);
            let gs = ligature_groups(es);
            &&& s.len() >= 6
            &&& u16_at(s, 2) == ligature_coverage_start(es)
            &&& u16_at(s, 4) == gs.len()
            &&& forall|k: int|
                0 <= k < gs.len() ==> #[trigger] u16_at(s, 6 + 2 * k) == set_offsets(
                    ligature_sets_start(es),
                    gs,
                )[k]
            &&& coverage_part(s) == coverage_encoding(covered_glyphs(es)) + sets_bytes(gs)
            &&& ligature_sets_start(es) <= s.len()
            &&& s.subrange(ligature_sets_start(es), s.len() as int) == sets_bytes(gs)
        }),
{
    let gs = ligature_groups(es);
    let n = gs.len();
    let cs = ligature_coverage_start(es) as u16;
    let start = ligature_sets_start(es);
    let offs = set_offsets(start, gs);
    let c = coverage_encoding(covered_glyphs(es));
    let b = sets_bytes(gs);
    let h = be16(1) + be16(cs) + be16(n as u16);
    let s = ligature_subst_encoding(es);
    lemma_be16_seq_len(offs);
    assert(s == h + be16_seq(offs) + c + b);
    crate::binary::lemma_read_be16(be16(1), cs, be16(n as u16) + be16_seq(offs) + c + b);
    assert(be16(1) + be16(cs) + (be16(n as u16) + be16_seq(offs) + c + b) == s);
    crate::binary::lemma_read_be16(be16(1) + be16(cs), n as u16, be16_seq(offs) + c + b);
    assert(be16(1) + be16(cs) + be16(n as u16) + (be16_seq(offs) + c + b) == s);
    assert forall|k: int| 0 <= k < n implies #[trigger] u16_at(s, 6 + 2 * k) == offs[k] by {
        crate::binary::lemma_read_be16_seq(h, offs, c + b, k);
        assert(h + be16_seq(offs) + (c + b) == s);
    }
    assert(coverage_part(s) =~= c + b);
    assert(s.subrange(start, s.len() as int) =~= b);
}

/// The ligature sets of an encoded subtable read back, one by one.
#[verifier::spinoff_prover]
proof fn lemma_ligature_sets_read(es: Seq<(Seq<u16>, u16)>, s: Seq<u8>, n: nat)
    requires
        ligature_subst_fits(es),
        keys_nonempty(es),
        s == ligature_subst_encoding(es),
        n <= ligature_groups(es).len(),
        forall|k: int|
            0 <= k < ligature_groups(es).len() ==> #[trigger] u16_at(s, 6 + 2 * k) == set_offsets(
                ligature_sets_start(es),
                ligature_groups(es),
            )[k],
        ligature_sets_start(es) <= s.len(),
        s.subrange(ligature_sets_start(es), s.len() as int) == sets_bytes(ligature_groups(es)),
    ensures
        ligature_sets_decoding(s, n) == Some(
            ligature_groups(es).map_values(|g: Seq<(Seq<u16>, u16)>| group_read_view(g)).take(n as int),
        ),
    decreases n,
{
    let gs = ligature_groups(es);
    let gv = gs.map_values(|g: Seq<(Seq<u16>, u16)>| group_read_view(g));
    let start = ligature_sets_start(es);
    if n == 0 {
        assert(gv.take(0) == Seq::<Seq<(u16, Seq<u16>)>>::empty());
    } else {
        let k = (n - 1) as int;
        lemma_ligature_sets_read(es, s, k as nat);
        let a = sets_bytes(gs.take(k)).len() as int;
        let off = u16_at(s, 6 + 2 * k);
        assert(start + a <= 65535);
        assert(off == start + a);
        assert(start >= 6);
        lemma_sets_bytes_at(gs, k);
        let x = set_bytes(gs[k]);
        let tail = s.subrange(start, s.len() as int);
        let w = s.subrange(start + a, start + a + x.len());
        assert forall|t: int| 0 <= t < x.len() implies #[trigger] w[t] == x[t] by {
            assert(tail[a + t] == s[start + a + t]);
            assert(sets_bytes(gs).subrange(a, a + x.len())[t] == sets_bytes(gs)[a + t]);
        }
        assert(w =~= x);
        lemma_group_entries(es, k);
        lemma_set_read(s, start + a, gs[k]);
        assert(gv.take(n as int) == gv.take(k).push(gv[k]));
    }
}

/// The entries of a ligature set are those of a run of `es`, and share its first glyph.
#[verifier::spinoff_prover]
proof fn lemma_group_entries(es: Seq<(Seq<u16>, u16)>, k: int)
    requires
        ligature_subst_fits(es),
        keys_nonempty(es),
        0 <= k < ligature_groups(es).len(),
    ensures
        set_fits(ligature_groups(es)[k]),
        keys_nonempty(ligature_groups(es)[k]),
        forall|i: int|
            0 <= i < ligature_groups(es)[k].len() ==> #[trigger] ligature_groups(es)[k][i].0.len() <= 65535,
        forall|i: int|
            0 <= i < ligature_groups(es)[k].len() ==> #[trigger] ligature_groups(es)[k][i].0[0]
                == covered_glyphs(es)[k],
{
    let f = first_glyph_seq(es);
    let r = equal_runs(f);
    let gs = ligature_groups(es);
    lemma_equal_runs_shape(f);
    assert(gs[k] == es.subrange(r[k].0 as int, r[k].1 as int));
    let gs_k = gs[k];
    assert(set_fits(gs_k)) by {
        assert forall|j: int| 0 <= j < gs_k.len() implies 2 + 2 * gs_k.len() + #[trigger] ligatures_bytes(
            gs_k.take(j),
        ).len() <= 65535 by {
            assert(2 + 2 * gs[k].len() + ligatures_bytes(gs[k].take(j)).len() <= 65535);
        }
    }
    assert forall|i: int| 0 <= i < gs_k.len() implies #[trigger] gs_k[i].0.len() > 0 by {
        assert(gs_k[i] == es[r[k].0 + i]);
    }
    assert forall|i: int| 0 <= i < gs_k.len() implies #[trigger] gs_k[i].0.len() <= 65535 by {
        assert(gs_k[i] == es[r[k].0 + i]);
    }
    assert forall|i: int| 0 <= i < gs_k.len() implies #[trigger] gs_k[i].0[0] == covered_glyphs(es)[k] by {
        assert(gs_k[i] == es[r[k].0 + i]);
        lemma_equal_runs_value(f, k, r[k].0 + i);
    }
}

/// Adding the ligatures of the sets, keyed by their first glyph, rebuilds the
/// mapping of the first `k` runs of entries.
#[verifier::spinoff_prover]
proof fn lemma_insert_sets_rebuild(es: Seq<(Seq<u16>, u16)>, k: nat)
    requires
        ligature_subst_fits(es),
        keys_nonempty(es),
        1 <= k <= ligature_groups(es).len(),
    ensures
        insert_sets(
            covered_glyphs(es),
            ligature_groups(es).map_values(|g: Seq<(Seq<u16>, u16)>| group_read_view(g)),
            k,
        ) == entries_map(es.take(equal_runs(first_glyph_seq(es))[k - 1].1 as int)),
    decreases k,
{
    let f = first_glyph_seq(es);
    let r = equal_runs(f);
    let gs = ligature_groups(es);
    let gv = gs.map_values(|g: Seq<(Seq<u16>, u16)>| group_read_view(g));
    let c = covered_glyphs(es);
    lemma_equal_runs_shape(f);
    let j = (k - 1) as int;
    let m0 = if k == 1 {
        assert(insert_sets(c, gv, 0) == Map::<Seq<u16>, u16>::empty());
        assert(es.take(0) == Seq::<(Seq<u16>, u16)>::empty());
        entries_map(es.take(0))
    } else {
        lemma_insert_sets_rebuild(es, (k - 1) as nat);
        assert(r[j - 1].1 == r[j].0);
        entries_map(es.take(r[j].0 as int))
    };
    assert(r[j].0 == 0 || k > 1);
    assert(insert_sets(c, gv, (k - 1) as nat) == entries_map(es.take(r[j].0 as int)));
    lemma_group_entries(es, j);
    lemma_insert_set_rebuild(es, r[j].0 as int, gs[j], c[j], gs[j].len());
    assert(gs[j] == es.subrange(r[j].0 as int, r[j].1 as int));
    assert(gv[j] == group_read_view(gs[j]));
    assert(group_read_view(gs[j]).take(gs[j].len() as int) == group_read_view(gs[j]));
}

/// Adding the first `j` ligatures of a set that starts at entry `a` extends the
/// mapping of the entries before `a` to those before `a + j`.
#[verifier::spinoff_prover]
proof fn lemma_insert_set_rebuild(
    es: Seq<(Seq<u16>, u16)>,
    a: int,
    grp: Seq<(Seq<u16>, u16)>,
    first: u16,
    j: nat,
)
    requires
        0 <= a,
        a + grp.len() <= es.len(),
        grp == es.subrange(a, a + grp.len()),
        keys_nonempty(grp),
        forall|i: int| 0 <= i < grp.len() ==> #[trigger] grp[i].0[0] == first,
        j <= grp.len(),
    ensures
        insert_set(entries_map(es.take(a)), first, group_read_view(grp).take(j as int)) == entries_map(
            es.take(a + j),
        ),
    decreases j,
{
    if j == 0 {
        assert(group_read_view(grp).take(0) == Seq::<(u16, Seq<u16>)>::empty());
    } else {
        let i = (j - 1) as int;
        lemma_insert_set_rebuild(es, a, grp, first, (j - 1) as nat);
        let v = group_read_view(grp).take(j as int);
        assert(v.drop_last() == group_read_view(grp).take(i));
        assert(v.last() == (grp[i].1, grp[i].0.drop_first()));
        assert(grp[i].0.len() > 0);
        assert(seq![first] + grp[i].0.drop_first() =~= grp[i].0);
        assert(es.take(a + j).drop_last() == es.take(a + i));
        assert(es.take(a + j).last() == es[a + i]);
        assert(grp[i] == es[a + i]);
    }
}

/// Reading back a written ligature substitution gives the same mapping, for
/// every sorted list of non-empty input sequences whose offsets and counts
/// fit in 16 bits and none of which starts with glyph 65535.
pub proof fn lemma_ligature_subst_roundtrip(es: Seq<(Seq<u16>, u16)>)
    requires
        entries_sorted(es),
        keys_nonempty(es),
        ligature_subst_fits(es),
        forall|i: int| 0 <= i < es.len() ==> #[trigger] es[i].0[0] != 65535,
    ensures
        !ligature_subst_overflows(ligature_subst_encoding(es)),
        ligature_subst_decoding(ligature_subst_encoding(es)) == Some(entries_map(es)),
{
    let s = ligature_subst_encoding(es);
    let gs = ligature_groups(es);
    let c = covered_glyphs(es);
    let f = first_glyph_seq(es);
    let r = equal_runs(f);
    let n = gs.len();
    lemma_ligature_layout(es);
    lemma_covered_increasing(es);
    lemma_equal_runs_shape(f);
    assert forall|k: int| 0 <= k < c.len() implies c[k] != 65535 by {
        assert(c[k] == es[r[k].0 as int].0[0]);
    }
    crate::coverage::lemma_coverage_roundtrip(c);
    crate::coverage::lemma_coverage_decoding_prefix(coverage_encoding(c), sets_bytes(gs));
    lemma_ligature_sets_read(es, s, n);
    let gv = gs.map_values(|g: Seq<(Seq<u16>, u16)>| group_read_view(g));
    assert(gv.take(n as int) == gv);
    if n == 0 {
        assert(es.len() == 0);
        assert(es == Seq::<(Seq<u16>, u16)>::empty());
    } else {
        lemma_insert_sets_rebuild(es, n);
        assert(es.take(es.len() as int) == es);
    }
}

} // verus!
