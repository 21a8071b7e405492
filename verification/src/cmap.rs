//! The `cmap` table: the mapping from character codes to glyph ids.
use crate::binary::{
    be16, be16_seq, be32, bei16_seq, i16_at, push_bytes, push_i16_slice, push_u16, push_u16_slice,
    push_u32, read_bytes, read_i16_vec, read_u16, read_u16_vec, read_u32, u16_at, u32_at,
    DeserializationError,
};
use crate::glyf::reading::Reading;
use std::collections::BTreeMap;
use vstd::prelude::*;
use vstd::std_specs::iter::IteratorSpec;

verus! {

broadcast use vstd::std_specs::btree::group_btree_axioms;

/// `s` lists the codes of `m` in increasing order.
pub open spec fn is_code_list(s: Seq<u32>, m: Map<u32, u16>) -> bool {
    &&& forall|i: int, j: int| 0 <= i < j < s.len() ==> s[i] < s[j]
    &&& forall|i: int| 0 <= i < s.len() ==> m.contains_key(#[trigger] s[i])
    &&& forall|k: u32| m.contains_key(k) ==> s.contains(k)
}

/// The codes of `m` in increasing order.
pub open spec fn code_list(m: Map<u32, u16>) -> Seq<u32> {
    choose|s: Seq<u32>| is_code_list(s, m)
}

/// Two increasing lists of the same codes are the same list.
pub proof fn lemma_code_list_unique(s: Seq<u32>, t: Seq<u32>, m: Map<u32, u16>)
    requires
        is_code_list(s, m),
        is_code_list(t, m),
    ensures
        s == t,
    decreases s.len() + t.len(),
{
    if s.len() == 0 {
        if t.len() > 0 {
            assert(m.contains_key(t[0]));
            assert(s.contains(t[0]));
        }
        assert(s =~= t);
    } else if t.len() == 0 {
        assert(m.contains_key(s[0]));
        assert(t.contains(s[0]));
    } else {
        let a = s[0];
        let b = t[0];
        assert(m.contains_key(a) && m.contains_key(b));
        assert(t.contains(a));
        assert(s.contains(b));
        let ia = choose|i: int| 0 <= i < t.len() && t[i] == a;
        let ib = choose|i: int| 0 <= i < s.len() && s[i] == b;
        if ia > 0 {
            assert(t[0] < t[ia]);
        }
        if ib > 0 {
            assert(s[0] < s[ib]);
        }
        assert(a == b);
        let m2 = m.remove(a);
        let s2 = s.drop_first();
        let t2 = t.drop_first();
        assert forall|k: u32| m2.contains_key(k) implies s2.contains(k) by {
            assert(s.contains(k));
            let i = choose|i: int| 0 <= i < s.len() && s[i] == k;
            assert(i != 0);
            assert(s2[i - 1] == k);
        }
        assert forall|k: u32| m2.contains_key(k) implies t2.contains(k) by {
            assert(t.contains(k));
            let i = choose|i: int| 0 <= i < t.len() && t[i] == k;
            assert(i != 0);
            assert(t2[i - 1] == k);
        }
        assert forall|i: int| 0 <= i < s2.len() implies m2.contains_key(#[trigger] s2[i]) by {
            assert(s[i + 1] > s[0]);
        }
        assert forall|i: int| 0 <= i < t2.len() implies m2.contains_key(#[trigger] t2[i]) by {
            assert(t[i + 1] > t[0]);
        }
        lemma_code_list_unique(s2, t2, m2);
        assert(s =~= seq![a] + s2);
        assert(t =~= seq![b] + t2);
    }
}

/// Codes compare as the numbers they are, in maps keyed by them too.
pub open spec fn codes_ordered() -> bool {
    &&& vstd::laws_cmp::obeys_cmp::<u32>()
    &&& vstd::std_specs::btree::key_obeys_cmp_spec::<u32>()
}

proof fn lemma_codes_ordered()
    ensures
        codes_ordered(),
{
    broadcast use vstd::laws_cmp::group_laws_cmp;
}

proof fn lemma_increasing_codes(s: Seq<u32>)
    requires
        vstd::std_specs::btree::increasing_seq(s),
    ensures
        forall|i: int, j: int| 0 <= i < j < s.len() ==> s[i] < s[j],
{
    lemma_codes_ordered();
    broadcast use vstd::std_specs::btree::axiom_increasing_seq_meaning;
    assert forall|i: int, j: int| 0 <= i < j < s.len() implies s[i] < s[j] by {
        assert(vstd::std_specs::cmp::OrdSpec::cmp_spec(&s[i], &s[j]) is Less);
    }
}

/// The codes of `m`, in increasing order.
pub fn codes_of(m: &BTreeMap<u32, u16>) -> (r: Vec<u32>)
    ensures
        r@ == code_list(m@),
        is_code_list(r@, m@),
{
    proof {
        lemma_codes_ordered();
    }
    let ghost whole = vstd::std_specs::btree::spec_btree_map_iter(m).remaining();
    let mut out: Vec<u32> = Vec::new();
    for kv in it: m.iter()
        invariant
            it.seq() == whole,
            out@ == it.seq().take(it.index()).map_values(|x: (&u32, &u16)| *x.0),
    {
        out.push(*kv.0);
        assert(it.seq().take(it.index() + 1) == it.seq().take(it.index()).push(kv));
    }
    proof {
        assert(out@ == whole.map_values(|x: (&u32, &u16)| *x.0));
        lemma_increasing_codes(out@);
        assert forall|k: u32| m@.contains_key(k) implies out@.contains(k) by {
            assert(whole.contains((&k, &m@[k])));
            let i = choose|i: int| 0 <= i < whole.len() && whole[i] == (&k, &m@[k]);
            assert(out@[i] == k);
        }
        assert(is_code_list(out@, m@));
        lemma_code_list_unique(out@, code_list(m@), m@);
    }
    out
}

/// The glyph of code `c` in `m`, 0 where it has none.
pub open spec fn gid_at(m: Map<u32, u16>, c: int) -> int {
    if 0 <= c <= u32::MAX && m.contains_key(c as u32) {
        m[c as u32] as int
    } else {
        0
    }
}

/// Code `c` takes the glyph after the glyph of code `c - 1`.
pub open spec fn continues(m: Map<u32, u16>, c: int) -> bool {
    gid_at(m, c) == gid_at(m, c - 1) + 1
}

/// The first code of the streak of consecutive glyphs that ends at `c`, going no lower than `lo`.
pub open spec fn streak_start(m: Map<u32, u16>, lo: int, c: int) -> int
    decreases c - lo,
{
    if c > lo && continues(m, c) {
        streak_start(m, lo, c - 1)
    } else {
        c
    }
}

/// The last code of the streak of consecutive glyphs that starts at `c`, going no higher than `hi`.
pub open spec fn streak_end(m: Map<u32, u16>, hi: int, c: int) -> int
    decreases hi - c,
{
    if c < hi && continues(m, c + 1) {
        streak_end(m, hi, c + 1)
    } else {
        c
    }
}

proof fn lemma_streak_start_bounds(m: Map<u32, u16>, lo: int, c: int)
    ensures
        c >= lo ==> lo <= streak_start(m, lo, c) <= c,
    decreases c - lo,
{
    if c > lo && continues(m, c) {
        lemma_streak_start_bounds(m, lo, c - 1);
    }
}

proof fn lemma_streak_end_bounds(m: Map<u32, u16>, hi: int, c: int)
    ensures
        c <= hi ==> c <= streak_end(m, hi, c) <= hi,
    decreases hi - c,
{
    if c < hi && continues(m, c + 1) {
        lemma_streak_end_bounds(m, hi, c + 1);
    }
}

/// A streak from `b` to `e` worth a segment of its own in the range `lo..=hi`:
/// longer than four codes at an end of the range, longer than eight inside it,
/// and not the whole range.
pub open spec fn long_run(lo: int, hi: int, b: int, e: int) -> bool {
    &&& b < e
    &&& !(b == lo && e == hi)
    &&& e - b + 1 > (if b == lo || e == hi { 4int } else { 8int })
}

/// The range `lo..=hi` is cut between `c` and `c + 1`: the streak does not go on
/// there, and the streak that ends at `c` or the one that starts at `c + 1` is long.
pub open spec fn cut_after(m: Map<u32, u16>, lo: int, hi: int, c: int) -> bool {
    &&& !continues(m, c + 1)
    &&& (long_run(lo, hi, streak_start(m, lo, c), c) || long_run(
        lo,
        hi,
        c + 1,
        streak_end(m, hi, c + 1),
    ))
}

/// The codes from `c` up to (not including) `hi` after which `lo..=hi` is cut.
pub open spec fn cuts_from(m: Map<u32, u16>, lo: int, hi: int, c: int) -> Seq<u16>
    decreases hi - c,
{
    if c >= hi {
        Seq::empty()
    } else if cut_after(m, lo, hi, c) {
        seq![c as u16] + cuts_from(m, lo, hi, c + 1)
    } else {
        cuts_from(m, lo, hi, c + 1)
    }
}

/// The starts (after the first) and the ends of the segments that `lo..=hi` is
/// cut into.
pub open spec fn split_spec(m: Map<u32, u16>, lo: int, hi: int) -> (Seq<u16>, Seq<u16>) {
    let c = cuts_from(m, lo, hi, lo);
    (c.map_values(|x: u16| (x + 1) as u16), c.push(hi as u16))
}

/// What `split_range` needs: `lo` has a glyph, every later code of the range a
/// glyph other than 0, and the range ends below 0xFFFF unless it is one code.
pub open spec fn split_range_ok(m: Map<u32, u16>, lo: int, hi: int) -> bool {
    &&& lo <= hi
    &&& m.contains_key(lo as u32)
    &&& forall|c: int| lo < c <= hi ==> #[trigger] gid_at(m, c) >= 1
    &&& (lo == hi || hi < 0xFFFF)
}

/// Split the range of codes `start_code..=end_code` into segments whose glyphs
/// can be given by a delta: the starts of all but the first segment, and the
/// ends of all segments.
pub fn split_range(start_code: u16, end_code: u16, map: &BTreeMap<u32, u16>) -> (r: (Vec<u16>, Vec<u16>))
    requires
        split_range_ok(map@, start_code as int, end_code as int),
    ensures
        r.0@ == split_spec(map@, start_code as int, end_code as int).0,
        r.1@ == split_spec(map@, start_code as int, end_code as int).1,
{
    proof {
        lemma_codes_ordered();
    }
    let ghost m = map@;
    let ghost lo = start_code as int;
    let ghost hi = end_code as int;
    if start_code == end_code {
        let mut e: Vec<u16> = Vec::new();
        e.push(end_code);
        assert(cuts_from(m, lo, hi, lo) =~= Seq::<u16>::empty());
        assert(e@ =~= split_spec(m, lo, hi).1);
        assert(Seq::<u16>::empty() =~= split_spec(m, lo, hi).0);
        return (Vec::new(), e);
    }
    let n: usize = (end_code - start_code) as usize + 1;
    // the glyph of each code of the range
    let mut gids: Vec<u16> = Vec::new();
    let mut k: usize = 0;
    while k < n
        invariant
            n == hi - lo + 1,
            lo == start_code,
            hi == end_code,
            lo < hi < 0xFFFF,
            m == map@,
            codes_ordered(),
            k <= n,
            gids@.len() == k,
            forall|j: int| 0 <= j < k ==> #[trigger] gids@[j] as int == gid_at(m, lo + j),
        decreases n - k,
    {
        let code: u32 = start_code as u32 + k as u32;
        let g = match map.get(&code) {
            Some(v) => *v,
            None => 0,
        };
        gids.push(g);
        k = k + 1;
    }
    // the last code of the streak starting at each code
    let mut ends: Vec<u16> = Vec::new();
    let mut k: usize = 0;
    while k < n
        invariant
            ends@.len() == k,
            k <= n,
            n == hi - lo + 1,
            lo == start_code,
            hi == end_code,
            lo < hi < 0xFFFF,
        decreases n - k,
    {
        ends.push(0);
        k = k + 1;
    }
    let mut k: usize = n;
    while k > 0
        invariant
            n == hi - lo + 1,
            lo == start_code,
            hi == end_code,
            lo < hi < 0xFFFF,
            gids@.len() == n,
            forall|j: int| 0 <= j < n ==> #[trigger] gids@[j] as int == gid_at(m, lo + j),
            ends@.len() == n,
            k <= n,
            forall|j: int| k <= j < n ==> #[trigger] ends@[j] as int == streak_end(m, hi, lo + j),
        decreases k,
    {
        let j = k - 1;
        if j + 1 < n && gids[j + 1] as u32 == gids[j] as u32 + 1 {
            let v = ends[j + 1];
            ends.set(j, v);
        } else {
            ends.set(j, start_code + j as u16);
        }
        k = j;
    }
    let mut starts_out: Vec<u16> = Vec::new();
    let mut ends_out: Vec<u16> = Vec::new();
    let mut left: u16 = start_code;
    let mut c: u16 = start_code;
    while c < end_code
        invariant
            n == hi - lo + 1,
            lo == start_code,
            hi == end_code,
            lo < hi < 0xFFFF,
            forall|j: int| lo < j <= hi ==> #[trigger] gid_at(m, j) >= 1,
            gids@.len() == n,
            forall|j: int| 0 <= j < n ==> #[trigger] gids@[j] as int == gid_at(m, lo + j),
            ends@.len() == n,
            forall|j: int| 0 <= j < n ==> #[trigger] ends@[j] as int == streak_end(m, hi, lo + j),
            lo <= c <= hi,
            left == streak_start(m, lo, c as int),
            ends_out@ == cuts_from(m, lo, hi, lo).take(ends_out@.len() as int),
            cuts_from(m, lo, hi, lo) == ends_out@ + cuts_from(m, lo, hi, c as int),
            starts_out@ == ends_out@.map_values(|x: u16| (x + 1) as u16),
        decreases hi - c,
    {
        let i = (c - start_code) as usize;
        proof {
            lemma_streak_start_bounds(m, lo, c as int);
            lemma_streak_end_bounds(m, hi, c + 1);
        }
        let goes_on = gids[i + 1] as u32 == gids[i] as u32 + 1;
        let ghost before = ends_out@;
        if !goes_on {
            let b = left;
            let e = ends[i + 1];
            let long_before = b < c && !(b == start_code && c == end_code) && (c - b) as u32 + 1 > (
            if b == start_code || c == end_code {
                4
            } else {
                8
            });
            let long_after = c + 1 < e && !(c + 1 == start_code && e == end_code) && (e - c - 1) as u32 + 1
                > (if c + 1 == start_code || e == end_code {
                4
            } else {
                8
            });
            if long_before || long_after {
                ends_out.push(c);
                starts_out.push(c + 1);
                proof {
                    assert(cuts_from(m, lo, hi, c as int) == seq![c] + cuts_from(m, lo, hi, c + 1));
                    assert(before + (seq![c] + cuts_from(m, lo, hi, c + 1)) == ends_out@ + cuts_from(m, lo, hi, c + 1));
                    assert(starts_out@ =~= ends_out@.map_values(|x: u16| (x + 1) as u16));
                }
            } else {
                assert(cuts_from(m, lo, hi, c as int) == cuts_from(m, lo, hi, c + 1));
            }
        } else {
            assert(cuts_from(m, lo, hi, c as int) == cuts_from(m, lo, hi, c + 1));
        }
        proof {
            assert(cuts_from(m, lo, hi, lo) == ends_out@ + cuts_from(m, lo, hi, c + 1));
            assert(ends_out@ == cuts_from(m, lo, hi, lo).take(ends_out@.len() as int));
        }
        c = c + 1;
        if goes_on {
        } else {
            left = c;
        }
    }
    proof {
        assert(cuts_from(m, lo, hi, c as int) =~= Seq::<u16>::empty());
        assert(ends_out@ + Seq::<u16>::empty() == ends_out@);
    }
    ends_out.push(end_code);
    (starts_out, ends_out)
}


/// The starts and ends of the segments of one run of consecutive codes `s..=e`.
pub open spec fn run_arrays(m: Map<u32, u16>, s: int, e: int) -> (Seq<u16>, Seq<u16>) {
    let sp = split_spec(m, s, e);
    (seq![s as u16] + sp.0, sp.1)
}

/// The starts and ends of the segments for the codes `k[i..]`, the current run of
/// consecutive codes having begun at `s`.
pub open spec fn runs_from(m: Map<u32, u16>, k: Seq<u32>, i: int, s: int) -> (Seq<u16>, Seq<u16>)
    decreases k.len() - i,
{
    if i >= k.len() || i < 1 {
        run_arrays(m, s, k[i - 1] as int)
    } else if k[i] == k[i - 1] + 1 {
        runs_from(m, k, i + 1, s)
    } else {
        let a = run_arrays(m, s, k[i - 1] as int);
        let b = runs_from(m, k, i + 1, k[i] as int);
        (a.0 + b.0, a.1 + b.1)
    }
}

/// The start and end codes of the segments written for `m`: its runs of
/// consecutive codes, each split where a long streak of consecutive glyphs
/// begins or ends, then the closing segment at 0xFFFF.
pub open spec fn segment_codes(m: Map<u32, u16>) -> (Seq<u16>, Seq<u16>) {
    let k = code_list(m);
    let r = runs_from(m, k, 1, k[0] as int);
    (r.0.push(0xFFFF), r.1.push(0xFFFF))
}

/// What splitting the runs of `m` needs: codes below 0xFFFF, and a glyph other
/// than 0 for every code that follows another code of the map.
pub open spec fn runs_ok(m: Map<u32, u16>) -> bool {
    let k = code_list(m);
    &&& k.len() >= 1
    &&& forall|i: int| 0 <= i < k.len() ==> #[trigger] k[i] < 0xFFFF
    &&& forall|i: int| 1 <= i < k.len() && k[i] == k[i - 1] + 1 ==> #[trigger] m[k[i]] >= 1
}

#[verifier::spinoff_prover]
#[verifier::rlimit(30)]
proof fn lemma_split_ok(m: Map<u32, u16>, k: Seq<u32>, a: int, b: int)
    requires
        is_code_list(k, m),
        forall|i: int| 0 <= i < k.len() ==> #[trigger] k[i] < 0xFFFF,
        forall|i: int| 1 <= i < k.len() && k[i] == k[i - 1] + 1 ==> #[trigger] m[k[i]] >= 1,
        0 <= a <= b < k.len(),
        forall|i: int| a < i <= b ==> #[trigger] k[i] == k[i - 1] + 1,
    ensures
        split_range_ok(m, k[a] as int, k[b] as int),
        k[b] == k[a] + (b - a),
    decreases b - a,
{
    if a < b {
        lemma_split_ok(m, k, a, b - 1);
        assert(k[b] == k[b - 1] + 1);
        assert forall|c: int| k[a] < c <= k[b] implies #[trigger] gid_at(m, c) >= 1 by {
            let i = a + (c - k[a]);
            assert(k[i] == c) by {
                lemma_consecutive_run(k, a, i);
            }
            assert(m[k[i]] >= 1);
        }
    }
}

proof fn lemma_runs_len(m: Map<u32, u16>, k: Seq<u32>, i: int, s: int)
    ensures
        runs_from(m, k, i, s).0.len() == runs_from(m, k, i, s).1.len(),
    decreases k.len() - i,
{
    if i >= k.len() || i < 1 {
    } else if k[i] == k[i - 1] + 1 {
        lemma_runs_len(m, k, i + 1, s);
    } else {
        lemma_runs_len(m, k, i + 1, k[i] as int);
    }
}

proof fn lemma_consecutive_run(k: Seq<u32>, a: int, i: int)
    requires
        0 <= a <= i < k.len(),
        forall|j: int| a < j <= i ==> #[trigger] k[j] == k[j - 1] + 1,
    ensures
        k[i] == k[a] + (i - a),
    decreases i - a,
{
    if a < i {
        lemma_consecutive_run(k, a, i - 1);
    }
}

/// The starts and ends of the segments of `map`, with the closing segment at 0xFFFF.
fn segments_of(map: &BTreeMap<u32, u16>) -> (r: (Vec<u16>, Vec<u16>))
    requires
        runs_ok(map@),
    ensures
        r.0@ == segment_codes(map@).0,
        r.1@ == segment_codes(map@).1,
        r.0@.len() == r.1@.len(),
{
    let ghost m = map@;
    let codes = codes_of(map);
    let ghost k = codes@;
    let mut last_code: u32 = codes[0];
    let mut start_code: Vec<u16> = Vec::new();
    start_code.push(last_code as u16);
    let mut end_code: Vec<u16> = Vec::new();
    let ghost mut s: int = k[0] as int;
    let ghost mut a: int = 0;
    let mut i: usize = 1;
    proof {
        assert(start_code@.drop_last() + runs_from(m, k, 1, s).0 =~= runs_from(m, k, 1, s).0);
        assert(end_code@ + runs_from(m, k, 1, s).1 =~= runs_from(m, k, 1, s).1);
    }
    while i < codes.len()
        invariant
            m == map@,
            k == codes@,
            k == code_list(m),
            is_code_list(k, m),
            runs_ok(m),
            1 <= i <= k.len(),
            0 <= a < i,
            s == k[a],
            last_code == k[i - 1],
            forall|j: int| a < j < i ==> #[trigger] k[j] == k[j - 1] + 1,
            start_code@.len() >= 1,
            start_code@.last() == s,
            runs_from(m, k, 1, k[0] as int).0 == start_code@.drop_last() + runs_from(m, k, i as int, s).0,
            runs_from(m, k, 1, k[0] as int).1 == end_code@ + runs_from(m, k, i as int, s).1,
        decreases k.len() - i,
    {
        let c = codes[i];
        if c == last_code + 1 {
            last_code = c;
        } else {
            proof {
                lemma_split_ok(m, k, a, i - 1);
            }
            let seg_start = start_code[start_code.len() - 1];
            let (mut st, mut en) = split_range(seg_start, last_code as u16, map);
            let ghost before_s = start_code@;
            let ghost before_e = end_code@;
            let ghost sp = split_spec(m, s, k[i - 1] as int);
            start_code.append(&mut st);
            end_code.append(&mut en);
            start_code.push(c as u16);
            proof {
                let rest = runs_from(m, k, i + 1, k[i as int] as int);
                assert(runs_from(m, k, i as int, s) == (
                    run_arrays(m, s, k[i - 1] as int).0 + rest.0,
                    run_arrays(m, s, k[i - 1] as int).1 + rest.1,
                ));
                assert(start_code@.drop_last() =~= before_s.drop_last() + seq![s as u16] + sp.0);
                assert(before_s.drop_last() + (seq![s as u16] + sp.0 + rest.0) =~= start_code@.drop_last() + rest.0);
                assert(before_e + (sp.1 + rest.1) =~= end_code@ + rest.1);
                a = i as int;
                s = k[i as int] as int;
            }
            last_code = c;
        }
        i = i + 1;
    }
    proof {
        lemma_split_ok(m, k, a, k.len() - 1);
    }
    let seg_start = start_code[start_code.len() - 1];
    let (mut st, mut en) = split_range(seg_start, last_code as u16, map);
    let ghost before_s = start_code@;
    let ghost before_e = end_code@;
    start_code.append(&mut st);
    end_code.append(&mut en);
    proof {
        assert(start_code@ =~= before_s.drop_last() + run_arrays(m, s, k[k.len() - 1] as int).0);
        assert(end_code@ =~= before_e + run_arrays(m, s, k[k.len() - 1] as int).1);
    }
    start_code.push(0xFFFF);
    end_code.push(0xFFFF);
    proof {
        lemma_runs_len(m, k, 1, k[0] as int);
    }
    (start_code, end_code)
}


/// The glyphs of the codes `s..=e`.
pub open spec fn seg_gids(m: Map<u32, u16>, s: int, e: int) -> Seq<u16> {
    Seq::new((e - s + 1) as nat, |j: int| gid_at(m, s + j) as u16)
}

/// Each glyph of `l` is the one after the glyph before it.
pub open spec fn is_consecutive(l: Seq<u16>) -> bool {
    forall|j: int| 0 <= j < l.len() - 1 ==> #[trigger] l[j + 1] == l[j] + 1
}

/// Checking `l` for consecutive glyphs meets no 0xFFFF before it can stop.
pub open spec fn consecutive_check_ok(l: Seq<u16>) -> bool {
    forall|j: int|
        0 <= j < l.len() - 1 && (forall|i: int| 0 <= i < j ==> #[trigger] l[i + 1] == l[i] + 1) ==> #[trigger] l[j]
            != 65535
}

/// A 16-bit pattern read as a signed number.
pub open spec fn as_i16(v: u16) -> int {
    if v >= 32768 { v - 65536 } else { v as int }
}

/// The delta, range offset and glyph id array of the first `n` segments: a
/// segment whose glyphs are consecutive gets the delta from its first code to its
/// first glyph; another gets an offset to its glyphs, appended to the array.
pub open spec fn seg_tables(m: Map<u32, u16>, starts: Seq<u16>, ends: Seq<u16>, n: int) -> (Seq<i16>, Seq<u16>, Seq<u16>)
    decreases n,
{
    if n <= 0 {
        (Seq::empty(), Seq::empty(), Seq::empty())
    } else {
        let t = seg_tables(m, starts, ends, n - 1);
        let i = n - 1;
        let l = seg_gids(m, starts[i] as int, ends[i] as int);
        if is_consecutive(l) {
            (t.0.push((as_i16(l[0]) - as_i16(starts[i])) as i16), t.1.push(0), t.2)
        } else {
            (t.0.push(0), t.1.push((2 * ((ends.len() + t.2.len() - i) % 65536)) as u16), t.2 + l)
        }
    }
}

/// Building the table entry of segment `i` overflows no 16-bit field.
pub open spec fn seg_entry_ok(m: Map<u32, u16>, starts: Seq<u16>, ends: Seq<u16>, i: int) -> bool {
    let l = seg_gids(m, starts[i] as int, ends[i] as int);
    let g = seg_tables(m, starts, ends, i).2.len();
    &&& starts[i] <= ends[i]
    &&& consecutive_check_ok(l)
    &&& is_consecutive(l) ==> -32768 <= as_i16(l[0]) - as_i16(starts[i]) <= 32767
    &&& !is_consecutive(l) ==> 2 * ((ends.len() + g - i) % 65536) <= 65535
}

/// Building the tables of the first `n` segments overflows no 16-bit field.
pub open spec fn seg_tables_ok(m: Map<u32, u16>, starts: Seq<u16>, ends: Seq<u16>, n: int) -> bool {
    forall|i: int| 0 <= i < n ==> #[trigger] seg_entry_ok(m, starts, ends, i)
}

/// The largest `k` with `2^k` no more than `max(n, 1)`.
pub open spec fn is_floor_log2(n: int, k: nat) -> bool {
    &&& vstd::arithmetic::power2::pow2(k) <= (if n < 1 { 1 } else { n })
    &&& (if n < 1 { 1 } else { n }) < vstd::arithmetic::power2::pow2(k + 1)
}

/// The binary search fields of a table of `n` items of `itemsize` bytes: the
/// search range (the largest power of two not above `n`, in bytes), its
/// logarithm, and the bytes left over.
pub fn get_search_range(n: u16, itemsize: u16) -> (r: (u16, u16, u16))
    requires
        n as int * itemsize as int <= 65535,
    ensures
        is_floor_log2(n as int, r.1 as nat),
        r.0 == vstd::arithmetic::power2::pow2(r.1 as nat) * itemsize,
        r.2 == (if n as int * itemsize >= r.0 { n as int * itemsize - r.0 } else { 0 }),
{
    let mut p: u32 = 1;
    let mut k: u16 = 0;
    proof {
        vstd::arithmetic::power2::lemma2_to64();
    }
    while p * 2 <= n as u32
        invariant
            p == vstd::arithmetic::power2::pow2(k as nat),
            p <= (if n < 1 { 1 } else { n as int }),
            p >= 1,
            k <= 16,
            n <= 65535,
        decreases 65536 - p,
    {
        proof {
            vstd::arithmetic::power2::lemma_pow2_unfold((k + 1) as nat);
            assert(k < 15) by {
                if k >= 15 {
                    if k > 15 {
                        vstd::arithmetic::power2::lemma_pow2_strictly_increases(15, k as nat);
                    }
                    vstd::arithmetic::power2::lemma2_to64();
                }
            }
        }
        p = p * 2;
        k = k + 1;
    }
    proof {
        vstd::arithmetic::power2::lemma_pow2_unfold((k + 1) as nat);
        assert(p * itemsize <= (if n < 1 { 1 } else { n as int }) * itemsize) by (nonlinear_arith)
            requires
                p <= (if n < 1 { 1 } else { n as int }),
        ;
    }
    let search_range = (p as u16) * itemsize;
    let total: u32 = n as u32 * itemsize as u32;
    let range_shift = if total >= search_range as u32 {
        (total - search_range as u32) as u16
    } else {
        0
    };
    (search_range, k, range_shift)
}

/// A format 4 subtable: segments of consecutive codes, each with a delta or an
/// offset into the glyph id array.
#[derive(Debug, PartialEq, Clone)]
pub struct cmap4 {
    pub format: u16,
    pub length: u16,
    pub language: u16,
    pub segCountX2: u16,
    pub searchRange: u16,
    pub entrySelector: u16,
    pub rangeShift: u16,
    pub endCode: Vec<u16>,
    pub reservedPad: u16,
    pub startCode: Vec<u16>,
    pub idDelta: Vec<i16>,
    pub idRangeOffsets: Vec<u16>,
    pub glyphIdArray: Vec<u16>,
}

/// What writing `m` as a format 4 subtable needs.
pub open spec fn cmap4_writable(m: Map<u32, u16>) -> bool {
    &&& runs_ok(m)
    &&& segment_codes(m).1.len() <= 32767
    &&& seg_tables_ok(m, segment_codes(m).0, segment_codes(m).1, segment_codes(m).1.len() - 1)
}

impl cmap4 {
    /// The format 4 subtable of `map` in language `languageID`.
    pub fn from_mapping(languageID: u16, map: &BTreeMap<u32, u16>) -> (r: Self)
        requires
            cmap4_writable(map@),
        ensures
            ({
                let (starts, ends) = segment_codes(map@);
                let e = ends.len() as int;
                let t = seg_tables(map@, starts, ends, e - 1);
                &&& r.format == 4
                &&& r.length == ((t.2.len() * 2 + 16 + 8 * e) % 65536) as u16
                &&& r.language == languageID
                &&& r.segCountX2 == 2 * e
                &&& is_floor_log2(e, r.entrySelector as nat)
                &&& r.searchRange == vstd::arithmetic::power2::pow2(r.entrySelector as nat) * 2
                &&& r.rangeShift == 2 * e - r.searchRange
                &&& r.endCode@ == ends
                &&& r.reservedPad == 0
                &&& r.startCode@ == starts
                &&& r.idDelta@ == t.0.push(1)
                &&& r.idRangeOffsets@ == t.1.push(0)
                &&& r.glyphIdArray@ == t.2
            }),
    {
        proof {
            lemma_codes_ordered();
        }
        let ghost m = map@;
        let (start_code, end_code) = segments_of(map);
        let ghost starts = start_code@;
        let ghost ends = end_code@;
        let nseg = end_code.len();
        let mut id_delta: Vec<i16> = Vec::new();
        let mut id_range_offsets: Vec<u16> = Vec::new();
        let mut glyph_index_array: Vec<u16> = Vec::new();
        let mut i: usize = 0;
        while i < nseg - 1
            invariant
                m == map@,
                codes_ordered(),
                starts == start_code@,
                ends == end_code@,
                nseg == ends.len(),
                starts.len() == ends.len(),
                1 <= nseg <= 32767,
                seg_tables_ok(m, starts, ends, nseg - 1),
                i <= nseg - 1,
                glyph_index_array@.len() <= i * 65536,
                seg_tables(m, starts, ends, i as int) == (id_delta@, id_range_offsets@, glyph_index_array@),
            decreases nseg - 1 - i,
        {
            let ghost t = seg_tables(m, starts, ends, i as int);
            let ghost t2 = seg_tables(m, starts, ends, i + 1);
            assert(seg_entry_ok(m, starts, ends, i as int));
            let (d, o, mut extra) = segment_entry(map, start_code[i], end_code[i], nseg, glyph_index_array.len(), i);
            proof {
                let l = seg_gids(m, starts[i as int] as int, ends[i as int] as int);
                assert(t2.0 == t.0.push(d));
                assert(t2.1 == t.1.push(o));
                assert(t2.2 == t.2 + extra@);
            }
            id_delta.push(d);
            id_range_offsets.push(o);
            glyph_index_array.append(&mut extra);
            i = i + 1;
        }
        id_delta.push(1);
        id_range_offsets.push(0);
        let segcount = nseg as u16;
        let (search_range, entry_selector, range_shift) = get_search_range(segcount, 2);
        cmap4 {
            format: 4,
            length: ((glyph_index_array.len() as u64 * 2 + 16 + 8 * segcount as u64) % 65536) as u16,
            language: languageID,
            segCountX2: segcount * 2,
            searchRange: search_range,
            entrySelector: entry_selector,
            rangeShift: range_shift,
            endCode: end_code,
            reservedPad: 0,
            startCode: start_code,
            idDelta: id_delta,
            idRangeOffsets: id_range_offsets,
            glyphIdArray: glyph_index_array,
        }
    }
}

/// The delta, range offset and appended glyphs of the segment `s..=e`, the `i`th
/// of `nseg`, when `glen` glyphs are in the array before it.
fn segment_entry(map: &BTreeMap<u32, u16>, s: u16, e: u16, nseg: usize, glen: usize, i: usize) -> (r: (i16, u16, Vec<u16>))
    requires
        codes_ordered(),
        s <= e,
        i < nseg,
        consecutive_check_ok(seg_gids(map@, s as int, e as int)),
        is_consecutive(seg_gids(map@, s as int, e as int)) ==> -32768 <= as_i16(seg_gids(map@, s as int, e as int)[0]) - as_i16(s) <= 32767,
        !is_consecutive(seg_gids(map@, s as int, e as int)) ==> 2 * ((nseg + glen - i) % 65536) <= 65535,
        glen + 65536 <= usize::MAX,
        nseg <= 32767,
    ensures
        ({
            let l = seg_gids(map@, s as int, e as int);
            if is_consecutive(l) {
                r.0 == (as_i16(l[0]) - as_i16(s)) as i16 && r.1 == 0 && r.2@ == Seq::<u16>::empty()
            } else {
                r.0 == 0 && r.1 == (2 * ((nseg + glen - i) % 65536)) as u16 && r.2@ == l
            }
        }),
{
    let indices = glyphs_in(map, s, e);
    if is_contiguous_list(indices.as_slice()) {
        let d: i16 = (signed_of(indices[0]) - signed_of(s)) as i16;
        (d, 0, Vec::new())
    } else {
        let x: u16 = ((nseg + glen - i) % 65536) as u16;
        (0, 2 * x, indices)
    }
}

/// A 16-bit pattern read as a signed number.
fn signed_of(v: u16) -> (r: i32)
    ensures
        r == as_i16(v),
{
    if v >= 32768 {
        v as i32 - 65536
    } else {
        v as i32
    }
}

/// The glyphs of the codes `s..=e` of `map`.
fn glyphs_in(map: &BTreeMap<u32, u16>, s: u16, e: u16) -> (r: Vec<u16>)
    requires
        s <= e,
        codes_ordered(),
    ensures
        r@ == seg_gids(map@, s as int, e as int),
{
    let mut out: Vec<u16> = Vec::new();
    let mut c: u32 = s as u32;
    while c <= e as u32
        invariant
            s <= c <= e as u32 + 1,
            codes_ordered(),
            out@ == seg_gids(map@, s as int, e as int).take(c - s),
        decreases e as u32 + 1 - c,
    {
        let g = match map.get(&c) {
            Some(v) => *v,
            None => 0,
        };
        out.push(g);
        assert(seg_gids(map@, s as int, e as int).take(c - s + 1) =~= seg_gids(map@, s as int, e as int).take(c - s).push(g));
        c = c + 1;
    }
    assert(seg_gids(map@, s as int, e as int).take(c - s) =~= seg_gids(map@, s as int, e as int));
    out
}

/// Whether each glyph of `l` is the one after the glyph before it.
pub fn is_contiguous_list(l: &[u16]) -> (r: bool)
    requires
        consecutive_check_ok(l@),
    ensures
        r == is_consecutive(l@),
{
    if l.len() == 0 {
        return true;
    }
    let mut j: usize = 0;
    while j < l.len() - 1
        invariant
            consecutive_check_ok(l@),
            l@.len() >= 1,
            j <= l@.len() - 1,
            forall|i: int| 0 <= i < j ==> #[trigger] l@[i + 1] == l@[i] + 1,
        decreases l@.len() - j,
    {
        assert(l@[j as int] != 65535);
        if l[j + 1] != l[j] + 1 {
            return false;
        }
        j = j + 1;
    }
    true
}


/// The largest `k` with `2^k` no more than `max(n, 1)`.
pub open spec fn log2_floor(n: int) -> nat {
    choose|k: nat| is_floor_log2(n, k)
}

proof fn lemma_log2_floor_unique(n: int, k: nat)
    requires
        is_floor_log2(n, k),
    ensures
        log2_floor(n) == k,
{
    let j = log2_floor(n);
    assert(is_floor_log2(n, j));
    if j < k {
        if j + 1 < k {
            vstd::arithmetic::power2::lemma_pow2_strictly_increases((j + 1) as nat, k);
        }
    } else if k < j {
        if k + 1 < j {
            vstd::arithmetic::power2::lemma_pow2_strictly_increases((k + 1) as nat, j);
        }
    }
}

/// The bytes of a format 4 subtable.
pub open spec fn cmap4_bytes(t: cmap4) -> Seq<u8> {
    be16(t.format) + be16(t.length) + be16(t.language) + be16(t.segCountX2) + be16(t.searchRange)
        + be16(t.entrySelector) + be16(t.rangeShift) + be16_seq(t.endCode@) + be16(t.reservedPad)
        + be16_seq(t.startCode@) + bei16_seq(t.idDelta@) + be16_seq(t.idRangeOffsets@) + be16_seq(
        t.glyphIdArray@,
    )
}

/// The bytes of the format 4 subtable of `m` in language `lang`.
pub open spec fn cmap4_mapping_bytes(lang: u16, m: Map<u32, u16>) -> Seq<u8> {
    let (starts, ends) = segment_codes(m);
    let e = ends.len() as int;
    let t = seg_tables(m, starts, ends, e - 1);
    let k = log2_floor(e);
    let sr = vstd::arithmetic::power2::pow2(k) * 2;
    be16(4) + be16(((t.2.len() * 2 + 16 + 8 * e) % 65536) as u16) + be16(lang) + be16((2 * e) as u16)
        + be16(sr as u16) + be16(k as u16) + be16((2 * e - sr) as u16) + be16_seq(ends) + be16(0)
        + be16_seq(starts) + bei16_seq(t.0.push(1)) + be16_seq(t.1.push(0)) + be16_seq(t.2)
}

impl cmap4 {
    /// The subtable in binary form.
    pub fn to_bytes(&self) -> (r: Vec<u8>)
        ensures
            r@ == cmap4_bytes(*self),
    {
        let mut out: Vec<u8> = Vec::new();
        push_u16(&mut out, self.format);
        push_u16(&mut out, self.length);
        push_u16(&mut out, self.language);
        push_u16(&mut out, self.segCountX2);
        push_u16(&mut out, self.searchRange);
        push_u16(&mut out, self.entrySelector);
        push_u16(&mut out, self.rangeShift);
        push_u16_slice(&mut out, self.endCode.as_slice());
        push_u16(&mut out, self.reservedPad);
        push_u16_slice(&mut out, self.startCode.as_slice());
        push_i16_slice(&mut out, self.idDelta.as_slice());
        push_u16_slice(&mut out, self.idRangeOffsets.as_slice());
        push_u16_slice(&mut out, self.glyphIdArray.as_slice());
        out
    }
}

/// A format 0 subtable: a byte of glyph id for each of the first 256 codes.
#[derive(Debug, PartialEq, Clone)]
pub struct cmap0 {
    pub format: u16,
    pub length: u16,
    pub language: u16,
    pub glyphIdArray: Vec<u8>,
}

/// The bytes of a format 0 subtable.
pub open spec fn cmap0_bytes(t: cmap0) -> Seq<u8> {
    be16(t.format) + be16(t.length) + be16(t.language) + t.glyphIdArray@
}

impl cmap0 {
    /// A format 0 subtable in language `languageID`; the mapping is not written
    /// into it, so it holds no glyph ids.
    pub fn from_mapping(languageID: u16, map: &BTreeMap<u32, u16>) -> (r: Self)
        ensures
            r.format == 0,
            r.length == 0,
            r.language == languageID,
            r.glyphIdArray@ == Seq::<u8>::empty(),
    {
        cmap0 { format: 0, length: 0, language: languageID, glyphIdArray: Vec::new() }
    }

    /// The mapping of a format 0 subtable: its glyph ids are not read, so it is empty.
    pub fn to_mapping(self) -> (r: BTreeMap<u32, u16>)
        ensures
            r@ == Map::<u32, u16>::empty(),
    {
        BTreeMap::new()
    }

    /// The subtable in binary form.
    pub fn to_bytes(&self) -> (r: Vec<u8>)
        ensures
            r@ == cmap0_bytes(*self),
    {
        let mut out: Vec<u8> = Vec::new();
        push_u16(&mut out, self.format);
        push_u16(&mut out, self.length);
        push_u16(&mut out, self.language);
        push_bytes(&mut out, self.glyphIdArray.as_slice());
        out
    }
}

/// One encoding's mapping from codes to glyphs, and the format it is written in.
#[derive(Debug, PartialEq)]
pub struct CmapSubtable {
    pub format: u16,
    pub platformID: u16,
    pub encodingID: u16,
    pub languageID: u16,
    pub mapping: BTreeMap<u32, u16>,
}

/// The bytes a subtable is written as.
pub open spec fn subtable_bytes(st: CmapSubtable) -> Seq<u8> {
    if st.format == 0 {
        be16(0) + be16(0) + be16(st.languageID)
    } else {
        cmap4_mapping_bytes(st.languageID, st.mapping@)
    }
}

/// A subtable can be written: in format 0, or in format 4 with a mapping that fits it.
pub open spec fn subtable_writable(st: CmapSubtable) -> bool {
    st.format == 0 || (st.format == 4 && cmap4_writable(st.mapping@))
}

impl CmapSubtable {
    /// Whether the subtable maps Unicode code points.
    pub fn is_unicode(&self) -> (r: bool)
        ensures
            r == (self.platformID == 0 || (self.platformID == 3 && (self.encodingID == 0
                || self.encodingID == 1 || self.encodingID == 10))),
    {
        self.platformID == 0 || (self.platformID == 3 && (self.encodingID == 0 || self.encodingID == 1
            || self.encodingID == 10))
    }

    /// Whether the subtable is a Windows symbol encoding.
    pub fn is_symbol(&self) -> (r: bool)
        ensures
            r == (self.platformID == 3 && self.encodingID == 0),
    {
        self.platformID == 3 && self.encodingID == 0
    }

    /// The subtable in binary form, in its format.
    pub fn to_bytes(&self) -> (r: Vec<u8>)
        requires
            subtable_writable(*self),
        ensures
            r@ == subtable_bytes(*self),
    {
        if self.format == 0 {
            let t = cmap0::from_mapping(self.languageID, &self.mapping);
            let r = t.to_bytes();
            assert(r@ =~= be16(0) + be16(0) + be16(self.languageID));
            r
        } else {
            let t = cmap4::from_mapping(self.languageID, &self.mapping);
            let r = t.to_bytes();
            proof {
                lemma_log2_floor_unique(t.endCode@.len() as int, t.entrySelector as nat);
            }
            r
        }
    }
}


/// The codes of `m` in increasing order, each with its glyph.
pub open spec fn entry_list(m: Map<u32, u16>) -> Seq<(u32, u16)> {
    code_list(m).map_values(|k: u32| (k, m[k]))
}

/// The codes of `map` in increasing order, each with its glyph.
fn entries_of(map: &BTreeMap<u32, u16>) -> (r: Vec<(u32, u16)>)
    ensures
        r@ == entry_list(map@),
        is_code_list(code_list(map@), map@),
{
    proof {
        lemma_codes_ordered();
    }
    let codes = codes_of(map);
    let mut out: Vec<(u32, u16)> = Vec::new();
    let mut i: usize = 0;
    while i < codes.len()
        invariant
            codes_ordered(),
            codes@ == code_list(map@),
            is_code_list(codes@, map@),
            i <= codes@.len(),
            out@ == entry_list(map@).take(i as int),
        decreases codes@.len() - i,
    {
        let k = codes[i];
        let v = *map.get(&k).unwrap();
        out.push((k, v));
        assert(entry_list(map@).take(i + 1) =~= entry_list(map@).take(i as int).push((k, v)));
        i = i + 1;
    }
    assert(entry_list(map@).take(i as int) =~= entry_list(map@));
    out
}

/// Maps with the same entries are the same map.
proof fn lemma_entry_list_injective(a: Map<u32, u16>, b: Map<u32, u16>)
    requires
        is_code_list(code_list(a), a),
        is_code_list(code_list(b), b),
        entry_list(a) == entry_list(b),
    ensures
        a == b,
{
    let ka = code_list(a);
    let kb = code_list(b);
    assert(ka.len() == entry_list(a).len());
    assert forall|i: int| 0 <= i < ka.len() implies ka[i] == kb[i] by {
        assert(entry_list(a)[i] == entry_list(b)[i]);
    }
    assert(ka =~= kb);
    assert forall|k: u32| a.contains_key(k) <==> b.contains_key(k) by {
        if a.contains_key(k) {
            assert(ka.contains(k));
        }
        if b.contains_key(k) {
            assert(kb.contains(k));
        }
    }
    assert forall|k: u32| a.contains_key(k) implies a[k] == b[k] by {
        assert(ka.contains(k));
        let i = choose|i: int| 0 <= i < ka.len() && ka[i] == k;
        assert(entry_list(a)[i] == entry_list(b)[i]);
    }
    assert(a =~= b);
}

fn same_entries(a: &Vec<(u32, u16)>, b: &Vec<(u32, u16)>) -> (r: bool)
    ensures
        r == (a@ == b@),
{
    if a.len() != b.len() {
        return false;
    }
    let mut i: usize = 0;
    while i < a.len()
        invariant
            a@.len() == b@.len(),
            i <= a@.len(),
            forall|j: int| 0 <= j < i ==> a@[j] == b@[j],
        decreases a@.len() - i,
    {
        if a[i].0 != b[i].0 || a[i].1 != b[i].1 {
            return false;
        }
        i = i + 1;
    }
    assert(a@ =~= b@);
    true
}

/// The character to glyph mapping table: one subtable per encoding.
#[derive(Debug, PartialEq)]
pub struct cmap {
    pub subtables: Vec<CmapSubtable>,
}

/// The first subtable from `i` up to `j` whose mapping is that of subtable `j`.
pub open spec fn first_same(sts: Seq<CmapSubtable>, j: int, i: int) -> int
    decreases j - i,
{
    if i >= j {
        j
    } else if sts[i].mapping@ == sts[j].mapping@ {
        i
    } else {
        first_same(sts, j, i + 1)
    }
}

/// The first subtable whose mapping is that of subtable `j`: only it is written,
/// and the others point at it.
pub open spec fn first_of(sts: Seq<CmapSubtable>, j: int) -> int {
    first_same(sts, j, 0)
}

/// The bytes of the subtables written for the first `n` subtables.
pub open spec fn unique_bytes(sts: Seq<CmapSubtable>, n: int) -> Seq<u8>
    decreases n,
{
    if n <= 0 {
        Seq::empty()
    } else {
        unique_bytes(sts, n - 1) + (if first_of(sts, n - 1) == n - 1 {
            subtable_bytes(sts[n - 1])
        } else {
            Seq::empty()
        })
    }
}

/// Where the subtable that subtable `j` points at starts.
pub open spec fn subtable_offset(sts: Seq<CmapSubtable>, j: int) -> u32 {
    (4 + 8 * sts.len() + unique_bytes(sts, first_of(sts, j)).len()) as u32
}

/// The encoding records of the first `n` subtables.
pub open spec fn record_bytes(sts: Seq<CmapSubtable>, n: int) -> Seq<u8>
    decreases n,
{
    if n <= 0 {
        Seq::empty()
    } else {
        record_bytes(sts, n - 1) + be16(sts[n - 1].platformID) + be16(sts[n - 1].encodingID) + be32(
            subtable_offset(sts, n - 1),
        )
    }
}

/// The bytes of a `cmap` table: version, record count, records, subtables.
pub open spec fn cmap_bytes(sts: Seq<CmapSubtable>) -> Seq<u8> {
    be16(0) + be16(sts.len() as u16) + record_bytes(sts, sts.len() as int) + unique_bytes(
        sts,
        sts.len() as int,
    )
}

/// A table can be written: every subtable can, their count fits 16 bits, and
/// their offsets 32 bits.
pub open spec fn cmap_writable(sts: Seq<CmapSubtable>) -> bool {
    &&& forall|i: int| 0 <= i < sts.len() ==> subtable_writable(#[trigger] sts[i])
    &&& sts.len() <= 65535
    &&& 4 + 8 * sts.len() + unique_bytes(sts, sts.len() as int).len() <= u32::MAX
}

proof fn lemma_first_same(sts: Seq<CmapSubtable>, j: int, i: int)
    requires
        0 <= i <= j,
    ensures
        i <= first_same(sts, j, i) <= j,
        first_same(sts, j, i) < j ==> sts[first_same(sts, j, i)].mapping@ == sts[j].mapping@,
        forall|k: int| i <= k < first_same(sts, j, i) ==> sts[k].mapping@ != sts[j].mapping@,
    decreases j - i,
{
    if i < j && sts[i].mapping@ != sts[j].mapping@ {
        lemma_first_same(sts, j, i + 1);
    }
}

/// The first subtable with a mapping is its own first.
proof fn lemma_first_of_first(sts: Seq<CmapSubtable>, j: int)
    requires
        0 <= j,
    ensures
        first_of(sts, first_of(sts, j)) == first_of(sts, j),
{
    let f = first_of(sts, j);
    lemma_first_same(sts, j, 0);
    lemma_first_same(sts, f, 0);
    let g = first_of(sts, f);
    if g < f {
        assert(sts[g].mapping@ == sts[f].mapping@);
        if f < j {
            assert(sts[g].mapping@ == sts[j].mapping@);
        }
    }
}

proof fn lemma_unique_bytes_prefix(sts: Seq<CmapSubtable>, i: int, n: int)
    requires
        0 <= i <= n,
    ensures
        unique_bytes(sts, i).len() <= unique_bytes(sts, n).len(),
    decreases n - i,
{
    if i < n {
        lemma_unique_bytes_prefix(sts, i, n - 1);
    }
}

impl cmap {
    /// The table in binary form. Subtables with the same mapping share the bytes
    /// of the first of them.
    pub fn to_bytes(&self) -> (r: Vec<u8>)
        requires
            cmap_writable(self.subtables@),
        ensures
            r@ == cmap_bytes(self.subtables@),
    {
        let ghost sts = self.subtables@;
        let n = self.subtables.len();
        let base: u32 = 4 + 8 * n as u32;
        let mut output: Vec<u8> = Vec::new();
        let mut records: Vec<u8> = Vec::new();
        let mut offsets: Vec<u32> = Vec::new();
        let mut j: usize = 0;
        while j < n
            invariant
                sts == self.subtables@,
                n == sts.len(),
                cmap_writable(sts),
                base == 4 + 8 * n,
                j <= n,
                output@ == unique_bytes(sts, j as int),
                records@ == record_bytes(sts, j as int),
                offsets@.len() == j,
                forall|i: int| 0 <= i < j ==> #[trigger] offsets@[i] == subtable_offset(sts, i),
            decreases n - j,
        {
            let entries = entries_of(&self.subtables[j].mapping);
            let mut i: usize = 0;
            let mut found = false;
            while i < j && !found
                invariant
                    sts == self.subtables@,
                    0 <= i <= j < n,
                    n == sts.len(),
                    first_same(sts, j as int, 0) == first_same(sts, j as int, i as int),
                    found ==> i < j && sts[i as int].mapping@ == sts[j as int].mapping@,
                    entries@ == entry_list(sts[j as int].mapping@),
                    is_code_list(code_list(sts[j as int].mapping@), sts[j as int].mapping@),
                decreases j - i, (if found { 0int } else { 1int }),
            {
                let other = entries_of(&self.subtables[i].mapping);
                if same_entries(&other, &entries) {
                    proof {
                        lemma_entry_list_injective(sts[i as int].mapping@, sts[j as int].mapping@);
                    }
                    found = true;
                } else {
                    i = i + 1;
                }
            }
            proof {
                lemma_first_same(sts, j as int, 0);
                lemma_unique_bytes_prefix(sts, j as int, n as int);
                lemma_unique_bytes_prefix(sts, j + 1, n as int);
            }
            let offset: u32;
            if found {
                proof {
                    assert(first_of(sts, j as int) == i);
                    lemma_first_of_first(sts, j as int);
                }
                offset = offsets[i];
                assert(unique_bytes(sts, j + 1) == unique_bytes(sts, j as int));
            } else {
                assert(first_of(sts, j as int) == j);
                offset = base + output.len() as u32;
                let bytes = self.subtables[j].to_bytes();
                push_bytes(&mut output, bytes.as_slice());
            }
            let st = &self.subtables[j];
            push_u16(&mut records, st.platformID);
            push_u16(&mut records, st.encodingID);
            push_u32(&mut records, offset);
            offsets.push(offset);
            j = j + 1;
        }
        let mut out: Vec<u8> = Vec::new();
        push_u16(&mut out, 0);
        push_u16(&mut out, n as u16);
        push_bytes(&mut out, records.as_slice());
        push_bytes(&mut out, output.as_slice());
        out
    }
}


/// The `uint16`s at `pos`, `pos + 2`, ... of `d`.
pub open spec fn u16s_at(d: Seq<u8>, pos: int, count: int) -> Seq<u16> {
    Seq::new(count as nat, |k: int| u16_at(d, pos + 2 * k))
}

/// The `int16`s at `pos`, `pos + 2`, ... of `d`.
pub open spec fn i16s_at(d: Seq<u8>, pos: int, count: int) -> Seq<i16> {
    Seq::new(count as nat, |k: int| i16_at(d, pos + 2 * k))
}

/// A format 4 subtable as it is read: its fields, with the search fields and the
/// padding left at zero.
pub struct Cmap4Data {
    pub format: u16,
    pub length: u16,
    pub language: u16,
    pub seg_count: u16,
    pub end_code: Seq<u16>,
    pub start_code: Seq<u16>,
    pub id_delta: Seq<i16>,
    pub id_range_offsets: Seq<u16>,
    pub glyph_ids: Seq<u16>,
}

/// Reading a format 4 subtable: the header, the four segment arrays, then as many
/// glyph ids as the length leaves. A length shorter than the arrays, or arrays
/// whose size overflows 16 bits, has no outcome.
pub open spec fn cmap4_reading(d: Seq<u8>) -> Reading<Cmap4Data> {
    if d.len() < 14 {
        Reading::Error(DeserializationError::UnexpectedEof)
    } else {
        let n = u16_at(d, 6) / 2;
        if d.len() < 16 + 8 * n {
            Reading::Error(DeserializationError::UnexpectedEof)
        } else if 16 + 8 * n > 65535 {
            Reading::Undefined
        } else {
            let length = u16_at(d, 2);
            if length < 16 + 8 * n {
                Reading::Undefined
            } else {
                let g = length - (16 + 8 * n);
                if d.len() < 16 + 8 * n + 2 * g {
                    Reading::Error(DeserializationError::UnexpectedEof)
                } else {
                    Reading::Value(
                        Cmap4Data {
                            format: u16_at(d, 0),
                            length,
                            language: u16_at(d, 4),
                            seg_count: n as u16,
                            end_code: u16s_at(d, 14, n as int),
                            start_code: u16s_at(d, 16 + 2 * n, n as int),
                            id_delta: i16s_at(d, 16 + 4 * n, n as int),
                            id_range_offsets: u16s_at(d, 16 + 6 * n, n as int),
                            glyph_ids: u16s_at(d, 16 + 8 * n, g),
                        },
                        16 + 8 * n + 2 * g,
                    )
                }
            }
        }
    }
}

impl cmap4 {
    /// The data of this subtable as it is read.
    pub open spec fn data(&self) -> Cmap4Data {
        Cmap4Data {
            format: self.format,
            length: self.length,
            language: self.language,
            seg_count: (self.segCountX2 / 2) as u16,
            end_code: self.endCode@,
            start_code: self.startCode@,
            id_delta: self.idDelta@,
            id_range_offsets: self.idRangeOffsets@,
            glyph_ids: self.glyphIdArray@,
        }
    }

    /// Read a format 4 subtable.
    pub fn from_bytes(data: &[u8]) -> (r: Result<cmap4, DeserializationError>)
        requires
            cmap4_reading(data@) !is Undefined,
        ensures
            match r {
                Ok(t) => cmap4_reading(data@) matches Reading::Value(v, _) && t.data() == v
                    && t.segCountX2 == 2 * v.seg_count && t.searchRange == 0 && t.entrySelector == 0
                    && t.rangeShift == 0 && t.reservedPad == 0,
                Err(e) => cmap4_reading(data@) == Reading::<Cmap4Data>::Error(e),
            },
    {
        if data.len() < 14 {
            return Err(DeserializationError::UnexpectedEof);
        }
        let format = read_u16(data, 0).unwrap();
        let length = read_u16(data, 2).unwrap();
        let language = read_u16(data, 4).unwrap();
        let n: u16 = read_u16(data, 6).unwrap() / 2;
        let nn = n as usize;
        if data.len() < 16 + 8 * nn {
            return Err(DeserializationError::UnexpectedEof);
        }
        let end_code = read_u16_vec(data, 14, nn).unwrap();
        let start_code = read_u16_vec(data, 16 + 2 * nn, nn).unwrap();
        let id_delta = read_i16_vec(data, 16 + 4 * nn, nn).unwrap();
        let id_range_offsets = read_u16_vec(data, 16 + 6 * nn, nn).unwrap();
        let len_so_far: u16 = 16 + n * 8;
        let g = (length - len_so_far) as usize;
        let glyph_ids = match read_u16_vec(data, 16 + 8 * nn, g) {
            Some(v) => v,
            None => {
                return Err(DeserializationError::UnexpectedEof);
            },
        };
        let t = cmap4 {
            format,
            length,
            language,
            segCountX2: n * 2,
            searchRange: 0,
            entrySelector: 0,
            rangeShift: 0,
            endCode: end_code,
            reservedPad: 0,
            startCode: start_code,
            idDelta: id_delta,
            idRangeOffsets: id_range_offsets,
            glyphIdArray: glyph_ids,
        };
        assert(t.data().end_code =~= u16s_at(data@, 14, nn as int));
        assert(t.data().start_code =~= u16s_at(data@, 16 + 2 * nn, nn as int));
        assert(t.data().id_delta =~= i16s_at(data@, 16 + 4 * nn, nn as int));
        assert(t.data().id_range_offsets =~= u16s_at(data@, 16 + 6 * nn, nn as int));
        assert(t.data().glyph_ids =~= u16s_at(data@, 16 + 8 * nn, g as int));
        Ok(t)
    }
}

/// The glyph that segment `i` of `t` gives code `c`: `None` where the computation
/// leaves 16 bits (it has no outcome), `Some(None)` where the glyph id array ends
/// before the code's entry (the segment stops there), else the glyph.
pub open spec fn code_glyph(t: Cmap4Data, i: int, c: int) -> Option<Option<u16>> {
    let start = t.start_code[i];
    let delta = t.id_delta[i] as int;
    let ro = t.id_range_offsets[i];
    if ro == 0 {
        let v = as_i16(c as u16) + delta;
        if -32768 <= v <= 32767 {
            Some(Some((if v < 0 { v + 65536 } else { v }) as u16))
        } else {
            None
        }
    } else {
        let a = as_i16(start) + i;
        let b = a - t.id_range_offsets.len();
        let p = ro / 2 - b;
        let x = as_i16(c as u16) + p;
        if !(-32768 <= a <= 32767 && -32768 <= b <= 32767 && -32768 <= p <= 32767 && -32768 <= x <= 32767) {
            None
        } else if x < 0 || x >= t.glyph_ids.len() {
            Some(None)
        } else {
            let g = t.glyph_ids[x];
            if g == 0 {
                Some(Some(0))
            } else {
                let v = as_i16(g) + delta;
                if -32768 <= v <= 32767 {
                    Some(Some((if v < 0 { v + 65536 } else { v }) as u16))
                } else {
                    None
                }
            }
        }
    }
}

/// The (code, glyph) pairs segment `i` of `t` gives, from code `c` to its end.
pub open spec fn segment_pairs(t: Cmap4Data, i: int, c: int) -> Option<Seq<(u32, u16)>>
    decreases t.end_code[i] + 1 - c,
{
    if c > t.end_code[i] {
        Some(Seq::empty())
    } else {
        match code_glyph(t, i, c) {
            None => None,
            Some(None) => Some(Seq::empty()),
            Some(Some(g)) => match segment_pairs(t, i, c + 1) {
                Some(rest) => Some(seq![(c as u32, g)] + rest),
                None => None,
            },
        }
    }
}

/// The pairs of the segments from `i` on, up to the last one or the first that
/// ends at 0xFFFF.
pub open spec fn segments_pairs(t: Cmap4Data, i: int) -> Option<Seq<(u32, u16)>>
    decreases t.start_code.len() - i,
{
    if i < 0 || i >= t.start_code.len() - 1 || t.end_code[i] == 0xFFFF {
        Some(Seq::empty())
    } else {
        match segment_pairs(t, i, t.start_code[i] as int) {
            Some(a) => match segments_pairs(t, i + 1) {
                Some(b) => Some(a + b),
                None => None,
            },
            None => None,
        }
    }
}

/// The map holding the pairs, a later pair for a code replacing an earlier one.
pub open spec fn map_of_pairs(p: Seq<(u32, u16)>) -> Map<u32, u16>
    decreases p.len(),
{
    if p.len() == 0 {
        Map::empty()
    } else {
        map_of_pairs(p.drop_last()).insert(p.last().0, p.last().1)
    }
}

/// The mapping of a format 4 subtable, where it has one.
pub open spec fn cmap4_mapping(t: Cmap4Data) -> Option<Map<u32, u16>> {
    if t.start_code.len() == 0 {
        None
    } else {
        match segments_pairs(t, 0) {
            Some(p) => Some(map_of_pairs(p)),
            None => None,
        }
    }
}

impl cmap4 {
    /// The code to glyph mapping of this subtable.
    pub fn to_mapping(&self) -> (r: BTreeMap<u32, u16>)
        requires
            self.startCode@.len() == self.endCode@.len(),
            self.startCode@.len() == self.idDelta@.len(),
            self.startCode@.len() == self.idRangeOffsets@.len(),
            self.startCode@.len() <= 32767,
            cmap4_mapping(self.data()) is Some,
        ensures
            cmap4_mapping(self.data()) == Some(r@),
    {
        proof {
            lemma_codes_ordered();
        }
        let ghost t = self.data();
        let mut map: BTreeMap<u32, u16> = BTreeMap::new();
        let ghost mut done: Seq<(u32, u16)> = Seq::empty();
        let nseg = self.startCode.len();
        let mut i: usize = 0;
        let mut stop = false;
        assert(map@ =~= map_of_pairs(done));
        while i < nseg - 1 && !stop
            invariant
                t == self.data(),
                codes_ordered(),
                nseg == t.start_code.len(),
                nseg >= 1,
                nseg == t.end_code.len() && nseg == t.id_delta.len() && nseg == t.id_range_offsets.len(),
                nseg <= 32767,
                i <= nseg - 1,
                segments_pairs(t, 0) matches Some(all) && segments_pairs(t, i as int) matches Some(rest) && all
                    == done + rest,
                stop ==> segments_pairs(t, i as int) == Some(Seq::<(u32, u16)>::empty()),
                map@ == map_of_pairs(done),
            decreases nseg - 1 - i, (if stop { 0int } else { 1int }),
        {
            let start = self.startCode[i];
            let end = self.endCode[i];
            if end == 0xFFFF {
                stop = true;
            } else {
                let ghost rest_after = segments_pairs(t, i + 1);
                let mut c: u32 = start as u32;
                let mut ended = false;
                let ghost mut seg_done: Seq<(u32, u16)> = Seq::empty();
                assert(seg_done + segment_pairs(t, i as int, start as int)->0 =~= segment_pairs(t, i as int, start as int)->0);
                while c <= end as u32 && !ended
                    invariant
                        t == self.data(),
                        codes_ordered(),
                        i < nseg - 1,
                        nseg == t.start_code.len(),
                        nseg == t.end_code.len() && nseg == t.id_delta.len() && nseg == t.id_range_offsets.len(),
                        nseg <= 32767,
                        end == t.end_code[i as int],
                        end < 0xFFFF,
                        start == t.start_code[i as int],
                        c <= 65535,
                        segment_pairs(t, i as int, start as int) matches Some(sg) && segment_pairs(t, i as int, c as int) matches Some(sr) && sg == seg_done + sr,
                        ended ==> segment_pairs(t, i as int, c as int) == Some(Seq::<(u32, u16)>::empty()),
                        map@ == map_of_pairs(done + seg_done),
                    decreases end as u32 + 1 - c, (if ended { 0int } else { 1int }),
                {
                    match self.glyph_for(i, c as u16) {
                        None => {
                            ended = true;
                        },
                        Some(g) => {
                            map.insert(c, g);
                            proof {
                                let sr_next = segment_pairs(t, i as int, c + 1);
                                assert(segment_pairs(t, i as int, c as int) == Some(seq![(c as u32, g)] + sr_next->0));
                                assert(seg_done + (seq![(c as u32, g)] + sr_next->0) == seg_done.push((c as u32, g)) + sr_next->0);
                                assert((done + seg_done.push((c as u32, g))).drop_last() == done + seg_done);
                                seg_done = seg_done.push((c as u32, g));
                            }
                            c = c + 1;
                        },
                    }
                }
                proof {
                    assert(segment_pairs(t, i as int, c as int) == Some(Seq::<(u32, u16)>::empty()));
                    assert(seg_done + Seq::<(u32, u16)>::empty() == seg_done);
                    assert(segments_pairs(t, i as int) == Some(seg_done + rest_after->0));
                    assert(done + (seg_done + rest_after->0) == (done + seg_done) + rest_after->0);
                    done = done + seg_done;
                }
                i = i + 1;
            }
        }
        proof {
            assert(segments_pairs(t, i as int) == Some(Seq::<(u32, u16)>::empty()));
            assert(done + Seq::<(u32, u16)>::empty() == done);
        }
        map
    }

    /// The glyph of code `c` in segment `i`, or `None` where the glyph id array
    /// ends before the code's entry.
    fn glyph_for(&self, i: usize, c: u16) -> (r: Option<u16>)
        requires
            i < self.startCode@.len(),
            self.startCode@.len() == self.idDelta@.len(),
            self.startCode@.len() == self.idRangeOffsets@.len(),
            self.startCode@.len() <= 32767,
            code_glyph(self.data(), i as int, c as int) is Some,
        ensures
            code_glyph(self.data(), i as int, c as int) == Some(r),
    {
        let start = self.startCode[i];
        let delta = self.idDelta[i] as i32;
        let ro = self.idRangeOffsets[i];
        if ro == 0 {
            let v = signed_of(c) + delta;
            Some(wrap16(v))
        } else {
            let a = signed_of(start) + i as i32;
            let b = a - self.idRangeOffsets.len() as i32;
            let p = (ro / 2) as i32 - b;
            let x = signed_of(c) + p;
            if x < 0 || x as usize >= self.glyphIdArray.len() {
                None
            } else {
                let g = self.glyphIdArray[x as usize];
                if g == 0 {
                    Some(0)
                } else {
                    Some(wrap16(signed_of(g) + delta))
                }
            }
        }
    }
}

/// The 16-bit pattern of a signed 16-bit value.
fn wrap16(v: i32) -> (r: u16)
    requires
        -32768 <= v <= 32767,
    ensures
        r == (if v < 0 { v + 65536 } else { v as int }) as u16,
{
    if v < 0 {
        (v + 65536) as u16
    } else {
        v as u16
    }
}


/// Reading a format 0 subtable: format, length, language, then `length` bytes of
/// glyph ids. The value is the language.
pub open spec fn cmap0_reading(d: Seq<u8>) -> Reading<u16> {
    if d.len() < 6 {
        Reading::Error(DeserializationError::UnexpectedEof)
    } else if d.len() < 6 + u16_at(d, 2) {
        Reading::Error(DeserializationError::UnexpectedEof)
    } else {
        Reading::Value(u16_at(d, 4), 6 + u16_at(d, 2))
    }
}

impl cmap0 {
    /// Read a format 0 subtable.
    pub fn from_bytes(data: &[u8]) -> (r: Result<cmap0, DeserializationError>)
        ensures
            match r {
                Ok(t) => cmap0_reading(data@) == Reading::Value(t.language, 6 + t.length) && t.format
                    == u16_at(data@, 0) && t.length == u16_at(data@, 2) && t.glyphIdArray@ == data@.subrange(
                    6,
                    6 + t.length,
                ),
                Err(e) => cmap0_reading(data@) == Reading::<u16>::Error(e),
            },
    {
        if data.len() < 6 {
            return Err(DeserializationError::UnexpectedEof);
        }
        let format = read_u16(data, 0).unwrap();
        let length = read_u16(data, 2).unwrap();
        let language = read_u16(data, 4).unwrap();
        match read_bytes(data, 6, length as usize) {
            Some(ids) => Ok(cmap0 { format, length, language, glyphIdArray: ids }),
            None => Err(DeserializationError::UnexpectedEof),
        }
    }
}

/// A subtable as it is read: its format, encoding, language and mapping.
pub struct SubtableData {
    pub format: u16,
    pub platform_id: u16,
    pub encoding_id: u16,
    pub language_id: u16,
    pub mapping: Map<u32, u16>,
}

impl CmapSubtable {
    pub open spec fn data(&self) -> SubtableData {
        SubtableData {
            format: self.format,
            platform_id: self.platformID,
            encoding_id: self.encodingID,
            language_id: self.languageID,
            mapping: self.mapping@,
        }
    }
}

/// The subtable that encoding record `i` points at: `None` where it has no
/// outcome (an offset outside the data, or a subtable that cannot be read),
/// `Some(None)` for a format other than 0 and 4, which is skipped.
pub open spec fn subtable_at(d: Seq<u8>, base: int, i: int) -> Option<Option<SubtableData>> {
    let p = u16_at(d, 4 + 8 * i);
    let e = u16_at(d, 6 + 8 * i);
    let off = u32_at(d, 8 + 8 * i) as int;
    if off < base || off > d.len() || d.len() - off < 2 {
        None
    } else {
        let sub = d.subrange(off, d.len() as int);
        if sub[0] == 0 && sub[1] == 0 {
            match cmap0_reading(sub) {
                Reading::Value(lang, _) => Some(
                    Some(
                        SubtableData {
                            format: 0,
                            platform_id: p,
                            encoding_id: e,
                            language_id: lang,
                            mapping: Map::empty(),
                        },
                    ),
                ),
                _ => None,
            }
        } else if sub[0] == 0 && sub[1] == 4 {
            match cmap4_reading(sub) {
                Reading::Value(t, _) => match cmap4_mapping(t) {
                    Some(mp) => Some(
                        Some(
                            SubtableData {
                                format: 4,
                                platform_id: p,
                                encoding_id: e,
                                language_id: t.language,
                                mapping: mp,
                            },
                        ),
                    ),
                    None => None,
                },
                _ => None,
            }
        } else {
            Some(None)
        }
    }
}

/// The subtables of the first `n` encoding records, in order.
pub open spec fn subtables_at(d: Seq<u8>, base: int, n: int) -> Option<Seq<SubtableData>>
    decreases n,
{
    if n <= 0 {
        Some(Seq::empty())
    } else {
        match subtables_at(d, base, n - 1) {
            Some(s) => match subtable_at(d, base, n - 1) {
                Some(Some(x)) => Some(s.push(x)),
                Some(None) => Some(s),
                None => None,
            },
            None => None,
        }
    }
}

/// Reading a `cmap` table: its version, its encoding records, and the subtables
/// they point at.
pub open spec fn cmap_reading(d: Seq<u8>) -> Reading<Seq<SubtableData>> {
    if d.len() < 4 || d.len() < 4 + 8 * u16_at(d, 2) {
        Reading::Error(DeserializationError::UnexpectedEof)
    } else {
        let n = u16_at(d, 2) as int;
        match subtables_at(d, 4 + 8 * n, n) {
            Some(s) => Reading::Value(s, d.len() as int),
            None => Reading::Undefined,
        }
    }
}

pub open spec fn subtables_data(sts: Seq<CmapSubtable>) -> Seq<SubtableData> {
    sts.map_values(|st: CmapSubtable| st.data())
}

/// Read the subtable of encoding record `i`.
fn read_subtable(data: &[u8], base: usize, i: usize) -> (r: Option<CmapSubtable>)
    requires
        4 + 8 * i + 8 <= data@.len(),
        base <= data@.len(),
        subtable_at(data@, base as int, i as int) is Some,
    ensures
        subtable_at(data@, base as int, i as int) == Some(
            match r {
                Some(st) => Some(st.data()),
                None => None::<SubtableData>,
            },
        ),
{
    proof {
        lemma_codes_ordered();
    }
    let len = data.len();
    let p = read_u16(data, 4 + 8 * i).unwrap();
    let e = read_u16(data, 6 + 8 * i).unwrap();
    let off = read_u32(data, 8 + 8 * i).unwrap() as usize;
    let sub = &data[off..data.len()];
    assert(sub@ == data@.subrange(off as int, data@.len() as int));
    if sub[0] == 0 && sub[1] == 0 {
        let t = cmap0::from_bytes(sub).unwrap();
        Some(CmapSubtable { format: 0, platformID: p, encodingID: e, languageID: t.language, mapping: t.to_mapping() })
    } else if sub[0] == 0 && sub[1] == 4 {
        let t = cmap4::from_bytes(sub).unwrap();
        let mapping = t.to_mapping();
        Some(CmapSubtable { format: 4, platformID: p, encodingID: e, languageID: t.language, mapping })
    } else {
        None
    }
}

impl cmap {
    /// Read a `cmap` table.
    pub fn from_bytes(data: &[u8]) -> (r: Result<cmap, DeserializationError>)
        requires
            cmap_reading(data@) !is Undefined,
        ensures
            match r {
                Ok(c) => cmap_reading(data@) matches Reading::Value(v, _) && subtables_data(c.subtables@) == v,
                Err(e) => cmap_reading(data@) == Reading::<Seq<SubtableData>>::Error(e),
            },
    {
        if data.len() < 4 {
            return Err(DeserializationError::UnexpectedEof);
        }
        let n = read_u16(data, 2).unwrap() as usize;
        if data.len() < 4 + 8 * n {
            return Err(DeserializationError::UnexpectedEof);
        }
        let base = 4 + 8 * n;
        let mut subtables: Vec<CmapSubtable> = Vec::new();
        let mut i: usize = 0;
        assert(subtables_data(subtables@) =~= Seq::<SubtableData>::empty());
        while i < n
            invariant
                n == u16_at(data@, 2),
                base == 4 + 8 * n,
                base <= data@.len(),
                i <= n,
                subtables_at(data@, base as int, n as int) is Some,
                subtables_at(data@, base as int, i as int) == Some(subtables_data(subtables@)),
            decreases n - i,
        {
            proof {
                lemma_subtables_at_prefix(data@, base as int, n as int, i + 1);
            }
            let ghost before = subtables@;
            match read_subtable(data, base, i) {
                Some(st) => {
                    subtables.push(st);
                    assert(subtables_data(subtables@) =~= subtables_data(before).push(st.data()));
                },
                None => {},
            }
            i = i + 1;
        }
        Ok(cmap { subtables })
    }
}

proof fn lemma_subtables_at_prefix(d: Seq<u8>, base: int, n: int, i: int)
    requires
        0 <= i <= n,
        subtables_at(d, base, n) is Some,
    ensures
        subtables_at(d, base, i) is Some,
        i >= 1 ==> subtable_at(d, base, i - 1) is Some,
    decreases n - i,
{
    if i < n {
        lemma_subtables_at_prefix(d, base, n, i + 1);
    }
}

/// The position of the first subtable from `i` on with platform `p` and encoding `e`.
pub open spec fn mapping_index(sts: Seq<CmapSubtable>, p: u16, e: u16, i: int) -> Option<int>
    decreases sts.len() - i,
{
    if i >= sts.len() || i < 0 {
        None
    } else if sts[i].platformID == p && sts[i].encodingID == e {
        Some(i)
    } else {
        mapping_index(sts, p, e, i + 1)
    }
}

/// The encodings tried for the best mapping, in order of preference.
pub open spec fn preferred_encodings() -> Seq<(u16, u16)> {
    seq![(3u16, 10u16), (0, 6), (0, 4), (3, 1), (0, 3), (0, 2), (0, 1), (0, 0)]
}

/// The first preferred encoding from `k` on that the table has, with its subtable.
pub open spec fn best_index(sts: Seq<CmapSubtable>, k: int) -> Option<int>
    decreases 8 - k,
{
    if k >= 8 || k < 0 {
        None
    } else {
        match mapping_index(sts, preferred_encodings()[k].0, preferred_encodings()[k].1, 0) {
            Some(i) => Some(i),
            None => best_index(sts, k + 1),
        }
    }
}

/// What the search for a platform and encoding finds from `j` on: the first
/// subtable with them, or none where no subtable from `j` on has them.
proof fn lemma_mapping_index(sts: Seq<CmapSubtable>, p: u16, e: u16, j: int)
    requires
        0 <= j,
    ensures
        match mapping_index(sts, p, e, j) {
            Some(i) => j <= i < sts.len() && sts[i].platformID == p && sts[i].encodingID == e && forall|t: int|
                j <= t < i ==> !(sts[t].platformID == p && sts[t].encodingID == e),
            None => forall|t: int| j <= t < sts.len() ==> !(sts[t].platformID == p && sts[t].encodingID == e),
        },
    decreases sts.len() - j,
{
    if j < sts.len() && !(sts[j].platformID == p && sts[j].encodingID == e) {
        lemma_mapping_index(sts, p, e, j + 1);
    }
}

/// The platform and encoding of rank `k` among the Unicode subtables: a
/// full-repertoire Windows subtable (3, 10) first, then the Unicode platform's
/// full repertoire (0, 6) and (0, 4), the Windows BMP subtable (3, 1), and the
/// older Unicode encodings (0, 3), (0, 2), (0, 1), (0, 0).
pub open spec fn unicode_preference(k: int) -> (u16, u16) {
    if k == 0 {
        (3, 10)
    } else if k == 1 {
        (0, 6)
    } else if k == 2 {
        (0, 4)
    } else if k == 3 {
        (3, 1)
    } else if k == 4 {
        (0, 3)
    } else if k == 5 {
        (0, 2)
    } else if k == 6 {
        (0, 1)
    } else {
        (0, 0)
    }
}

/// Whether some subtable has platform `p` and encoding `e`.
pub open spec fn has_encoding(sts: Seq<CmapSubtable>, p: u16, e: u16) -> bool {
    exists|t: int| 0 <= t < sts.len() && sts[t].platformID == p && sts[t].encodingID == e
}

proof fn lemma_best_index_from(sts: Seq<CmapSubtable>, k0: int, k: int, i: int)
    requires
        0 <= k0 <= k < 8,
        forall|kk: int| k0 <= kk < k ==> !has_encoding(sts, #[trigger] preferred_encodings()[kk].0, preferred_encodings()[kk].1),
        mapping_index(sts, preferred_encodings()[k].0, preferred_encodings()[k].1, 0) == Some(i),
    ensures
        best_index(sts, k0) == Some(i),
    decreases k - k0,
{
    if k0 < k {
        let pe = preferred_encodings()[k0];
        assert(!has_encoding(sts, pe.0, pe.1));
        lemma_mapping_index(sts, pe.0, pe.1, 0);
        if mapping_index(sts, pe.0, pe.1, 0) is Some {
            let t = mapping_index(sts, pe.0, pe.1, 0)->0;
            assert(sts[t].platformID == pe.0 && sts[t].encodingID == pe.1);
        }
        lemma_best_index_from(sts, k0 + 1, k, i);
    }
}

/// The best mapping follows the order of preference (3, 10), (0, 6), (0, 4),
/// (3, 1), (0, 3), (0, 2), (0, 1), (0, 0): where the table has a subtable with
/// the `k`-th of these and none with an earlier one, the best mapping is that
/// of its first subtable with the `k`-th. In particular a full-repertoire
/// Windows subtable (3, 10) wins whenever there is one.
pub proof fn lemma_best_mapping_order(sts: Seq<CmapSubtable>, k: int, i: int)
    requires
        0 <= k < 8,
        0 <= i < sts.len(),
        (sts[i].platformID, sts[i].encodingID) == unicode_preference(k),
        forall|t: int| 0 <= t < i ==> !(sts[t].platformID == sts[i].platformID && sts[t].encodingID == sts[i].encodingID),
        forall|kk: int, t: int|
            #![trigger sts[t], unicode_preference(kk)]
            0 <= kk < k && 0 <= t < sts.len() ==> (sts[t].platformID, sts[t].encodingID) != unicode_preference(kk),
    ensures
        best_index(sts, 0) == Some(i),
{
    assert forall|kk: int| 0 <= kk < 8 implies #[trigger] preferred_encodings()[kk] == unicode_preference(kk) by {}
    assert forall|kk: int| 0 <= kk < k implies !has_encoding(sts, #[trigger] preferred_encodings()[kk].0, preferred_encodings()[kk].1) by {
        assert(preferred_encodings()[kk] == unicode_preference(kk));
        if has_encoding(sts, unicode_preference(kk).0, unicode_preference(kk).1) {
            let t = choose|t: int| 0 <= t < sts.len() && sts[t].platformID == unicode_preference(kk).0 && sts[t].encodingID == unicode_preference(kk).1;
            assert((sts[t].platformID, sts[t].encodingID) != unicode_preference(kk));
        }
    }
    let pe = preferred_encodings()[k];
    assert(pe == unicode_preference(k));
    lemma_mapping_index(sts, pe.0, pe.1, 0);
    match mapping_index(sts, pe.0, pe.1, 0) {
        Some(j) => {
            if j < i {
                assert(!(sts[j].platformID == sts[i].platformID && sts[j].encodingID == sts[i].encodingID));
            }
            if i < j {
                assert(!(sts[i].platformID == pe.0 && sts[i].encodingID == pe.1));
            }
        },
        None => {
            assert(!(sts[i].platformID == pe.0 && sts[i].encodingID == pe.1));
        },
    }
    lemma_best_index_from(sts, 0, k, i);
}

/// A table with none of the preferred encodings (3, 10), (0, 6), (0, 4),
/// (3, 1), (0, 3), (0, 2), (0, 1), (0, 0) has no best mapping.
pub proof fn lemma_best_mapping_none(sts: Seq<CmapSubtable>)
    requires
        forall|kk: int, t: int|
            #![trigger sts[t], unicode_preference(kk)]
            0 <= kk < 8 && 0 <= t < sts.len() ==> (sts[t].platformID, sts[t].encodingID) != unicode_preference(kk),
    ensures
        best_index(sts, 0) is None,
{
    lemma_best_none_from(sts, 0);
}

proof fn lemma_best_none_from(sts: Seq<CmapSubtable>, k0: int)
    requires
        0 <= k0 <= 8,
        forall|kk: int, t: int|
            #![trigger sts[t], unicode_preference(kk)]
            0 <= kk < 8 && 0 <= t < sts.len() ==> (sts[t].platformID, sts[t].encodingID) != unicode_preference(kk),
    ensures
        best_index(sts, k0) is None,
    decreases 8 - k0,
{
    if k0 < 8 {
        let pe = preferred_encodings()[k0];
        assert(pe == unicode_preference(k0));
        lemma_mapping_index(sts, pe.0, pe.1, 0);
        if mapping_index(sts, pe.0, pe.1, 0) is Some {
            let t = mapping_index(sts, pe.0, pe.1, 0)->0;
            assert((sts[t].platformID, sts[t].encodingID) != unicode_preference(k0));
        }
        lemma_best_none_from(sts, k0 + 1);
    }
}

impl cmap {
    /// The mapping of the first subtable with platform `platformID` and encoding `encodingID`.
    pub fn getMapping(&self, platformID: u16, encodingID: u16) -> (r: Option<&BTreeMap<u32, u16>>)
        ensures
            match mapping_index(self.subtables@, platformID, encodingID, 0) {
                Some(i) => r matches Some(m) && m@ == self.subtables@[i].mapping@,
                None => r is None,
            },
    {
        let mut i: usize = 0;
        while i < self.subtables.len()
            invariant
                i <= self.subtables@.len(),
                mapping_index(self.subtables@, platformID, encodingID, 0) == mapping_index(
                    self.subtables@,
                    platformID,
                    encodingID,
                    i as int,
                ),
            decreases self.subtables@.len() - i,
        {
            let st = &self.subtables[i];
            if st.platformID == platformID && st.encodingID == encodingID {
                return Some(&st.mapping);
            }
            i = i + 1;
        }
        None
    }

    /// The mapping of the most preferred Unicode encoding the table has.
    pub fn getBestMapping(&self) -> (r: Option<&BTreeMap<u32, u16>>)
        ensures
            match best_index(self.subtables@, 0) {
                Some(i) => r matches Some(m) && m@ == self.subtables@[i].mapping@,
                None => r is None,
            },
    {
        let prefs: [(u16, u16); 8] = [(3, 10), (0, 6), (0, 4), (3, 1), (0, 3), (0, 2), (0, 1), (0, 0)];
        assert(prefs@ == preferred_encodings());
        let mut k: usize = 0;
        while k < 8
            invariant
                prefs@ == preferred_encodings(),
                k <= 8,
                best_index(self.subtables@, 0) == best_index(self.subtables@, k as int),
            decreases 8 - k,
        {
            let (p, e) = prefs[k];
            let maybe_map = self.getMapping(p, e);
            if maybe_map.is_some() {
                return maybe_map;
            }
            k = k + 1;
        }
        None
    }
}


/// The subtable maps Unicode code points.
pub open spec fn unicode_subtable(st: CmapSubtable) -> bool {
    st.platformID == 0 || (st.platformID == 3 && (st.encodingID == 0 || st.encodingID == 1
        || st.encodingID == 10))
}

/// Some Unicode subtable among the first `j` maps code `c` to glyph `g`.
pub open spec fn maps_before(sts: Seq<CmapSubtable>, j: int, c: u32, g: u16) -> bool {
    exists|i: int|
        0 <= i < j && unicode_subtable(#[trigger] sts[i]) && sts[i].mapping@.contains_key(c)
            && sts[i].mapping@[c] == g
}

/// `c` and `g` come from the Unicode subtables before `j`, or from the first `k`
/// entries `e` of subtable `j`.
pub open spec fn reached(sts: Seq<CmapSubtable>, j: int, e: Seq<(u32, u16)>, k: int, c: u32, g: u16) -> bool {
    maps_before(sts, j, c, g) || exists|t: int| 0 <= t < k && #[trigger] e[t] == (c, g)
}

proof fn lemma_entries_meaning(m: Map<u32, u16>, c: u32, g: u16)
    requires
        is_code_list(code_list(m), m),
    ensures
        (exists|t: int| 0 <= t < entry_list(m).len() && #[trigger] entry_list(m)[t] == (c, g)) <==> (
        m.contains_key(c) && m[c] == g),
{
    let k = code_list(m);
    if m.contains_key(c) && m[c] == g {
        assert(k.contains(c));
        let t = choose|t: int| 0 <= t < k.len() && k[t] == c;
        assert(entry_list(m)[t] == (c, g));
    }
}

impl cmap {
    /// For each glyph, the set of code points that Unicode subtables map to it.
    pub fn reversed(&self) -> (r: BTreeMap<u16, std::collections::HashSet<u32>>)
        ensures
            forall|g: u16| #[trigger] r@.contains_key(g) <==> exists|c: u32| #[trigger] maps_before(self.subtables@, self.subtables@.len() as int, c, g),
            forall|g: u16, c: u32| r@.contains_key(g) ==> (#[trigger] r@[g]@.contains(c) <==> maps_before(
                self.subtables@,
                self.subtables@.len() as int,
                c,
                g,
            )),
    {
        broadcast use vstd::std_specs::hash::group_hash_axioms;
        proof {
            lemma_codes_ordered();
            lemma_glyphs_ordered();
        }
        let ghost sts = self.subtables@;
        let mut res: BTreeMap<u16, std::collections::HashSet<u32>> = BTreeMap::new();
        let mut j: usize = 0;
        while j < self.subtables.len()
            invariant
                sts == self.subtables@,
                j <= sts.len(),
                codes_ordered(),
                glyphs_ordered(),
                forall|g: u16| #[trigger] res@.contains_key(g) <==> exists|c: u32| #[trigger] maps_before(sts, j as int, c, g),
                forall|g: u16, c: u32| res@.contains_key(g) ==> (#[trigger] res@[g]@.contains(c) <==> maps_before(sts, j as int, c, g)),
            decreases sts.len() - j,
        {
            let st = &self.subtables[j];
            if st.is_unicode() {
                let entries = entries_of(&st.mapping);
                let ghost e = entries@;
                let mut k: usize = 0;
                proof {
                    assert forall|g: u16| #[trigger] res@.contains_key(g) <==> exists|c: u32| #[trigger] reached(sts, j as int, e, 0, c, g) by {
                        if res@.contains_key(g) {
                            let c = choose|c: u32| #[trigger] maps_before(sts, j as int, c, g);
                            assert(reached(sts, j as int, e, 0, c, g));
                        }
                        if exists|c: u32| #[trigger] reached(sts, j as int, e, 0, c, g) {
                            let c = choose|c: u32| #[trigger] reached(sts, j as int, e, 0, c, g);
                            assert(maps_before(sts, j as int, c, g));
                        }
                    }
                }
                while k < entries.len()
                    invariant
                        sts == self.subtables@,
                        j < sts.len(),
                        codes_ordered(),
                        glyphs_ordered(),
                        e == entries@,
                        e == entry_list(sts[j as int].mapping@),
                        is_code_list(code_list(sts[j as int].mapping@), sts[j as int].mapping@),
                        unicode_subtable(sts[j as int]),
                        k <= e.len(),
                        forall|g: u16| #[trigger] res@.contains_key(g) <==> exists|c: u32| #[trigger] reached(sts, j as int, e, k as int, c, g),
                        forall|g: u16, c: u32| res@.contains_key(g) ==> (#[trigger] res@[g]@.contains(c) <==> reached(sts, j as int, e, k as int, c, g)),
                    decreases e.len() - k,
                {
                    let (c, g) = entries[k];
                    let ghost old_res = res@;
                    let mut set = match res.remove(&g) {
                        Some(s) => s,
                        None => std::collections::HashSet::new(),
                    };
                    set.insert(c);
                    res.insert(g, set);
                    proof {
                        assert(e[k as int] == (c, g));
                        assert forall|g2: u16| #[trigger] res@.contains_key(g2) <==> exists|c2: u32| #[trigger] reached(sts, j as int, e, k + 1, c2, g2) by {
                            if g2 == g {
                                assert(reached(sts, j as int, e, k + 1, c, g));
                            } else {
                                if res@.contains_key(g2) {
                                    assert(old_res.contains_key(g2));
                                    let c2 = choose|c2: u32| #[trigger] reached(sts, j as int, e, k as int, c2, g2);
                                    assert(reached(sts, j as int, e, k + 1, c2, g2));
                                }
                                if exists|c2: u32| #[trigger] reached(sts, j as int, e, k + 1, c2, g2) {
                                    let c2 = choose|c2: u32| #[trigger] reached(sts, j as int, e, k + 1, c2, g2);
                                    if !maps_before(sts, j as int, c2, g2) {
                                        let t = choose|t: int| 0 <= t < k + 1 && #[trigger] e[t] == (c2, g2);
                                        assert(t != k);
                                    }
                                    assert(reached(sts, j as int, e, k as int, c2, g2));
                                }
                            }
                        }
                        assert forall|g2: u16, c2: u32| res@.contains_key(g2) implies (#[trigger] res@[g2]@.contains(c2) <==> reached(sts, j as int, e, k + 1, c2, g2)) by {
                            if reached(sts, j as int, e, k + 1, c2, g2) && !maps_before(sts, j as int, c2, g2) {
                                let t = choose|t: int| 0 <= t < k + 1 && #[trigger] e[t] == (c2, g2);
                                if t < k {
                                    assert(reached(sts, j as int, e, k as int, c2, g2));
                                }
                            }
                            if reached(sts, j as int, e, k as int, c2, g2) {
                                if !maps_before(sts, j as int, c2, g2) {
                                    let t = choose|t: int| 0 <= t < k && #[trigger] e[t] == (c2, g2);
                                    assert(0 <= t < k + 1 && e[t] == (c2, g2));
                                }
                            }
                        }
                    }
                    k = k + 1;
                }
                proof {
                    assert forall|c: u32, g: u16| reached(sts, j as int, e, e.len() as int, c, g) <==> maps_before(sts, j + 1, c, g) by {
                        lemma_entries_meaning(sts[j as int].mapping@, c, g);
                        if maps_before(sts, j + 1, c, g) && !maps_before(sts, j as int, c, g) {
                            let i = choose|i: int| 0 <= i < j + 1 && unicode_subtable(#[trigger] sts[i]) && sts[i].mapping@.contains_key(c) && sts[i].mapping@[c] == g;
                            assert(i == j);
                        }
                        if maps_before(sts, j as int, c, g) {
                            let i = choose|i: int| 0 <= i < j && unicode_subtable(#[trigger] sts[i]) && sts[i].mapping@.contains_key(c) && sts[i].mapping@[c] == g;
                            assert(0 <= i < j + 1);
                        }
                    }
                    assert forall|g: u16| #[trigger] res@.contains_key(g) <==> exists|c: u32| #[trigger] maps_before(sts, j + 1, c, g) by {
                        if res@.contains_key(g) {
                            let c = choose|c: u32| #[trigger] reached(sts, j as int, e, e.len() as int, c, g);
                            assert(maps_before(sts, j + 1, c, g));
                        }
                        if exists|c: u32| #[trigger] maps_before(sts, j + 1, c, g) {
                            let c = choose|c: u32| #[trigger] maps_before(sts, j + 1, c, g);
                            assert(reached(sts, j as int, e, e.len() as int, c, g));
                        }
                    }
                }
            } else {
                proof {
                    assert forall|c: u32, g: u16| maps_before(sts, j as int, c, g) <==> maps_before(sts, j + 1, c, g) by {
                        if maps_before(sts, j + 1, c, g) {
                            let i = choose|i: int| 0 <= i < j + 1 && unicode_subtable(#[trigger] sts[i]) && sts[i].mapping@.contains_key(c) && sts[i].mapping@[c] == g;
                            assert(i != j);
                        }
                        if maps_before(sts, j as int, c, g) {
                            let i = choose|i: int| 0 <= i < j && unicode_subtable(#[trigger] sts[i]) && sts[i].mapping@.contains_key(c) && sts[i].mapping@[c] == g;
                            assert(0 <= i < j + 1);
                        }
                    }
                    assert forall|g: u16| #[trigger] res@.contains_key(g) <==> exists|c: u32| #[trigger] maps_before(sts, j + 1, c, g) by {
                        if res@.contains_key(g) {
                            let c = choose|c: u32| #[trigger] maps_before(sts, j as int, c, g);
                            assert(maps_before(sts, j + 1, c, g));
                        }
                        if exists|c: u32| #[trigger] maps_before(sts, j + 1, c, g) {
                            let c = choose|c: u32| #[trigger] maps_before(sts, j + 1, c, g);
                            assert(maps_before(sts, j as int, c, g));
                        }
                    }
                }
            }
            j = j + 1;
        }
        res
    }
}

/// Glyph ids compare as the numbers they are, in maps keyed by them too.
pub open spec fn glyphs_ordered() -> bool {
    &&& vstd::laws_cmp::obeys_cmp::<u16>()
    &&& vstd::std_specs::btree::key_obeys_cmp_spec::<u16>()
}

proof fn lemma_glyphs_ordered()
    ensures
        glyphs_ordered(),
{
    broadcast use vstd::laws_cmp::group_laws_cmp;
}

} // verus!
