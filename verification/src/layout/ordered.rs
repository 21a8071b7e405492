//! Glyph-keyed maps walked in increasing key order.
use std::collections::BTreeMap;
use vstd::prelude::*;
use vstd::std_specs::iter::IteratorSpec;

verus! {

/// Each element is smaller than every later one.
pub open spec fn strictly_increasing(s: Seq<u16>) -> bool {
    forall|i: int, j: int| 0 <= i < j < s.len() ==> s[i] < s[j]
}

/// The glyph IDs below `n` that `d` holds, in increasing order.
pub open spec fn keys_below(d: Set<u16>, n: nat) -> Seq<u16>
    decreases n,
{
    if n == 0 {
        Seq::empty()
    } else {
        let k = (n - 1) as nat;
        if d.contains(k as u16) {
            keys_below(d, k).push(k as u16)
        } else {
            keys_below(d, k)
        }
    }
}

/// The glyph IDs that `d` holds, in increasing order.
pub open spec fn sorted_keys(d: Set<u16>) -> Seq<u16> {
    keys_below(d, 65536)
}

/// `keys_below` is increasing and holds exactly the members of `d` below `n`.
pub proof fn lemma_keys_below(d: Set<u16>, n: nat)
    requires
        n <= 65536,
    ensures
        strictly_increasing(keys_below(d, n)),
        forall|x: u16| #[trigger] keys_below(d, n).contains(x) <==> (d.contains(x) && x < n),
    decreases n,
{
    if n > 0 {
        let k = (n - 1) as nat;
        lemma_keys_below(d, k);
        let p = keys_below(d, k);
        if d.contains(k as u16) {
            let q = p.push(k as u16);
            assert forall|x: u16| q.contains(x) <==> (d.contains(x) && x < n) by {
                if q.contains(x) {
                    let i = choose|i: int| 0 <= i < q.len() && q[i] == x;
                    if i < p.len() {
                        assert(p.contains(x));
                    }
                }
                if d.contains(x) && x < n {
                    if x < k {
                        assert(p.contains(x));
                        let i = choose|i: int| 0 <= i < p.len() && p[i] == x;
                        assert(q[i] == x);
                    } else {
                        assert(q[q.len() - 1] == x);
                    }
                }
            }
            assert forall|i: int, j: int| 0 <= i < j < q.len() implies q[i] < q[j] by {
                if j == q.len() - 1 {
                    assert(q[i] == p[i]);
                    assert(p.contains(p[i]));
                    assert(p[i] < k);
                    assert(q[j] == k as u16);
                } else {
                    assert(q[i] == p[i] && q[j] == p[j]);
                }
            }
        }
    }
}

/// Two increasing sequences with the same members are equal.
pub proof fn lemma_increasing_unique(a: Seq<u16>, b: Seq<u16>)
    requires
        strictly_increasing(a),
        strictly_increasing(b),
        forall|x: u16| a.contains(x) <==> b.contains(x),
    ensures
        a == b,
{
    lemma_agree_prefix(a, b, if a.len() < b.len() { a.len() as int } else { b.len() as int });
    if a.len() < b.len() {
        assert(b.contains(b[a.len() as int]));
        let i = choose|i: int| 0 <= i < a.len() && a[i] == b[a.len() as int];
        assert(b[i] == a[i]);
    } else if b.len() < a.len() {
        assert(a.contains(a[b.len() as int]));
        let i = choose|i: int| 0 <= i < b.len() && b[i] == a[b.len() as int];
        assert(b[i] == a[i]);
    }
    assert(a =~= b);
}

proof fn lemma_agree_prefix(a: Seq<u16>, b: Seq<u16>, n: int)
    requires
        strictly_increasing(a),
        strictly_increasing(b),
        forall|x: u16| a.contains(x) <==> b.contains(x),
        0 <= n <= a.len(),
        n <= b.len(),
    ensures
        forall|k: int| 0 <= k < n ==> a[k] == b[k],
    decreases n,
{
    if n > 0 {
        let i = n - 1;
        lemma_agree_prefix(a, b, i);
        assert(a.contains(a[i]));
        assert(b.contains(b[i]));
        let j = choose|j: int| 0 <= j < b.len() && b[j] == a[i];
        let l = choose|l: int| 0 <= l < a.len() && a[l] == b[i];
        if j < i {
            assert(a[j] == b[j]);
        }
        if l < i {
            assert(a[l] == b[l]);
        }
    }
}

/// An increasing sequence of the members of `d` is `sorted_keys(d)`.
pub proof fn lemma_sorted_keys(d: Set<u16>, ks: Seq<u16>)
    requires
        strictly_increasing(ks),
        forall|x: u16| ks.contains(x) <==> d.contains(x),
    ensures
        sorted_keys(d) == ks,
{
    lemma_keys_below(d, 65536);
    lemma_increasing_unique(sorted_keys(d), ks);
}

/// That `u16` keys are totally ordered, as a map of them needs.
pub open spec fn u16_keys_ordered() -> bool {
    vstd::laws_cmp::obeys_cmp::<u16>()
}

/// What the standard library promises of `u16` keys: a total order, by which
/// a map's iterator walks its keys in increasing order.
pub proof fn lemma_map_key_order()
    ensures
        vstd::std_specs::btree::key_obeys_cmp_spec::<u16>(),
        u16_keys_ordered(),
        forall|s: Seq<u16>| #[trigger]
            vstd::std_specs::btree::increasing_seq(s) ==> strictly_increasing(s),
{
    broadcast use vstd::std_specs::btree::group_btree_axioms, vstd::laws_cmp::group_laws_cmp;

    assert forall|s: Seq<u16>| #[trigger] vstd::std_specs::btree::increasing_seq(s) implies strictly_increasing(s) by {
        assert forall|i: int, j: int| 0 <= i < j < s.len() implies s[i] < s[j] by {
            assert(vstd::std_specs::cmp::OrdSpec::cmp_spec(&s[i], &s[j]) is Less);
        }
    }
}

/// That pairs of `u16` keys are totally ordered, as a map of them needs.
pub proof fn lemma_pair_key_order()
    ensures
        vstd::std_specs::btree::key_obeys_cmp_spec::<(u16, u16)>(),
        pair_keys_ordered(),
{
    broadcast use vstd::std_specs::btree::group_btree_axioms, vstd::laws_cmp::group_laws_cmp;
}

/// That pairs of `u16` keys are totally ordered.
pub open spec fn pair_keys_ordered() -> bool {
    vstd::laws_cmp::obeys_cmp::<(u16, u16)>()
}

/// The entries of a glyph-keyed map, in increasing key order.
pub fn entries_in_order<V: Clone>(m: &BTreeMap<u16, V>) -> (r: (Vec<u16>, Vec<&V>))
    ensures
        r.0@ == sorted_keys(m@.dom()),
        r.1@.len() == r.0@.len(),
        forall|i: int| 0 <= i < r.0@.len() ==> *r.1@[i] == m@[r.0@[i]],
{
    proof {
        lemma_map_key_order();
    }
    broadcast use vstd::std_specs::btree::group_btree_axioms;

    let iter = m.iter();
    let ghost es = iter.remaining();
    let ghost ek = es.map_values(|kv: (&u16, &V)| *kv.0);
    let ghost ev = es.map_values(|kv: (&u16, &V)| kv.1);
    assert(vstd::std_specs::btree::increasing_seq(ek));
    let mut keys: Vec<u16> = Vec::new();
    let mut values: Vec<&V> = Vec::new();
    for kv in it: iter
        invariant
            it.seq() == es,
            ek == es.map_values(|kv: (&u16, &V)| *kv.0),
            ev == es.map_values(|kv: (&u16, &V)| kv.1),
            keys@ == ek.subrange(0, it.index()),
            values@ == ev.subrange(0, it.index()),
    {
        keys.push(*kv.0);
        values.push(kv.1);
    }
    assert(keys@ == ek);
    assert(values@ == ev);
    proof {
        let ks = keys@;
        assert forall|i: int, j: int| 0 <= i < j < ks.len() implies ks[i] < ks[j] by {
            assert(ek[i] == ks[i] && ek[j] == ks[j]);
        }
        assert forall|x: u16| ks.contains(x) <==> m@.dom().contains(x) by {
            if ks.contains(x) {
                let i = choose|i: int| 0 <= i < ks.len() && ks[i] == x;
                assert(m@.contains_key(*es[i].0));
            }
            if m@.dom().contains(x) {
                assert(es.contains((&x, &m@[x])));
                let i = choose|i: int| 0 <= i < es.len() && es[i] == (&x, &m@[x]);
                assert(ks[i] == x);
            }
        }
        lemma_sorted_keys(m@.dom(), ks);
        assert forall|i: int| 0 <= i < ks.len() implies *values@[i] == m@[ks[i]] by {
            assert(m@.contains_key(*es[i].0) && m@[*es[i].0] == *es[i].1);
        }
    }
    (keys, values)
}

} // verus!
