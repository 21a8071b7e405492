//! Tag-keyed maps walked in increasing tag order (tags as 32-bit numbers).
use std::collections::BTreeMap;
use vstd::prelude::*;
use vstd::std_specs::iter::IteratorSpec;

verus! {

/// Each element is smaller than every later one.
pub open spec fn tags_increasing(s: Seq<u32>) -> bool {
    forall|i: int, j: int| 0 <= i < j < s.len() ==> s[i] < s[j]
}

/// The tags below `n` that `d` holds, in increasing order.
pub open spec fn tags_below(d: Set<u32>, n: nat) -> Seq<u32>
    decreases n,
{
    if n == 0 {
        Seq::empty()
    } else {
        let k = (n - 1) as nat;
        if d.contains(k as u32) {
            tags_below(d, k).push(k as u32)
        } else {
            tags_below(d, k)
        }
    }
}

/// The tags that `d` holds, in increasing order.
pub open spec fn sorted_tags(d: Set<u32>) -> Seq<u32> {
    tags_below(d, 4294967296)
}

/// `tags_below` is increasing and holds exactly the members of `d` below `n`.
pub proof fn lemma_tags_below(d: Set<u32>, n: nat)
    requires
        n <= 4294967296,
    ensures
        tags_increasing(tags_below(d, n)),
        forall|x: u32| #[trigger] tags_below(d, n).contains(x) <==> (d.contains(x) && x < n),
    decreases n,
{
    if n > 0 {
        let k = (n - 1) as nat;
        lemma_tags_below(d, k);
        let p = tags_below(d, k);
        if d.contains(k as u32) {
            let q = p.push(k as u32);
            assert forall|x: u32| q.contains(x) <==> (d.contains(x) && x < n) by {
                if q.contains(x) {
                    let i = choose|i: int| 0 <= i < q.len() && q[i] == x;
                    if i < p.len() {
                        assert(p.contains(x));
                    }
                }
                if d.contains(x) && x < n {
                    if x < k {
                        assert(p.contains(x));
                        let i = choose|i: int| 0 <= i < p.len() && p[i] == x;
                        assert(q[i] == x);
                    } else {
                        assert(q[q.len() - 1] == x);
                    }
                }
            }
            assert forall|i: int, j: int| 0 <= i < j < q.len() implies q[i] < q[j] by {
                if j == q.len() - 1 {
                    assert(q[i] == p[i]);
                    assert(p.contains(p[i]));
                    assert(p[i] < k);
                    assert(q[j] == k as u32);
                } else {
                    assert(q[i] == p[i] && q[j] == p[j]);
                }
            }
        }
    }
}

/// Two increasing sequences with the same members are equal.
pub proof fn lemma_tags_unique(a: Seq<u32>, b: Seq<u32>)
    requires
        tags_increasing(a),
        tags_increasing(b),
        forall|x: u32| a.contains(x) <==> b.contains(x),
    ensures
        a == b,
{
    lemma_tags_agree_prefix(a, b, if a.len() < b.len() { a.len() as int } else { b.len() as int });
    if a.len() < b.len() {
        assert(b.contains(b[a.len() as int]));
        let i = choose|i: int| 0 <= i < a.len() && a[i] == b[a.len() as int];
        assert(b[i] == a[i]);
    } else if b.len() < a.len() {
        assert(a.contains(a[b.len() as int]));
        let i = choose|i: int| 0 <= i < b.len() && b[i] == a[b.len() as int];
        assert(b[i] == a[i]);
    }
    assert(a =~= b);
}

proof fn lemma_tags_agree_prefix(a: Seq<u32>, b: Seq<u32>, n: int)
    requires
        tags_increasing(a),
        tags_increasing(b),
        forall|x: u32| a.contains(x) <==> b.contains(x),
        0 <= n <= a.len(),
        n <= b.len(),
    ensures
        forall|k: int| 0 <= k < n ==> a[k] == b[k],
    decreases n,
{
    if n > 0 {
        let i = n - 1;
        lemma_tags_agree_prefix(a, b, i);
        assert(a.contains(a[i]));
        assert(b.contains(b[i]));
        let j = choose|j: int| 0 <= j < b.len() && b[j] == a[i];
        let l = choose|l: int| 0 <= l < a.len() && a[l] == b[i];
        if j < i {
            assert(a[j] == b[j]);
        }
        if l < i {
            assert(a[l] == b[l]);
        }
    }
}

/// An increasing sequence of the members of `d` is `sorted_tags(d)`.
pub proof fn lemma_sorted_tags(d: Set<u32>, ks: Seq<u32>)
    requires
        tags_increasing(ks),
        forall|x: u32| ks.contains(x) <==> d.contains(x),
    ensures
        sorted_tags(d) == ks,
{
    lemma_tags_below(d, 4294967296);
    lemma_tags_unique(sorted_tags(d), ks);
}

/// That tag keys are totally ordered, as a map of them needs.
pub open spec fn tag_keys_ordered() -> bool {
    vstd::laws_cmp::obeys_cmp::<u32>()
}

/// What the standard library promises of tag keys: a total order, by which
/// a map's iterator walks its keys in increasing order.
pub proof fn lemma_tag_key_order()
    ensures
        vstd::std_specs::btree::key_obeys_cmp_spec::<u32>(),
        tag_keys_ordered(),
        forall|s: Seq<u32>| #[trigger]
            vstd::std_specs::btree::increasing_seq(s) ==> tags_increasing(s),
{
    broadcast use vstd::std_specs::btree::group_btree_axioms, vstd::laws_cmp::group_laws_cmp;

    assert forall|s: Seq<u32>| #[trigger] vstd::std_specs::btree::increasing_seq(s) implies tags_increasing(s) by {
        assert forall|i: int, j: int| 0 <= i < j < s.len() implies s[i] < s[j] by {
            assert(vstd::std_specs::cmp::OrdSpec::cmp_spec(&s[i], &s[j]) is Less);
        }
    }
}

/// The entries of a tag-keyed map, in increasing key order.
pub fn tag_entries_in_order<V: Clone>(m: &BTreeMap<u32, V>) -> (r: (Vec<u32>, Vec<&V>))
    ensures
        r.0@ == sorted_tags(m@.dom()),
        r.1@.len() == r.0@.len(),
        forall|i: int| 0 <= i < r.0@.len() ==> *r.1@[i] == m@[r.0@[i]],
{
    proof {
        lemma_tag_key_order();
    }
    broadcast use vstd::std_specs::btree::group_btree_axioms;

    let iter = m.iter();
    let ghost es = iter.remaining();
    let ghost ek = es.map_values(|kv: (&u32, &V)| *kv.0);
    let ghost ev = es.map_values(|kv: (&u32, &V)| kv.1);
    assert(vstd::std_specs::btree::increasing_seq(ek));
    let mut keys: Vec<u32> = Vec::new();
    let mut values: Vec<&V> = Vec::new();
    for kv in it: iter
        invariant
            it.seq() == es,
            ek == es.map_values(|kv: (&u32, &V)| *kv.0),
            ev == es.map_values(|kv: (&u32, &V)| kv.1),
            keys@ == ek.subrange(0, it.index()),
            values@ == ev.subrange(0, it.index()),
    {
        keys.push(*kv.0);
        values.push(kv.1);
    }
    assert(keys@ == ek);
    assert(values@ == ev);
    proof {
        let ks = keys@;
        assert forall|i: int, j: int| 0 <= i < j < ks.len() implies ks[i] < ks[j] by {
            assert(ek[i] == ks[i] && ek[j] == ks[j]);
        }
        assert forall|x: u32| ks.contains(x) <==> m@.dom().contains(x) by {
            if ks.contains(x) {
                let i = choose|i: int| 0 <= i < ks.len() && ks[i] == x;
                assert(m@.contains_key(*es[i].0));
            }
            if m@.dom().contains(x) {
                assert(es.contains((&x, &m@[x])));
                let i = choose|i: int| 0 <= i < es.len() && es[i] == (&x, &m@[x]);
                assert(ks[i] == x);
            }
        }
        lemma_sorted_tags(m@.dom(), ks);
        assert forall|i: int| 0 <= i < ks.len() implies *values@[i] == m@[ks[i]] by {
            assert(m@.contains_key(*es[i].0) && m@[*es[i].0] == *es[i].1);
        }
    }
    (keys, values)
}

} // verus!
