//! Reading back a written script list gives the scripts it was written from.
use crate::binary::{
    be16, be16_seq, be32, lemma_be16_seq_index, lemma_be16_seq_len, lemma_read_be16, lemma_read_be32,
    lemma_u16_at_shift, lemma_u32_at_shift, u16_at, u32_at,
};
use crate::layout::common::{
    default_bytes, lang_sys_bytes, lang_sys_decoding, lang_sys_fits, lang_sys_list_bytes,
    lang_sys_offsets, lang_sys_records_decoding, lemma_lang_sys_bytes_len, lemma_tag_records_len,
    list_scripts, script_bytes, script_decoding, script_first, script_fits, script_lang_systems,
    script_list_decoding, script_list_encoding, script_list_fits, script_offsets, script_records_decoding,
    scripts_bytes, tag_records_bytes,
};
use crate::layout::tagged::{lemma_tags_below, sorted_tags};
use vstd::prelude::*;

verus! {

/// `x` stands in `s` from byte `p` on.
pub open spec fn window(s: Seq<u8>, p: int, x: Seq<u8>) -> bool {
    &&& 0 <= p
    &&& p + x.len() <= s.len()
    &&& s.subrange(p, p + x.len()) == x
}

pub(crate) proof fn lemma_window_u16(s: Seq<u8>, p: int, x: Seq<u8>, i: int)
    requires
        window(s, p, x),
        0 <= i,
        i + 2 <= x.len(),
    ensures
        u16_at(s, p + i) == u16_at(x, i),
{
    assert(x[i] == s.subrange(p, p + x.len())[i]);
    assert(x[i + 1] == s.subrange(p, p + x.len())[i + 1]);
}

pub(crate) proof fn lemma_window_u32(s: Seq<u8>, p: int, x: Seq<u8>, i: int)
    requires
        window(s, p, x),
        0 <= i,
        i + 4 <= x.len(),
    ensures
        u32_at(s, p + i) == u32_at(x, i),
{
    assert(x[i] == s.subrange(p, p + x.len())[i]);
    assert(x[i + 1] == s.subrange(p, p + x.len())[i + 1]);
    assert(x[i + 2] == s.subrange(p, p + x.len())[i + 2]);
    assert(x[i + 3] == s.subrange(p, p + x.len())[i + 3]);
}

/// A window inside a window.
pub(crate) proof fn lemma_window_nest(s: Seq<u8>, p: int, x: Seq<u8>, q: int, y: Seq<u8>)
    requires
        window(s, p, x),
        window(x, q, y),
    ensures
        window(s, p + q, y),
{
    assert(s.subrange(p + q, p + q + y.len()) =~= x.subrange(q, q + y.len()));
}

/// The parts of `a + b + c` stand where they are.
pub(crate) proof fn lemma_window_parts(a: Seq<u8>, b: Seq<u8>, c: Seq<u8>)
    ensures
        window(a + b + c, 0, a),
        window(a + b + c, a.len() as int, b),
        window(a + b + c, (a.len() + b.len()) as int, c),
{
    let s = a + b + c;
    assert(s.subrange(0, a.len() as int) =~= a);
    assert(s.subrange(a.len() as int, (a.len() + b.len()) as int) =~= b);
    assert(s.subrange((a.len() + b.len()) as int, (a.len() + b.len() + c.len()) as int) =~= c);
}

/// A language system that reads back as itself: a required feature below
/// 0xFFFF (which stands for none) and feature indices that fit in 16 bits.
pub open spec fn lang_sys_exact(l: (Option<usize>, Seq<usize>)) -> bool {
    &&& (l.0 matches Some(i) ==> i < 0xFFFF)
    &&& forall|k: int| 0 <= k < l.1.len() ==> #[trigger] l.1[k] < 0x10000
}

proof fn lemma_lang_sys_read(s: Seq<u8>, p: int, l: (Option<usize>, Seq<usize>))
    requires
        window(s, p, lang_sys_bytes(l)),
        lang_sys_exact(l),
        lang_sys_fits(l),
    ensures
        lang_sys_decoding(s, p) == Some(l),
{
    let req: u16 = match l.0 {
        Some(i) => i as u16,
        None => 0xFFFF,
    };
    let idx = l.1.map_values(|x: usize| x as u16);
    let x = lang_sys_bytes(l);
    let h = be16(0) + be16(req) + be16(l.1.len() as u16);
    lemma_be16_seq_len(idx);
    assert(x =~= h + be16_seq(idx));
    assert(u16_at(x, 2) == req) by {
        lemma_window_parts(be16(0), be16(req), be16(l.1.len() as u16) + be16_seq(idx));
        assert(x =~= be16(0) + be16(req) + (be16(l.1.len() as u16) + be16_seq(idx)));
        lemma_window_u16(x, 2, be16(req), 0);
    }
    assert(u16_at(x, 4) == l.1.len() as u16) by {
        lemma_window_parts(be16(0) + be16(req), be16(l.1.len() as u16), be16_seq(idx));
        lemma_window_u16(x, 4, be16(l.1.len() as u16), 0);
    }
    lemma_window_u16(s, p, x, 2);
    lemma_window_u16(s, p, x, 4);
    assert(u16_at(s, p + 4) == l.1.len());
    let d = lang_sys_decoding(s, p)->0;
    assert(d.1 =~= l.1) by {
        assert forall|k: int| 0 <= k < l.1.len() implies #[trigger] d.1[k] == l.1[k] by {
            lemma_be16_seq_index(idx, k);
            lemma_window_parts(h, be16_seq(idx), Seq::empty());
            assert(x =~= h + be16_seq(idx) + Seq::empty());
            lemma_window_nest(s, p, x, 6, be16_seq(idx));
            lemma_window_u16(s, p + 6, be16_seq(idx), 2 * k);
        }
    }
}

pub(crate) proof fn lemma_window_extend(a: Seq<u8>, b: Seq<u8>, p: int, y: Seq<u8>)
    requires
        window(a, p, y),
    ensures
        window(a + b, p, y),
{
    assert((a + b).subrange(p, p + y.len()) =~= a.subrange(p, p + y.len()));
}

/// Record `k` of the first `n` tag records: the tag, then the offset.
proof fn lemma_tag_records_read(tags: Seq<u32>, offs: Seq<u16>, n: nat, k: int)
    requires
        0 <= k < n,
        n <= tags.len(),
        n <= offs.len(),
    ensures
        u32_at(tag_records_bytes(tags, offs, n), 6 * k) == tags[k],
        u16_at(tag_records_bytes(tags, offs, n), 6 * k + 4) == offs[k],
    decreases n,
{
    let j = (n - 1) as nat;
    let p = tag_records_bytes(tags, offs, j);
    lemma_tag_records_len(tags, offs, j);
    let t = be32(tags[j as int]) + be16(offs[j as int]);
    assert(tag_records_bytes(tags, offs, n) =~= p + t);
    if k == j {
        lemma_read_be32(p, tags[j as int], be16(offs[j as int]));
        assert(p + t =~= p + be32(tags[j as int]) + be16(offs[j as int]));
        lemma_read_be16(p + be32(tags[j as int]), offs[j as int], Seq::empty());
        assert(p + t =~= p + be32(tags[j as int]) + be16(offs[j as int]) + Seq::<u8>::empty());
    } else {
        lemma_tag_records_read(tags, offs, j, k);
        lemma_tag_records_len(tags, offs, j);
        lemma_u32_at_shift(t, p, 6 * k);
        lemma_u16_at_shift(t, p, 6 * k + 4);
    }
}

/// Language system `j` of a list stands after those before it.
proof fn lemma_lang_sys_piece(ls: Seq<(Option<usize>, Seq<usize>)>, j: int)
    requires
        0 <= j < ls.len(),
    ensures
        window(lang_sys_list_bytes(ls), lang_sys_list_bytes(ls.take(j)).len() as int, lang_sys_bytes(ls[j])),
    decreases ls.len(),
{
    let init = ls.drop_last();
    assert(lang_sys_list_bytes(ls) == lang_sys_list_bytes(init) + lang_sys_bytes(ls.last()));
    if j == ls.len() - 1 {
        assert(init =~= ls.take(j));
        lemma_window_parts(lang_sys_list_bytes(init), lang_sys_bytes(ls.last()), Seq::empty());
        assert(lang_sys_list_bytes(init) + lang_sys_bytes(ls.last()) + Seq::<u8>::empty() =~= lang_sys_list_bytes(
            ls,
        ));
    } else {
        lemma_lang_sys_piece(init, j);
        assert(init.take(j) =~= ls.take(j));
        lemma_window_extend(lang_sys_list_bytes(init), lang_sys_bytes(ls.last()), lang_sys_list_bytes(ls.take(j)).len() as int, lang_sys_bytes(ls[j]));
    }
}

/// A script that reads back as itself: each of its language systems does.
pub open spec fn script_exact(
    sv: (Option<(Option<usize>, Seq<usize>)>, Map<u32, (Option<usize>, Seq<usize>)>),
) -> bool {
    &&& (sv.0 matches Some(l) ==> lang_sys_exact(l))
    &&& forall|t: u32| sv.1.dom().contains(t) ==> lang_sys_exact(#[trigger] sv.1[t])
}

/// The entries of `m` under the first `k` tags of `tags`.
pub open spec fn tags_prefix_map<V>(tags: Seq<u32>, m: Map<u32, V>, k: int) -> Map<u32, V> {
    Map::new(|t: u32| tags.take(k).contains(t), |t: u32| m[t])
}

/// One more tag in the prefix adds its entry.
proof fn lemma_prefix_map_step<V>(tags: Seq<u32>, m: Map<u32, V>, j: int)
    requires
        0 <= j < tags.len(),
    ensures
        tags_prefix_map(tags, m, j + 1) == tags_prefix_map(tags, m, j).insert(tags[j], m[tags[j]]),
{
    let t1 = tags.take(j + 1);
    let t0 = tags.take(j);
    assert forall|t: u32| #[trigger] t1.contains(t) <==> (t0.contains(t) || t == tags[j]) by {
        if t1.contains(t) {
            let i = choose|i: int| 0 <= i < t1.len() && t1[i] == t;
            if i < j {
                assert(t0[i] == t);
            }
        }
        if t0.contains(t) {
            let i = choose|i: int| 0 <= i < t0.len() && t0[i] == t;
            assert(t1[i] == t);
        }
        if t == tags[j] {
            assert(t1[j] == t);
        }
    }
    assert(tags_prefix_map(tags, m, j + 1) =~= tags_prefix_map(tags, m, j).insert(tags[j], m[tags[j]]));
}

/// The pieces of a script table.
#[verifier::spinoff_prover]
proof fn lemma_script_layout(
    sv: (Option<(Option<usize>, Seq<usize>)>, Map<u32, (Option<usize>, Seq<usize>)>),
)
    requires
        script_fits(sv),
    ensures
        ({
            let tags = sorted_tags(sv.1.dom());
            let n = tags.len();
            let first = script_first(sv);
            let defoff: u16 = (if sv.0 is Some { first } else { 0 }) as u16;
            let hr = be16(defoff) + be16(n as u16) + tag_records_bytes(tags, lang_sys_offsets(sv), n);
            &&& first == 4 + 6 * n <= 65535
            &&& hr.len() == first
            &&& script_bytes(sv) == hr + default_bytes(sv.0) + lang_sys_list_bytes(script_lang_systems(sv))
            &&& window(script_bytes(sv), 4, tag_records_bytes(tags, lang_sys_offsets(sv), n))
            &&& u16_at(script_bytes(sv), 0) == defoff
            &&& u16_at(script_bytes(sv), 2) == n
            &&& window(script_bytes(sv), first, default_bytes(sv.0))
            &&& window(script_bytes(sv), first + default_bytes(sv.0).len(), lang_sys_list_bytes(script_lang_systems(sv)))
        }),
{
    let tags = sorted_tags(sv.1.dom());
    let n = tags.len();
    let first = script_first(sv);
    let defoff: u16 = (if sv.0 is Some { first } else { 0 }) as u16;
    let offs = lang_sys_offsets(sv);
    let r = tag_records_bytes(tags, offs, n);
    lemma_tag_records_len(tags, offs, n);
    let h = be16(defoff) + be16(n as u16);
    let hr = h + r;
    let d = default_bytes(sv.0);
    let l = lang_sys_list_bytes(script_lang_systems(sv));
    let x = script_bytes(sv);
    assert(x =~= hr + d + l);
    lemma_window_parts(hr, d, l);
    lemma_window_parts(h, r, d + l);
    assert(x =~= h + r + (d + l));
    lemma_read_be16(Seq::empty(), defoff, be16(n as u16) + r + d + l);
    assert(x =~= Seq::<u8>::empty() + be16(defoff) + (be16(n as u16) + r + d + l));
    lemma_read_be16(be16(defoff), n as u16, r + d + l);
    assert(x =~= be16(defoff) + be16(n as u16) + (r + d + l));
}

/// Record `j` of a script table that fits and reads back: its tag, its offset
/// (not null), and the language system there.
#[verifier::spinoff_prover]
proof fn lemma_lang_sys_record(
    s: Seq<u8>,
    base: int,
    sv: (Option<(Option<usize>, Seq<usize>)>, Map<u32, (Option<usize>, Seq<usize>)>),
    j: int,
)
    requires
        window(s, base, script_bytes(sv)),
        script_fits(sv),
        script_exact(sv),
        0 <= j < sorted_tags(sv.1.dom()).len(),
    ensures
        u32_at(s, base + 4 + 6 * j) == sorted_tags(sv.1.dom())[j],
        u16_at(s, base + 8 + 6 * j) != 0,
        lang_sys_decoding(s, base + u16_at(s, base + 8 + 6 * j)) == Some(sv.1[sorted_tags(sv.1.dom())[j]]),
{
    let tags = sorted_tags(sv.1.dom());
    let n = tags.len();
    let ls = script_lang_systems(sv);
    let offs = lang_sys_offsets(sv);
    let first = script_first(sv);
    let x = script_bytes(sv);
    let r = tag_records_bytes(tags, offs, n);
    lemma_script_layout(sv);
    lemma_tag_records_len(tags, offs, n);
    lemma_tag_records_read(tags, offs, n, j);
    lemma_window_nest(s, base, x, 4, r);
    lemma_window_u32(s, base + 4, r, 6 * j);
    lemma_window_u16(s, base + 4, r, 6 * j + 4);
    let o = first + default_bytes(sv.0).len() + lang_sys_list_bytes(ls.take(j)).len();
    assert(o <= 65535);
    assert(offs[j] == o);
    assert(ls[j] == sv.1[tags[j]]);
    lemma_tags_below(sv.1.dom(), 4294967296);
    assert(tags.contains(tags[j]));
    assert(lang_sys_exact(ls[j]));
    assert(lang_sys_fits(ls[j]));
    lemma_lang_sys_piece(ls, j);
    lemma_window_nest(x, first + default_bytes(sv.0).len(), lang_sys_list_bytes(ls), lang_sys_list_bytes(ls.take(j)).len() as int, lang_sys_bytes(ls[j]));
    lemma_window_nest(s, base, x, o, lang_sys_bytes(ls[j]));
    lemma_lang_sys_read(s, base + o, ls[j]);
}

#[verifier::spinoff_prover]
proof fn lemma_lang_sys_records(
    s: Seq<u8>,
    base: int,
    sv: (Option<(Option<usize>, Seq<usize>)>, Map<u32, (Option<usize>, Seq<usize>)>),
    k: nat,
)
    requires
        window(s, base, script_bytes(sv)),
        script_fits(sv),
        script_exact(sv),
        k <= sorted_tags(sv.1.dom()).len(),
    ensures
        lang_sys_records_decoding(s, base, k) == Some(tags_prefix_map(sorted_tags(sv.1.dom()), sv.1, k as int)),
    decreases k,
{
    let tags = sorted_tags(sv.1.dom());
    if k == 0 {
        assert(tags_prefix_map(tags, sv.1, 0) =~= Map::empty());
    } else {
        let j = (k - 1) as nat;
        lemma_lang_sys_records(s, base, sv, j);
        lemma_lang_sys_record(s, base, sv, j as int);
        lemma_prefix_map_step(tags, sv.1, j as int);
    }
}

/// A script table that fits and whose language systems read back reads back.
#[verifier::spinoff_prover]
proof fn lemma_script_read(
    s: Seq<u8>,
    base: int,
    sv: (Option<(Option<usize>, Seq<usize>)>, Map<u32, (Option<usize>, Seq<usize>)>),
)
    requires
        window(s, base, script_bytes(sv)),
        script_fits(sv),
        script_exact(sv),
    ensures
        script_decoding(s, base) == Some(sv),
{
    let tags = sorted_tags(sv.1.dom());
    let n = tags.len();
    let x = script_bytes(sv);
    let first = script_first(sv);
    lemma_script_layout(sv);
    lemma_window_u16(s, base, x, 0);
    lemma_window_u16(s, base, x, 2);
    lemma_tag_records_len(tags, lang_sys_offsets(sv), n);
    lemma_lang_sys_records(s, base, sv, n);
    match sv.0 {
        Some(l) => {
            lemma_window_nest(s, base, x, first, lang_sys_bytes(l));
            lemma_lang_sys_read(s, base + first, l);
        },
        None => {},
    }
    lemma_tags_below(sv.1.dom(), 4294967296);
    assert(tags.take(n as int) =~= tags);
    assert(tags_prefix_map(tags, sv.1, n as int) =~= sv.1);
}

/// Script `j` of a list stands after those before it.
proof fn lemma_script_piece(
    ss: Seq<(Option<(Option<usize>, Seq<usize>)>, Map<u32, (Option<usize>, Seq<usize>)>)>,
    j: int,
)
    requires
        0 <= j < ss.len(),
    ensures
        window(scripts_bytes(ss), scripts_bytes(ss.take(j)).len() as int, script_bytes(ss[j])),
    decreases ss.len(),
{
    let init = ss.drop_last();
    assert(scripts_bytes(ss) == scripts_bytes(init) + script_bytes(ss.last()));
    if j == ss.len() - 1 {
        assert(init =~= ss.take(j));
        lemma_window_parts(scripts_bytes(init), script_bytes(ss.last()), Seq::empty());
        assert(scripts_bytes(init) + script_bytes(ss.last()) + Seq::<u8>::empty() =~= scripts_bytes(ss));
    } else {
        lemma_script_piece(init, j);
        assert(init.take(j) =~= ss.take(j));
        lemma_window_extend(scripts_bytes(init), script_bytes(ss.last()), scripts_bytes(ss.take(j)).len() as int, script_bytes(ss[j]));
    }
}

type ScriptValue = (Option<(Option<usize>, Seq<usize>)>, Map<u32, (Option<usize>, Seq<usize>)>);

/// Record `j` of a script list that fits and reads back: its tag, its offset
/// (not null), and the script there.
#[verifier::spinoff_prover]
proof fn lemma_script_record(m: Map<u32, ScriptValue>, j: int)
    requires
        script_list_fits(m),
        forall|t: u32| m.dom().contains(t) ==> script_exact(#[trigger] m[t]),
        0 <= j < sorted_tags(m.dom()).len(),
    ensures
        ({
            let s = script_list_encoding(m);
            &&& u32_at(s, 2 + 6 * j) == sorted_tags(m.dom())[j]
            &&& u16_at(s, 6 + 6 * j) != 0
            &&& script_decoding(s, u16_at(s, 6 + 6 * j) as int) == Some(m[sorted_tags(m.dom())[j]])
        }),
{
    let tags = sorted_tags(m.dom());
    let n = tags.len();
    let ss = list_scripts(m);
    let offs = script_offsets(m);
    let s = script_list_encoding(m);
    let r = tag_records_bytes(tags, offs, n);
    let b = scripts_bytes(ss);
    lemma_tag_records_len(tags, offs, n);
    lemma_tag_records_read(tags, offs, n, j);
    assert(s =~= be16(n as u16) + r + b);
    lemma_window_parts(be16(n as u16), r, b);
    lemma_window_u32(s, 2, r, 6 * j);
    lemma_window_u16(s, 2, r, 6 * j + 4);
    let o: int = (2 + 6 * n + scripts_bytes(ss.take(j)).len()) as int;
    assert(o <= 65535);
    assert(offs[j] == o);
    assert(ss[j] == m[tags[j]]);
    lemma_tags_below(m.dom(), 4294967296);
    assert(tags.contains(tags[j]));
    assert(script_fits(ss[j]));
    lemma_script_piece(ss, j);
    lemma_window_nest(s, (2 + 6 * n) as int, b, scripts_bytes(ss.take(j)).len() as int, script_bytes(ss[j]));
    lemma_script_read(s, o, ss[j]);
}

#[verifier::spinoff_prover]
proof fn lemma_script_records(m: Map<u32, ScriptValue>, k: nat)
    requires
        script_list_fits(m),
        forall|t: u32| m.dom().contains(t) ==> script_exact(#[trigger] m[t]),
        k <= sorted_tags(m.dom()).len(),
    ensures
        script_records_decoding(script_list_encoding(m), k) == Some(tags_prefix_map(sorted_tags(m.dom()), m, k as int)),
    decreases k,
{
    let tags = sorted_tags(m.dom());
    if k == 0 {
        assert(tags_prefix_map(tags, m, 0) =~= Map::empty());
    } else {
        let j = (k - 1) as nat;
        lemma_script_records(m, j);
        lemma_script_record(m, j as int);
        lemma_prefix_map_step(tags, m, j as int);
    }
}

/// Reading back a written script list gives the scripts it was written from,
/// for every list whose offsets and counts fit their 16 bits and whose
/// language systems have required features below 0xFFFF (which stands for
/// none) and feature indices that fit in 16 bits.
#[verifier::spinoff_prover]
pub proof fn lemma_script_list_roundtrip(m: Map<u32, ScriptValue>)
    requires
        script_list_fits(m),
        forall|t: u32| m.dom().contains(t) ==> script_exact(#[trigger] m[t]),
    ensures
        script_list_decoding(script_list_encoding(m)) == Some(m),
{
    let tags = sorted_tags(m.dom());
    let n = tags.len();
    let s = script_list_encoding(m);
    let r = tag_records_bytes(tags, script_offsets(m), n);
    lemma_tag_records_len(tags, script_offsets(m), n);
    lemma_read_be16(Seq::empty(), n as u16, r + scripts_bytes(list_scripts(m)));
    assert(s =~= Seq::<u8>::empty() + be16(n as u16) + (r + scripts_bytes(list_scripts(m))));
    lemma_script_records(m, n);
    lemma_tags_below(m.dom(), 4294967296);
    assert(tags.take(n as int) =~= tags);
    assert(tags_prefix_map(tags, m, n as int) =~= m);
}

} // verus!
