//! The script list shared by the GSUB and GPOS tables: for each script tag a
//! script table, with an optional default language system and language
//! systems by language tag. Tags are their four bytes read as a big-endian
//! number.
use crate::binary::{
    be16, be16_seq, be32, lemma_be16_seq_len, push_bytes, push_u16, push_u32, read_u16, read_u16_vec,
    read_u32, u16_at, u32_at, DeserializationError, SerializationError,
};
use crate::layout::tagged::{lemma_tag_key_order, sorted_tags, tag_entries_in_order, tag_keys_ordered};
use std::collections::BTreeMap;
use vstd::prelude::*;

verus! {

/// A LanguageSystem table, selecting which features should be applied in the
/// current script/language combination.
#[derive(Debug, PartialEq, Clone)]
pub struct LanguageSystem {
    /// Each language system can define a required feature which must be processed
    /// for this script/language combination.
    pub required_feature: Option<usize>,
    /// A list of indices into the feature table to be processed for this
    /// script language combination.
    pub feature_indices: Vec<usize>,
}

/// A Script table, containing information about language systems for a certain script.
#[derive(Debug, PartialEq, Clone, Default)]
pub struct Script {
    /// Optionally, a default language system to be used when no specific
    /// language is selected.
    pub default_language_system: Option<LanguageSystem>,
    /// A mapping between language tags and `LanguageSystem` records.
    pub language_systems: BTreeMap<u32, LanguageSystem>,
}

/// A script list
#[derive(Debug, PartialEq, Clone, Default)]
pub struct ScriptList {
    /// A mapping between script tags and `Script` tables.
    pub scripts: BTreeMap<u32, Script>,
}

/// A language system as values: required feature and feature indices.
pub open spec fn lang_sys_view(l: LanguageSystem) -> (Option<usize>, Seq<usize>) {
    (l.required_feature, l.feature_indices@)
}

/// An optional language system as values.
pub open spec fn default_view(o: Option<LanguageSystem>) -> Option<(Option<usize>, Seq<usize>)> {
    match o {
        Some(l) => Some(lang_sys_view(l)),
        None => None,
    }
}

/// A script as values: default language system and language systems by tag.
pub open spec fn script_view(s: Script) -> (
    Option<(Option<usize>, Seq<usize>)>,
    Map<u32, (Option<usize>, Seq<usize>)>,
) {
    (
        default_view(s.default_language_system),
        s.language_systems@.map_values(|l: LanguageSystem| lang_sys_view(l)),
    )
}

impl View for ScriptList {
    type V = Map<u32, (Option<(Option<usize>, Seq<usize>)>, Map<u32, (Option<usize>, Seq<usize>)>)>;

    open spec fn view(&self) -> Self::V {
        self.scripts@.map_values(|s: Script| script_view(s))
    }
}

/// The language system table at `p`: the reserved lookup order offset, the
/// required feature index (0xFFFF for none), the count and the feature indices.
pub open spec fn lang_sys_decoding(s: Seq<u8>, p: int) -> Option<(Option<usize>, Seq<usize>)> {
    if 0 <= p && p + 6 <= s.len() && p + 6 + 2 * u16_at(s, p + 4) <= s.len() {
        let req = u16_at(s, p + 2);
        Some(
            (
                if req == 0xFFFF {
                    None
                } else {
                    Some(req as usize)
                },
                Seq::new(u16_at(s, p + 4) as nat, |k: int| u16_at(s, p + 6 + 2 * k) as usize),
            ),
        )
    } else {
        None
    }
}

/// The first `n` language system records of the script table at `base`
/// (tag and offset from the script table), read into a map; later records
/// replace earlier ones with the same tag. `None` where an offset is null or a
/// table is cut short.
pub open spec fn lang_sys_records_decoding(s: Seq<u8>, base: int, n: nat) -> Option<
    Map<u32, (Option<usize>, Seq<usize>)>,
>
    decreases n,
{
    if n == 0 {
        Some(Map::empty())
    } else {
        let k = (n - 1) as nat;
        match lang_sys_records_decoding(s, base, k) {
            None => None,
            Some(m) => {
                let off = u16_at(s, base + 8 + 6 * k);
                if off == 0 {
                    None
                } else {
                    match lang_sys_decoding(s, base + off) {
                        None => None,
                        Some(l) => Some(m.insert(u32_at(s, base + 4 + 6 * k), l)),
                    }
                }
            },
        }
    }
}

/// The script table at `base`: the default language system offset (null for
/// none), the record count and the records.
pub open spec fn script_decoding(s: Seq<u8>, base: int) -> Option<
    (Option<(Option<usize>, Seq<usize>)>, Map<u32, (Option<usize>, Seq<usize>)>),
> {
    if 0 <= base && base + 4 <= s.len() && base + 4 + 6 * u16_at(s, base + 2) <= s.len() {
        let def_off = u16_at(s, base);
        let default = if def_off == 0 {
            Some(None)
        } else {
            match lang_sys_decoding(s, base + def_off) {
                None => None,
                Some(l) => Some(Some(l)),
            }
        };
        match default {
            None => None,
            Some(d) => match lang_sys_records_decoding(s, base, u16_at(s, base + 2) as nat) {
                None => None,
                Some(m) => Some((d, m)),
            },
        }
    } else {
        None
    }
}

/// The first `n` script records of the list (tag and offset), read into a map.
pub open spec fn script_records_decoding(s: Seq<u8>, n: nat) -> Option<
    Map<u32, (Option<(Option<usize>, Seq<usize>)>, Map<u32, (Option<usize>, Seq<usize>)>)>,
>
    decreases n,
{
    if n == 0 {
        Some(Map::empty())
    } else {
        let k = (n - 1) as nat;
        match script_records_decoding(s, k) {
            None => None,
            Some(m) => {
                let off = u16_at(s, 6 + 6 * k as int);
                if off == 0 {
                    None
                } else {
                    match script_decoding(s, off as int) {
                        None => None,
                        Some(sc) => Some(m.insert(u32_at(s, 2 + 6 * k as int), sc)),
                    }
                }
            },
        }
    }
}

/// The scripts that the script list in `s` holds.
pub open spec fn script_list_decoding(s: Seq<u8>) -> Option<
    Map<u32, (Option<(Option<usize>, Seq<usize>)>, Map<u32, (Option<usize>, Seq<usize>)>)>,
> {
    if s.len() >= 2 && 2 + 6 * u16_at(s, 0) <= s.len() {
        script_records_decoding(s, u16_at(s, 0) as nat)
    } else {
        None
    }
}

fn read_lang_sys(data: &[u8], p: usize) -> (r: Option<LanguageSystem>)
    ensures
        match r {
            Some(l) => lang_sys_decoding(data@, p as int) == Some(lang_sys_view(l)),
            None => lang_sys_decoding(data@, p as int) is None,
        },
{
    if p > data.len() || data.len() - p < 6 {
        return None;
    }
    let req = read_u16(data, p + 2).unwrap();
    let n = read_u16(data, p + 4).unwrap();
    let raw = match read_u16_vec(data, p + 6, n as usize) {
        Some(v) => v,
        None => return None,
    };
    let mut indices: Vec<usize> = Vec::new();
    let mut i: usize = 0;
    while i < raw.len()
        invariant
            i <= raw@.len(),
            raw@.len() == n,
            forall|k: int| 0 <= k < n ==> #[trigger] raw@[k] == u16_at(data@, p + 6 + 2 * k),
            indices@ == Seq::new(i as nat, |k: int| u16_at(data@, p + 6 + 2 * k) as usize),
        decreases raw.len() - i,
    {
        indices.push(raw[i] as usize);
        assert(indices@ =~= Seq::new((i + 1) as nat, |k: int| u16_at(data@, p + 6 + 2 * k) as usize));
        i = i + 1;
    }
    Some(LanguageSystem {
        required_feature: if req == 0xFFFF {
            None
        } else {
            Some(req as usize)
        },
        feature_indices: indices,
    })
}

proof fn lemma_lang_sys_records_fail(s: Seq<u8>, base: int, k: nat, n: nat)
    requires
        k <= n,
        lang_sys_records_decoding(s, base, k) is None,
    ensures
        lang_sys_records_decoding(s, base, n) is None,
    decreases n - k,
{
    if k < n {
        lemma_lang_sys_records_fail(s, base, k + 1, n);
    }
}

proof fn lemma_script_records_fail(s: Seq<u8>, k: nat, n: nat)
    requires
        k <= n,
        script_records_decoding(s, k) is None,
    ensures
        script_records_decoding(s, n) is None,
    decreases n - k,
{
    if k < n {
        lemma_script_records_fail(s, k + 1, n);
    }
}

fn read_script(data: &[u8], base: usize) -> (r: Option<Script>)
    ensures
        match r {
            Some(sc) => script_decoding(data@, base as int) == Some(script_view(sc)),
            None => script_decoding(data@, base as int) is None,
        },
{
    proof {
        lemma_tag_key_order();
    }
    if base > data.len() || data.len() - base < 4 {
        return None;
    }
    let def_off = read_u16(data, base).unwrap();
    let n = read_u16(data, base + 2).unwrap();
    if (data.len() - base - 4) / 6 < n as usize {
        return None;
    }
    let default_language_system = if def_off == 0 {
        None
    } else if data.len() - base < def_off as usize {
        return None;
    } else {
        match read_lang_sys(data, base + def_off as usize) {
            Some(l) => Some(l),
            None => return None,
        }
    };
    let ghost dv = default_view(default_language_system);
    assert(script_decoding(data@, base as int) == match lang_sys_records_decoding(
        data@,
        base as int,
        n as nat,
    ) {
        None => None,
        Some(m) => Some((dv, m)),
    });
    let mut language_systems: BTreeMap<u32, LanguageSystem> = BTreeMap::new();
    let mut k: u16 = 0;
    while k < n
        invariant
            k <= n,
            base + 4 + 6 * n <= data@.len(),
            data@.len() <= usize::MAX,
            tag_keys_ordered(),
            script_decoding(data@, base as int) == match lang_sys_records_decoding(
                data@,
                base as int,
                n as nat,
            ) {
                None => None,
                Some(m) => Some((dv, m)),
            },
            dv == default_view(default_language_system),
            lang_sys_records_decoding(data@, base as int, k as nat) == Some(
                language_systems@.map_values(|l: LanguageSystem| lang_sys_view(l)),
            ),
        decreases n - k,
    {
        let tag = read_u32(data, base + 4 + 6 * (k as usize)).unwrap();
        let off = read_u16(data, base + 8 + 6 * (k as usize)).unwrap();
        if off == 0 {
            proof {
                lemma_lang_sys_records_fail(data@, base as int, (k + 1) as nat, n as nat);
            }
            return None;
        }
        if data.len() - base < off as usize {
            proof {
                lemma_lang_sys_records_fail(data@, base as int, (k + 1) as nat, n as nat);
            }
            return None;
        }
        let l = match read_lang_sys(data, base + off as usize) {
            Some(l) => l,
            None => {
                proof {
                    lemma_lang_sys_records_fail(data@, base as int, (k + 1) as nat, n as nat);
                }
                return None;
            },
        };
        let ghost lv = lang_sys_view(l);
        let ghost before = language_systems@;
        language_systems.insert(tag, l);
        assert(language_systems@.map_values(|l: LanguageSystem| lang_sys_view(l)) =~= before.map_values(
            |l: LanguageSystem| lang_sys_view(l),
        ).insert(tag, lv));
        k = k + 1;
    }
    let sc = Script { default_language_system, language_systems };
    Some(sc)
}

impl ScriptList {
    /// Reads a script list, its script tables and their language system tables.
    pub fn from_bytes(data: &[u8]) -> (r: Result<ScriptList, DeserializationError>)
        ensures
            match r {
                Ok(t) => script_list_decoding(data@) == Some(t@),
                Err(_) => script_list_decoding(data@) is None,
            },
    {
        proof {
            lemma_tag_key_order();
        }
        let n = match read_u16(data, 0) {
            Some(n) => n,
            None => return Err(DeserializationError::UnexpectedEof),
        };
        if (data.len() - 2) / 6 < n as usize {
            return Err(DeserializationError::UnexpectedEof);
        }
        let mut scripts: BTreeMap<u32, Script> = BTreeMap::new();
        let mut k: u16 = 0;
        while k < n
            invariant
                k <= n,
                n == u16_at(data@, 0),
                2 + 6 * n <= data@.len(),
                data@.len() <= usize::MAX,
                tag_keys_ordered(),
                script_records_decoding(data@, k as nat) == Some(
                    scripts@.map_values(|s: Script| script_view(s)),
                ),
            decreases n - k,
        {
            let tag = read_u32(data, 2 + 6 * (k as usize)).unwrap();
            let off = read_u16(data, 6 + 6 * (k as usize)).unwrap();
            if off == 0 {
                proof {
                    lemma_script_records_fail(data@, (k + 1) as nat, n as nat);
                }
                return Err(DeserializationError::Missing);
            }
            let sc = match read_script(data, off as usize) {
                Some(sc) => sc,
                None => {
                    proof {
                        lemma_script_records_fail(data@, (k + 1) as nat, n as nat);
                    }
                    return Err(DeserializationError::UnexpectedEof);
                },
            };
            let ghost sv = script_view(sc);
            let ghost before = scripts@;
            scripts.insert(tag, sc);
            assert(scripts@.map_values(|s: Script| script_view(s)) =~= before.map_values(
                |s: Script| script_view(s),
            ).insert(tag, sv));
            k = k + 1;
        }
        Ok(ScriptList { scripts })
    }
}

/// A language system table: the reserved lookup order offset (0), the required
/// feature index (0xFFFF for none), the count and the feature indices, each
/// index written in 16 bits (a larger one is cut to its low 16 bits).
pub open spec fn lang_sys_bytes(l: (Option<usize>, Seq<usize>)) -> Seq<u8> {
    be16(0) + be16(
        match l.0 {
            Some(i) => i as u16,
            None => 0xFFFF,
        },
    ) + be16(l.1.len() as u16) + be16_seq(l.1.map_values(|x: usize| x as u16))
}

/// Language system tables one after another.
pub open spec fn lang_sys_list_bytes(ls: Seq<(Option<usize>, Seq<usize>)>) -> Seq<u8>
    decreases ls.len(),
{
    if ls.len() == 0 {
        Seq::empty()
    } else {
        lang_sys_list_bytes(ls.drop_last()) + lang_sys_bytes(ls.last())
    }
}

/// The first `n` records of tags and offsets.
pub open spec fn tag_records_bytes(tags: Seq<u32>, offs: Seq<u16>, n: nat) -> Seq<u8>
    decreases n,
{
    if n == 0 {
        Seq::empty()
    } else {
        let k = (n - 1) as nat;
        tag_records_bytes(tags, offs, k) + be32(tags[k as int]) + be16(offs[k as int])
    }
}

/// The language systems of a script in the order of their tags.
pub open spec fn script_lang_systems(
    sv: (Option<(Option<usize>, Seq<usize>)>, Map<u32, (Option<usize>, Seq<usize>)>),
) -> Seq<(Option<usize>, Seq<usize>)> {
    sorted_tags(sv.1.dom()).map_values(|t: u32| sv.1[t])
}

/// The bytes of a script's default language system table; none for none.
pub open spec fn default_bytes(d: Option<(Option<usize>, Seq<usize>)>) -> Seq<u8> {
    match d {
        Some(l) => lang_sys_bytes(l),
        None => Seq::empty(),
    }
}

/// Where the language system tables of a script start: after its header and records.
pub open spec fn script_first(
    sv: (Option<(Option<usize>, Seq<usize>)>, Map<u32, (Option<usize>, Seq<usize>)>),
) -> int {
    (4 + 6 * sorted_tags(sv.1.dom()).len()) as int
}

/// Where each language system record's table starts, from the script table.
pub open spec fn lang_sys_offsets(
    sv: (Option<(Option<usize>, Seq<usize>)>, Map<u32, (Option<usize>, Seq<usize>)>),
) -> Seq<u16> {
    let ls = script_lang_systems(sv);
    Seq::new(
        ls.len(),
        |k: int| (script_first(sv) + default_bytes(sv.0).len() + lang_sys_list_bytes(ls.take(k)).len()) as u16,
    )
}

/// A script table: the default language system offset (null for none), the
/// count, the records in tag order, then the default language system and the
/// record's language systems, each table once.
pub open spec fn script_bytes(
    sv: (Option<(Option<usize>, Seq<usize>)>, Map<u32, (Option<usize>, Seq<usize>)>),
) -> Seq<u8> {
    let tags = sorted_tags(sv.1.dom());
    be16((if sv.0 is Some { script_first(sv) } else { 0 }) as u16) + be16(tags.len() as u16)
        + tag_records_bytes(tags, lang_sys_offsets(sv), tags.len()) + default_bytes(sv.0)
        + lang_sys_list_bytes(script_lang_systems(sv))
}

/// Whether a language system's count fits in 16 bits.
pub open spec fn lang_sys_fits(l: (Option<usize>, Seq<usize>)) -> bool {
    l.1.len() <= 65535
}

/// Whether every offset and count of a script table fits in 16 bits.
pub open spec fn script_fits(
    sv: (Option<(Option<usize>, Seq<usize>)>, Map<u32, (Option<usize>, Seq<usize>)>),
) -> bool {
    let ls = script_lang_systems(sv);
    &&& script_first(sv) <= 65535
    &&& (sv.0 matches Some(l) ==> lang_sys_fits(l))
    &&& forall|k: int| 0 <= k < ls.len() ==> lang_sys_fits(#[trigger] ls[k])
    &&& forall|k: int|
        0 <= k < ls.len() ==> script_first(sv) + default_bytes(sv.0).len() + #[trigger] lang_sys_list_bytes(
            ls.take(k),
        ).len() <= 65535
}

/// Script tables one after another.
pub open spec fn scripts_bytes(
    ss: Seq<(Option<(Option<usize>, Seq<usize>)>, Map<u32, (Option<usize>, Seq<usize>)>)>,
) -> Seq<u8>
    decreases ss.len(),
{
    if ss.len() == 0 {
        Seq::empty()
    } else {
        scripts_bytes(ss.drop_last()) + script_bytes(ss.last())
    }
}

/// The scripts of a list in the order of their tags.
pub open spec fn list_scripts(
    m: Map<u32, (Option<(Option<usize>, Seq<usize>)>, Map<u32, (Option<usize>, Seq<usize>)>)>,
) -> Seq<(Option<(Option<usize>, Seq<usize>)>, Map<u32, (Option<usize>, Seq<usize>)>)> {
    sorted_tags(m.dom()).map_values(|t: u32| m[t])
}

/// Where each script table starts.
pub open spec fn script_offsets(
    m: Map<u32, (Option<(Option<usize>, Seq<usize>)>, Map<u32, (Option<usize>, Seq<usize>)>)>,
) -> Seq<u16> {
    let ss = list_scripts(m);
    Seq::new(ss.len(), |k: int| (2 + 6 * ss.len() + scripts_bytes(ss.take(k)).len()) as u16)
}

/// Whether every offset and count of the script list fits in 16 bits.
pub open spec fn script_list_fits(
    m: Map<u32, (Option<(Option<usize>, Seq<usize>)>, Map<u32, (Option<usize>, Seq<usize>)>)>,
) -> bool {
    let ss = list_scripts(m);
    &&& ss.len() <= 65535
    &&& forall|k: int| 0 <= k < ss.len() ==> script_fits(#[trigger] ss[k])
    &&& forall|k: int|
        0 <= k < ss.len() ==> 2 + 6 * ss.len() + #[trigger] scripts_bytes(ss.take(k)).len() <= 65535
}

/// The bytes of a script list: the count, the records in tag order, then the
/// script tables, each followed by its language system tables.
pub open spec fn script_list_encoding(
    m: Map<u32, (Option<(Option<usize>, Seq<usize>)>, Map<u32, (Option<usize>, Seq<usize>)>)>,
) -> Seq<u8> {
    let tags = sorted_tags(m.dom());
    be16(tags.len() as u16) + tag_records_bytes(tags, script_offsets(m), tags.len()) + scripts_bytes(
        list_scripts(m),
    )
}

fn push_lang_sys(out: &mut Vec<u8>, l: &LanguageSystem)
    requires
        l.feature_indices@.len() <= 65535,
    ensures
        final(out)@ == old(out)@ + lang_sys_bytes(lang_sys_view(*l)),
{
    let ghost start = old(out)@;
    push_u16(out, 0);
    let req: u16 = match l.required_feature {
        Some(i) => #[verifier::truncate] (i as u16),
        None => 0xFFFF,
    };
    push_u16(out, req);
    push_u16(out, l.feature_indices.len() as u16);
    let ghost head = out@;
    let ghost idx = l.feature_indices@.map_values(|x: usize| x as u16);
    let mut i: usize = 0;
    while i < l.feature_indices.len()
        invariant
            i <= l.feature_indices@.len(),
            idx == l.feature_indices@.map_values(|x: usize| x as u16),
            out@ == head + be16_seq(idx.take(i as int)),
        decreases l.feature_indices.len() - i,
    {
        push_u16(out, #[verifier::truncate] (l.feature_indices[i] as u16));
        proof {
            assert(idx.take(i + 1).drop_last() == idx.take(i as int));
            assert(idx.take(i + 1).last() == idx[i as int]);
        }
        i = i + 1;
    }
    assert(idx.take(idx.len() as int) == idx);
}

pub(crate) proof fn lemma_lang_sys_bytes_len(l: (Option<usize>, Seq<usize>))
    ensures
        lang_sys_bytes(l).len() == 6 + 2 * l.1.len(),
{
    lemma_be16_seq_len(l.1.map_values(|x: usize| x as u16));
}

fn push_tag_records(out: &mut Vec<u8>, tags: &Vec<u32>, offs: &Vec<u16>)
    requires
        tags@.len() == offs@.len(),
    ensures
        final(out)@ == old(out)@ + tag_records_bytes(tags@, offs@, tags@.len()),
{
    let ghost head = old(out)@;
    let mut k: usize = 0;
    while k < tags.len()
        invariant
            k <= tags@.len(),
            tags@.len() == offs@.len(),
            out@ == head + tag_records_bytes(tags@, offs@, k as nat),
        decreases tags.len() - k,
    {
        push_u32(out, tags[k]);
        push_u16(out, offs[k]);
        k = k + 1;
    }
}

/// Writes a script table; fails where an offset or a count would not fit in 16 bits.
fn script_to_bytes(sc: &Script) -> (r: Result<Vec<u8>, SerializationError>)
    ensures
        match r {
            Ok(v) => script_fits(script_view(*sc)) && v@ == script_bytes(script_view(*sc)),
            Err(e) => !script_fits(script_view(*sc)) && e == SerializationError::OffsetOverflow,
        },
{
    let ghost sv = script_view(*sc);
    let (tags, lss) = tag_entries_in_order(&sc.language_systems);
    let ghost ls = script_lang_systems(sv);
    assert(sv.1.dom() =~= sc.language_systems@.dom());
    assert(tags@ == sorted_tags(sv.1.dom()));
    proof {
        crate::layout::tagged::lemma_tags_below(sv.1.dom(), 4294967296);
        assert forall|k: int| 0 <= k < ls.len() implies #[trigger] ls[k] == lang_sys_view(*lss@[k]) by {
            assert(tags@.contains(tags@[k]));
        }
    }
    let n = tags.len();
    if n > 10921 {
        return Err(SerializationError::OffsetOverflow);
    }
    let first: usize = 4 + 6 * n;
    let mut defb: Vec<u8> = Vec::new();
    match &sc.default_language_system {
        Some(l) => {
            if l.feature_indices.len() > 65535 {
                return Err(SerializationError::OffsetOverflow);
            }
            push_lang_sys(&mut defb, l);
            proof {
                lemma_lang_sys_bytes_len(lang_sys_view(*l));
            }
        },
        None => {},
    }
    assert(defb@ == default_bytes(sv.0));
    let mut offs: Vec<u16> = Vec::new();
    let mut body: Vec<u8> = Vec::new();
    let mut off: usize = first + defb.len();
    let mut k: usize = 0;
    while k < n
        invariant
            k <= n,
            n <= 10921,
            sv == script_view(*sc),
            n == ls.len(),
            lss@.len() == n,
            forall|j: int| 0 <= j < n ==> #[trigger] ls[j] == lang_sys_view(*lss@[j]),
            first == script_first(sv),
            defb@ == default_bytes(sv.0),
            defb@.len() <= 6 + 2 * 65535,
            ls == script_lang_systems(sv),
            body@ == lang_sys_list_bytes(ls.take(k as int)),
            off == first + defb@.len() + body@.len(),
            off <= 65535 + 6 + 2 * 65535 + first + 6 + 2 * 65535,
            offs@ == lang_sys_offsets(sv).take(k as int),
            forall|j: int| 0 <= j < k ==> lang_sys_fits(#[trigger] ls[j]),
            forall|j: int|
                0 <= j < k ==> first + defb@.len() + #[trigger] lang_sys_list_bytes(ls.take(j)).len() <= 65535,
        decreases n - k,
    {
        let l = lss[k];
        if l.feature_indices.len() > 65535 || off > 65535 {
            assert(lang_sys_list_bytes(ls.take(k as int)).len() == body@.len());
            if l.feature_indices.len() > 65535 {
                assert(!lang_sys_fits(ls[k as int]));
            }
            return Err(SerializationError::OffsetOverflow);
        }
        offs.push(off as u16);
        push_lang_sys(&mut body, l);
        proof {
            lemma_lang_sys_bytes_len(lang_sys_view(*l));
            assert(ls.take(k + 1).drop_last() == ls.take(k as int));
            assert(ls.take(k + 1).last() == ls[k as int]);
            assert(offs@ == lang_sys_offsets(sv).take(k + 1));
        }
        off = off + 6 + 2 * l.feature_indices.len();
        k = k + 1;
    }
    proof {
        assert(ls.take(n as int) == ls);
        assert(lang_sys_offsets(sv).take(n as int) == lang_sys_offsets(sv));
    }
    let mut out: Vec<u8> = Vec::new();
    let def_off: u16 = if sc.default_language_system.is_some() {
        first as u16
    } else {
        0
    };
    push_u16(&mut out, def_off);
    push_u16(&mut out, n as u16);
    push_tag_records(&mut out, &tags, &offs);
    push_bytes(&mut out, defb.as_slice());
    push_bytes(&mut out, body.as_slice());
    Ok(out)
}

impl ScriptList {
    /// Writes the script list, each script table followed by its language
    /// system tables, in tag order; fails where an offset or a count would not
    /// fit in 16 bits.
    pub fn to_bytes(&self) -> (r: Result<Vec<u8>, SerializationError>)
        ensures
            match r {
                Ok(v) => script_list_fits(self@) && v@ == script_list_encoding(self@),
                Err(e) => !script_list_fits(self@) && e == SerializationError::OffsetOverflow,
            },
    {
        let ghost m = self@;
        let (tags, scs) = tag_entries_in_order(&self.scripts);
        let ghost ss = list_scripts(m);
        assert(m.dom() =~= self.scripts@.dom());
        assert(tags@ == sorted_tags(m.dom()));
        proof {
            crate::layout::tagged::lemma_tags_below(m.dom(), 4294967296);
            assert forall|k: int| 0 <= k < ss.len() implies #[trigger] ss[k] == script_view(*scs@[k]) by {
                assert(tags@.contains(tags@[k]));
            }
        }
        let n = tags.len();
        if n > 65535 {
            return Err(SerializationError::OffsetOverflow);
        }
        let first: usize = 2 + 6 * n;
        let mut offs: Vec<u16> = Vec::new();
        let mut body: Vec<u8> = Vec::new();
        let mut off: usize = first;
        let mut k: usize = 0;
        while k < n
            invariant
                k <= n,
                n <= 65535,
                n == ss.len(),
                scs@.len() == n,
                m == self@,
                ss == list_scripts(m),
                forall|j: int| 0 <= j < n ==> #[trigger] ss[j] == script_view(*scs@[j]),
                first == 2 + 6 * n,
                body@ == scripts_bytes(ss.take(k as int)),
                off == first + body@.len(),
                off <= 65535 + 65535 + 6 + 2 * 65535 + 6 + 2 * 65535 + first,
                offs@ == script_offsets(m).take(k as int),
                forall|j: int| 0 <= j < k ==> script_fits(#[trigger] ss[j]),
                forall|j: int| 0 <= j < k ==> first + #[trigger] scripts_bytes(ss.take(j)).len() <= 65535,
            decreases n - k,
        {
            if off > 65535 {
                assert(scripts_bytes(ss.take(k as int)).len() == body@.len());
                return Err(SerializationError::OffsetOverflow);
            }
            offs.push(off as u16);
            let sb = match script_to_bytes(scs[k]) {
                Ok(v) => v,
                Err(_) => {
                    assert(!script_fits(ss[k as int]));
                    return Err(SerializationError::OffsetOverflow);
                },
            };
            proof {
                lemma_script_bytes_len(ss[k as int]);
            }
            push_bytes(&mut body, sb.as_slice());
            proof {
                assert(ss.take(k + 1).drop_last() == ss.take(k as int));
                assert(ss.take(k + 1).last() == ss[k as int]);
                assert(offs@ == script_offsets(m).take(k + 1));
            }
            off = off + sb.len();
            k = k + 1;
        }
        proof {
            assert(ss.take(n as int) == ss);
            assert(script_offsets(m).take(n as int) == script_offsets(m));
        }
        let mut out: Vec<u8> = Vec::new();
        push_u16(&mut out, n as u16);
        push_tag_records(&mut out, &tags, &offs);
        push_bytes(&mut out, body.as_slice());
        Ok(out)
    }
}

/// A script table that fits is bounded by its last offset and its last table.
proof fn lemma_script_bytes_len(
    sv: (Option<(Option<usize>, Seq<usize>)>, Map<u32, (Option<usize>, Seq<usize>)>),
)
    requires
        script_fits(sv),
    ensures
        script_bytes(sv).len() <= 65535 + 6 + 2 * 65535 + 6 + 2 * 65535,
{
    let tags = sorted_tags(sv.1.dom());
    let ls = script_lang_systems(sv);
    let n = ls.len();
    lemma_tag_records_len(tags, lang_sys_offsets(sv), tags.len());
    match sv.0 {
        Some(l) => lemma_lang_sys_bytes_len(l),
        None => {},
    }
    if n > 0 {
        let j = n - 1;
        assert(script_first(sv) + default_bytes(sv.0).len() + lang_sys_list_bytes(ls.take(j)).len() <= 65535);
        assert(ls.take(n as int).drop_last() == ls.take(j));
        assert(ls.take(n as int) == ls);
        lemma_lang_sys_bytes_len(ls.last());
        assert(lang_sys_fits(ls[j]));
        assert(lang_sys_list_bytes(ls) == lang_sys_list_bytes(ls.take(j)) + lang_sys_bytes(ls.last()));
    } else {
        assert(lang_sys_list_bytes(ls) == Seq::<u8>::empty());
    }
}

pub(crate) proof fn lemma_tag_records_len(tags: Seq<u32>, offs: Seq<u16>, n: nat)
    ensures
        tag_records_bytes(tags, offs, n).len() == 6 * n,
    decreases n,
{
    if n > 0 {
        lemma_tag_records_len(tags, offs, (n - 1) as nat);
    }
}

} // verus!
