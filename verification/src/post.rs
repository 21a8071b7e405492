//! The `post` (PostScript) table: header fields and, in version 2.0, glyph names.
//! The version is held as its 32-bit "Version16Dot16" pattern and the italic
//! angle as its 16.16 fixed-point pattern.
use crate::binary::{
    be16, be16_seq, be32, bei16, bei32, i16_at, i32_at, lemma_be16_seq_len, lemma_read_be16, lemma_read_be16_seq,
    lemma_read_be32, lemma_read_bei16, lemma_read_bei32, push_bytes, push_i16, push_i32, push_u16, push_u32,
    read_bytes, read_i16, read_i32, read_u16, read_u32, read_u16_vec, u16_at, u32_at, DeserializationError,
};
use crate::glyf::reading::{lemma_prepend_empty, lemma_prepend_step, prepend_all, Reading};
use vstd::prelude::*;
use vstd::utf8::{decode_utf8, encode_utf8, encode_utf8_decode_utf8, encode_utf8_valid_utf8, valid_utf8};

verus! {

/// The 258 standard Macintosh glyph names. Names not in this list are stored
/// in the table itself when its version is 2.0.
pub const APPLE_NAMES: [&'static str; 258] = [
    ".notdef", ".null", "nonmarkingreturn", "space", "exclam", "quotedbl", "numbersign", "dollar",
    "percent", "ampersand", "quotesingle", "parenleft", "parenright", "asterisk", "plus", "comma",
    "hyphen", "period", "slash", "zero", "one", "two", "three", "four", "five", "six", "seven",
    "eight", "nine", "colon", "semicolon", "less", "equal", "greater", "question", "at", "A", "B",
    "C", "D", "E", "F", "G", "H", "I", "J", "K", "L", "M", "N", "O", "P", "Q", "R", "S", "T", "U",
    "V", "W", "X", "Y", "Z", "bracketleft", "backslash", "bracketright", "asciicircum",
    "underscore", "grave", "a", "b", "c", "d", "e", "f", "g", "h", "i", "j", "k", "l", "m", "n",
    "o", "p", "q", "r", "s", "t", "u", "v", "w", "x", "y", "z", "braceleft", "bar", "braceright",
    "asciitilde", "Adieresis", "Aring", "Ccedilla", "Eacute", "Ntilde", "Odieresis", "Udieresis",
    "aacute", "agrave", "acircumflex", "adieresis", "atilde", "aring", "ccedilla", "eacute",
    "egrave", "ecircumflex", "edieresis", "iacute", "igrave", "icircumflex", "idieresis", "ntilde",
    "oacute", "ograve", "ocircumflex", "odieresis", "otilde", "uacute", "ugrave", "ucircumflex",
    "udieresis", "dagger", "degree", "cent", "sterling", "section", "bullet", "paragraph",
    "germandbls", "registered", "copyright", "trademark", "acute", "dieresis", "notequal", "AE",
    "Oslash", "infinity", "plusminus", "lessequal", "greaterequal", "yen", "mu", "partialdiff",
    "summation", "product", "pi", "integral", "ordfeminine", "ordmasculine", "Omega", "ae",
    "oslash", "questiondown", "exclamdown", "logicalnot", "radical", "florin", "approxequal",
    "Delta", "guillemotleft", "guillemotright", "ellipsis", "nonbreakingspace", "Agrave", "Atilde",
    "Otilde", "OE", "oe", "endash", "emdash", "quotedblleft", "quotedblright", "quoteleft",
    "quoteright", "divide", "lozenge", "ydieresis", "Ydieresis", "fraction", "currency",
    "guilsinglleft", "guilsinglright", "fi", "fl", "daggerdbl", "periodcentered", "quotesinglbase",
    "quotedblbase", "perthousand", "Acircumflex", "Ecircumflex", "Aacute", "Edieresis", "Egrave",
    "Iacute", "Icircumflex", "Idieresis", "Igrave", "Oacute", "Ocircumflex", "apple", "Ograve",
    "Uacute", "Ucircumflex", "Ugrave", "dotlessi", "circumflex", "tilde", "macron", "breve",
    "dotaccent", "ring", "cedilla", "hungarumlaut", "ogonek", "caron", "Lslash", "lslash",
    "Scaron", "scaron", "Zcaron", "zcaron", "brokenbar", "Eth", "eth", "Yacute", "yacute", "Thorn",
    "thorn", "minus", "multiply", "onesuperior", "twosuperior", "threesuperior", "onehalf",
    "onequarter", "threequarters", "franc", "Gbreve", "gbreve", "Idotaccent", "Scedilla",
    "scedilla", "Cacute", "cacute", "Ccaron", "ccaron", "dcroat",
];

/// The version pattern of a `post` table that holds glyph names.
pub const POST_VERSION_2: u32 = 0x00020000u32;

/// The font's PostScript table.
#[derive(Debug, PartialEq)]
pub struct post {
    /// The version, as a 16.16 pattern: 0x00020000 for 2.0.
    pub version: u32,
    /// Italic angle in counter-clockwise degrees, as a 16.16 pattern.
    pub italicAngle: i32,
    /// Suggested distance of the top of the underline from the baseline.
    pub underlinePosition: i16,
    /// Suggested values for the underline thickness.
    pub underlineThickness: i16,
    /// If non-zero, the renderer may regard this as strictly a fixed pitch font.
    pub isFixedPitch: u32,
    /// Minimum memory usage (deprecated, set to zero).
    pub minMemType42: u32,
    /// Maximum memory usage (deprecated, set to zero).
    pub maxMemType42: u32,
    /// Minimum memory usage when downloaded to Type1 (deprecated, set to zero).
    pub minMemType1: u32,
    /// Maximum memory usage when downloaded to Type1 (deprecated, set to zero).
    pub maxMemType1: u32,
    /// The glyph names.
    pub glyphnames: Option<Vec<String>>,
}

/// What a `post` table holds, with its glyph names as character sequences.
pub struct PostData {
    pub version: u32,
    pub italic_angle: i32,
    pub underline_position: i16,
    pub underline_thickness: i16,
    pub is_fixed_pitch: u32,
    pub min_mem_type42: u32,
    pub max_mem_type42: u32,
    pub min_mem_type1: u32,
    pub max_mem_type1: u32,
    pub glyph_names: Option<Seq<Seq<char>>>,
}

pub open spec fn names_view(v: Seq<String>) -> Seq<Seq<char>> {
    v.map_values(|s: String| s@)
}

impl View for post {
    type V = PostData;

    open spec fn view(&self) -> PostData {
        PostData {
            version: self.version,
            italic_angle: self.italicAngle,
            underline_position: self.underlinePosition,
            underline_thickness: self.underlineThickness,
            is_fixed_pitch: self.isFixedPitch,
            min_mem_type42: self.minMemType42,
            max_mem_type42: self.maxMemType42,
            min_mem_type1: self.minMemType1,
            max_mem_type1: self.maxMemType1,
            glyph_names: match self.glyphnames {
                Some(v) => Some(names_view(v@)),
                None => None,
            },
        }
    }
}

/// The standard name with index `i`.
pub open spec fn apple_name(i: int) -> Seq<char> {
    APPLE_NAMES@[i]@
}

/// The first standard name at index `i` or after that equals `name`.
pub open spec fn apple_index_from(name: Seq<char>, i: int) -> Option<int>
    decreases 258 - i,
{
    if i < 0 || i >= 258 {
        None
    } else if apple_name(i) == name {
        Some(i)
    } else {
        apple_index_from(name, i + 1)
    }
}

/// The index of `name` among the standard names.
pub open spec fn apple_index(name: Seq<char>) -> Option<int> {
    apple_index_from(name, 0)
}

/// The 32 bytes of the header fields.
pub open spec fn post_header_bytes(p: PostData) -> Seq<u8> {
    be32(p.version) + bei32(p.italic_angle) + bei16(p.underline_position) + bei16(p.underline_thickness) + be32(
        p.is_fixed_pitch,
    ) + be32(p.min_mem_type42) + be32(p.max_mem_type42) + be32(p.min_mem_type1) + be32(p.max_mem_type1)
}

/// For glyph names `names`: the name index of each (its standard index, or 258
/// plus its place among the names stored in the table), the stored names (each
/// a length byte and its UTF-8 bytes), and how many are stored. Counts and
/// lengths are cut to their fields' widths, as the writer does.
pub open spec fn names_encoding(names: Seq<Seq<char>>) -> (Seq<u8>, Seq<u8>, int)
    decreases names.len(),
{
    if names.len() == 0 {
        (Seq::empty(), Seq::empty(), 0)
    } else {
        let (ib, tb, k) = names_encoding(names.drop_last());
        let n = names.last();
        match apple_index(n) {
            Some(i) => (ib + be16(i as u16), tb, k),
            None => (ib + be16((258 + k) as u16), tb + seq![encode_utf8(n).len() as u8] + encode_utf8(n), k + 1),
        }
    }
}

/// The bytes of a `post` table: the header fields and, for version 2.0 with
/// names, the glyph count, the name indices and the stored names.
pub open spec fn post_encoding(p: PostData) -> Seq<u8> {
    post_header_bytes(p) + if p.version == POST_VERSION_2 {
        match p.glyph_names {
            Some(v) => {
                let (ib, tb, _) = names_encoding(v);
                be16(v.len() as u16) + ib + tb
            },
            None => Seq::empty(),
        }
    } else {
        Seq::empty()
    }
}

/// The names stored from `p` to the end of the data: each a length byte and that
/// many bytes of UTF-8. Undefined where a name is not valid UTF-8.
pub open spec fn stored_names_reading(s: Seq<u8>, p: int) -> Reading<Seq<Seq<char>>>
    decreases s.len() - p,
{
    if p < 0 || p >= s.len() {
        Reading::Value(Seq::empty(), p)
    } else if p + 1 + s[p] > s.len() {
        Reading::Error(DeserializationError::UnexpectedEof)
    } else {
        let bytes = s.subrange(p + 1, p + 1 + s[p]);
        if !valid_utf8(bytes) {
            Reading::Undefined
        } else {
            match stored_names_reading(s, p + 1 + s[p]) {
                Reading::Value(rest, q) => Reading::Value(seq![decode_utf8(bytes)] + rest, q),
                other => other,
            }
        }
    }
}

/// The glyph name with name index `off`, given the stored names.
pub open spec fn glyph_name(off: u16, stored: Seq<Seq<char>>) -> Seq<char> {
    if off < 258 {
        apple_name(off as int)
    } else {
        stored[off - 258]
    }
}

/// Every name index refers to a standard name or a stored one.
pub open spec fn name_indices_defined(offs: Seq<u16>, stored: Seq<Seq<char>>) -> bool {
    forall|i: int| 0 <= i < offs.len() ==> (#[trigger] offs[i] >= 258 ==> offs[i] - 258 < stored.len())
}

/// The header fields at the start of `s`, with no names.
pub open spec fn post_header_at(s: Seq<u8>) -> PostData {
    PostData {
        version: u32_at(s, 0),
        italic_angle: i32_at(s, 4),
        underline_position: i16_at(s, 8),
        underline_thickness: i16_at(s, 10),
        is_fixed_pitch: u32_at(s, 12),
        min_mem_type42: u32_at(s, 16),
        max_mem_type42: u32_at(s, 20),
        min_mem_type1: u32_at(s, 24),
        max_mem_type1: u32_at(s, 28),
        glyph_names: None,
    }
}

/// Reading a `post` table: the header fields; for version 2.0, the glyph count,
/// the name indices and the stored names, up to the end of the data. Undefined
/// where a stored name is not UTF-8 or a name index refers to no name.
pub open spec fn post_reading(s: Seq<u8>) -> Reading<PostData> {
    if s.len() < 32 {
        Reading::Error(DeserializationError::UnexpectedEof)
    } else if u32_at(s, 0) != POST_VERSION_2 {
        Reading::Value(post_header_at(s), 32)
    } else if s.len() < 34 || s.len() < 34 + 2 * u16_at(s, 32) {
        Reading::Error(DeserializationError::UnexpectedEof)
    } else {
        let n = u16_at(s, 32);
        let offs = Seq::new(n as nat, |i: int| u16_at(s, 34 + 2 * i));
        match stored_names_reading(s, 34 + 2 * n) {
            Reading::Undefined => Reading::Undefined,
            Reading::Error(e) => Reading::Error(e),
            Reading::Value(stored, q) => if !name_indices_defined(offs, stored) {
                Reading::Undefined
            } else {
                Reading::Value(
                    PostData {
                        glyph_names: Some(Seq::new(n as nat, |i: int| glyph_name(offs[i], stored))),
                        ..post_header_at(s)
                    },
                    q,
                )
            },
        }
    }
}

/// `String::from_utf8`: the bytes as a string where they are valid UTF-8; std
/// documents an error otherwise. The contract claims that the string holds the
/// characters the bytes encode.
#[verifier::external_body]
fn string_from_utf8(bytes: Vec<u8>) -> (r: Option<String>)
    ensures
        match r {
            Some(s) => valid_utf8(bytes@) && s@ == decode_utf8(bytes@),
            None => !valid_utf8(bytes@),
        },
{
    String::from_utf8(bytes).ok()
}

/// The index of `name` among the standard names.
fn find_apple_name(name: &String) -> (r: Option<u16>)
    ensures
        match r {
            Some(i) => apple_index(name@) == Some(i as int),
            None => apple_index(name@) is None,
        },
{
    let mut i: usize = 0;
    while i < 258
        invariant
            i <= 258,
            apple_index(name@) == apple_index_from(name@, i as int),
        decreases 258 - i,
    {
        let candidate: String = APPLE_NAMES[i].to_owned();
        if candidate == *name {
            return Some(i as u16);
        }
        i = i + 1;
    }
    None
}

impl post {
    /// The table in binary form.
    pub fn to_bytes(&self) -> (r: Vec<u8>)
        ensures
            r@ == post_encoding(self@),
    {
        let mut data: Vec<u8> = Vec::new();
        push_u32(&mut data, self.version);
        push_i32(&mut data, self.italicAngle);
        push_i16(&mut data, self.underlinePosition);
        push_i16(&mut data, self.underlineThickness);
        push_u32(&mut data, self.isFixedPitch);
        push_u32(&mut data, self.minMemType42);
        push_u32(&mut data, self.maxMemType42);
        push_u32(&mut data, self.minMemType1);
        push_u32(&mut data, self.maxMemType1);
        assert(data@ =~= post_header_bytes(self@));
        if self.version == POST_VERSION_2 {
            let mut glyph_name_table: Vec<u8> = Vec::new();
            if let Some(v) = &self.glyphnames {
                let ghost names = names_view(v@);
                let ghost head = data@;
                push_u16(&mut data, #[verifier::truncate] (v.len() as u16));
                let ghost counted = data@;
                let mut glyph_name_table_items: usize = 0;
                let mut i: usize = 0;
                while i < v.len()
                    invariant
                        i <= v@.len(),
                        names == names_view(v@),
                        ({
                            let (ib, tb, k) = names_encoding(names.take(i as int));
                            &&& data@ == counted + ib
                            &&& glyph_name_table@ == tb
                            &&& glyph_name_table_items == k
                        }),
                        glyph_name_table_items <= i,
                    decreases v@.len() - i,
                {
                    let name = &v[i];
                    proof {
                        assert(names.take(i + 1).drop_last() =~= names.take(i as int));
                        assert(names.take(i + 1).last() == name@);
                    }
                    match find_apple_name(name) {
                        Some(index) => {
                            push_u16(&mut data, index);
                        },
                        None => {
                            push_u16(&mut data, #[verifier::truncate] ((258 + glyph_name_table_items as u128) as u16));
                            let bytes = name.as_str().as_bytes();
                            glyph_name_table.push(#[verifier::truncate] (bytes.len() as u8));
                            push_bytes(&mut glyph_name_table, bytes);
                            glyph_name_table_items = glyph_name_table_items + 1;
                        },
                    }
                    i = i + 1;
                }
                proof {
                    assert(names.take(i as int) =~= names);
                }
            }
            push_bytes(&mut data, glyph_name_table.as_slice());
        }
        proof {
            let p = self@;
            if p.version == POST_VERSION_2 {
                match p.glyph_names {
                    Some(v) => {
                        let (ib, tb, _) = names_encoding(v);
                        assert(data@ =~= post_header_bytes(p) + (be16(v.len() as u16) + ib + tb));
                    },
                    None => {
                        assert(data@ =~= post_header_bytes(p) + Seq::<u8>::empty());
                    },
                }
            } else {
                assert(data@ =~= post_header_bytes(p) + Seq::<u8>::empty());
            }
        }
        data
    }
}

impl post {
    /// Reads a `post` table.
    pub fn from_bytes(data: &[u8]) -> (r: Result<post, DeserializationError>)
        requires
            post_reading(data@) !is Undefined,
        ensures
            match r {
                Ok(t) => post_reading(data@) matches Reading::Value(v, _) && v == t@,
                Err(e) => post_reading(data@) == Reading::<PostData>::Error(e),
            },
    {
        if data.len() < 32 {
            return Err(DeserializationError::UnexpectedEof);
        }
        let version = read_u32(data, 0).unwrap();
        let italicAngle = read_i32(data, 4).unwrap();
        let underlinePosition = read_i16(data, 8).unwrap();
        let underlineThickness = read_i16(data, 10).unwrap();
        let isFixedPitch = read_u32(data, 12).unwrap();
        let minMemType42 = read_u32(data, 16).unwrap();
        let maxMemType42 = read_u32(data, 20).unwrap();
        let minMemType1 = read_u32(data, 24).unwrap();
        let maxMemType1 = read_u32(data, 28).unwrap();
        let mut glyphnames: Option<Vec<String>> = None;
        if version == POST_VERSION_2 {
            let num_glyphs = match read_u16(data, 32) {
                Some(n) => n,
                None => return Err(DeserializationError::UnexpectedEof),
            };
            let glyph_offsets = match read_u16_vec(data, 34, num_glyphs as usize) {
                Some(v) => v,
                None => return Err(DeserializationError::UnexpectedEof),
            };
            let ghost s = data@;
            let start: usize = 34 + 2 * num_glyphs as usize;
            let ghost whole = stored_names_reading(s, start as int);
            let mut glyph_name_table: Vec<String> = Vec::new();
            let mut p: usize = start;
            proof {
                lemma_prepend_empty(whole);
                assert(names_view(glyph_name_table@) =~= Seq::<Seq<char>>::empty());
            }
            while p < data.len()
                invariant
                    s == data@,
                    u32_at(s, 0) == POST_VERSION_2,
                    num_glyphs == u16_at(s, 32),
                    s.len() >= 34 + 2 * num_glyphs,
                    start == 34 + 2 * num_glyphs,
                    whole == stored_names_reading(s, start as int),
                    whole !is Undefined,
                    prepend_all(names_view(glyph_name_table@), stored_names_reading(s, p as int)) == whole,
                    p <= data@.len(),
                decreases data@.len() - p,
            {
                let byte_count = data[p] as usize;
                let name = match read_bytes(data, p + 1, byte_count) {
                    Some(b) => b,
                    None => return Err(DeserializationError::UnexpectedEof),
                };
                assert(name@ =~= s.subrange(p + 1, p + 1 + byte_count));
                let text = match string_from_utf8(name) {
                    Some(t) => t,
                    None => return Err(DeserializationError::BadFormat),
                };
                let ghost before = glyph_name_table@;
                glyph_name_table.push(text);
                proof {
                    assert(names_view(glyph_name_table@) =~= names_view(before).push(text@));
                    lemma_prepend_step(
                        names_view(before),
                        text@,
                        stored_names_reading(s, p + 1 + byte_count),
                    );
                }
                p = p + 1 + byte_count;
            }
            let ghost stored = names_view(glyph_name_table@);
            proof {
                assert(stored_names_reading(s, p as int) == Reading::<Seq<Seq<char>>>::Value(Seq::empty(), p as int));
                assert(stored + Seq::<Seq<char>>::empty() =~= stored);
            }
            let ghost offs = Seq::new(num_glyphs as nat, |i: int| u16_at(s, 34 + 2 * i));
            assert(glyph_offsets@ =~= offs);
            let mut names: Vec<String> = Vec::new();
            let mut i: usize = 0;
            while i < num_glyphs as usize
                invariant
                    i <= num_glyphs,
                    s == data@,
                    glyph_offsets@ == offs,
                    offs.len() == num_glyphs,
                    stored == names_view(glyph_name_table@),
                    name_indices_defined(offs, stored),
                    names_view(names@) == Seq::new(i as nat, |j: int| glyph_name(offs[j], stored)),
                decreases num_glyphs - i,
            {
                let offset = glyph_offsets[i];
                let name: String = if offset < 258 {
                    APPLE_NAMES[offset as usize].to_owned()
                } else {
                    assert(offs[i as int] >= 258 ==> offs[i as int] - 258 < stored.len());
                    assert(stored[offset - 258] == glyph_name_table@[offset - 258]@);
                    glyph_name_table[(offset - 258) as usize].clone()
                };
                assert(name@ == glyph_name(offs[i as int], stored));
                let ghost before = names@;
                let ghost name_view = name@;
                names.push(name);
                assert(names_view(before).len() == i);
                assert(names_view(names@) =~= names_view(before).push(name_view));
                assert(names_view(names@) =~= Seq::new((i + 1) as nat, |j: int| glyph_name(offs[j], stored)));
                i = i + 1;
            }
            glyphnames = Some(names);
        }
        let t = post {
            version,
            italicAngle,
            underlinePosition,
            underlineThickness,
            isFixedPitch,
            minMemType42,
            maxMemType42,
            minMemType1,
            maxMemType1,
            glyphnames,
        };
        Ok(t)
    }
}

impl post {
    /// A table of the given version (a 16.16 pattern) whose deprecated memory
    /// fields are zero. The glyph names are only written for version 2.0.
    pub fn new(
        version: u32,
        italicAngle: i32,
        underlinePosition: i16,
        underlineThickness: i16,
        isFixedPitch: bool,
        glyphnames: Option<Vec<String>>,
    ) -> (r: post)
        ensures
            r.version == version,
            r.italicAngle == italicAngle,
            r.underlinePosition == underlinePosition,
            r.underlineThickness == underlineThickness,
            r.isFixedPitch == (if isFixedPitch { 1u32 } else { 0u32 }),
            r.minMemType42 == 0 && r.maxMemType42 == 0 && r.minMemType1 == 0 && r.maxMemType1 == 0,
            r.glyphnames == glyphnames,
    {
        post {
            version,
            italicAngle,
            underlinePosition,
            underlineThickness,
            isFixedPitch: if isFixedPitch { 1 } else { 0 },
            glyphnames,
            maxMemType1: 0,
            minMemType1: 0,
            maxMemType42: 0,
            minMemType42: 0,
        }
    }

    /// Change this table's version (a 16.16 pattern).
    pub fn set_version(&mut self, version: u32)
        ensures
            final(self).version == version,
            final(self).italicAngle == old(self).italicAngle,
            final(self).underlinePosition == old(self).underlinePosition,
            final(self).underlineThickness == old(self).underlineThickness,
            final(self).isFixedPitch == old(self).isFixedPitch,
            final(self).minMemType42 == old(self).minMemType42,
            final(self).maxMemType42 == old(self).maxMemType42,
            final(self).minMemType1 == old(self).minMemType1,
            final(self).maxMemType1 == old(self).maxMemType1,
            final(self).glyphnames == old(self).glyphnames,
    {
        self.version = version;
    }
}

/// The header fields written at the start of the data read back.
#[verifier::spinoff_prover]
#[verifier::rlimit(40)]
proof fn lemma_post_header_read(p: PostData, rest: Seq<u8>)
    ensures
        post_header_at(post_header_bytes(p) + rest) == (PostData { glyph_names: None, ..p }),
        (post_header_bytes(p) + rest).len() == 32 + rest.len(),
{
    let f0 = be32(p.version);
    let f1 = bei32(p.italic_angle);
    let f2 = bei16(p.underline_position);
    let f3 = bei16(p.underline_thickness);
    let f4 = be32(p.is_fixed_pitch);
    let f5 = be32(p.min_mem_type42);
    let f6 = be32(p.max_mem_type42);
    let f7 = be32(p.min_mem_type1);
    let f8 = be32(p.max_mem_type1);
    let s = post_header_bytes(p) + rest;
    assert(s =~= f0 + f1 + f2 + f3 + f4 + f5 + f6 + f7 + f8 + rest);
    lemma_read_be32(Seq::empty(), p.version, f1 + f2 + f3 + f4 + f5 + f6 + f7 + f8 + rest);
    assert(s =~= Seq::<u8>::empty() + f0 + (f1 + f2 + f3 + f4 + f5 + f6 + f7 + f8 + rest));
    lemma_read_bei32(f0, p.italic_angle, f2 + f3 + f4 + f5 + f6 + f7 + f8 + rest);
    assert(s =~= f0 + f1 + (f2 + f3 + f4 + f5 + f6 + f7 + f8 + rest));
    lemma_read_bei16(f0 + f1, p.underline_position, f3 + f4 + f5 + f6 + f7 + f8 + rest);
    assert(s =~= (f0 + f1) + f2 + (f3 + f4 + f5 + f6 + f7 + f8 + rest));
    lemma_read_bei16(f0 + f1 + f2, p.underline_thickness, f4 + f5 + f6 + f7 + f8 + rest);
    assert(s =~= (f0 + f1 + f2) + f3 + (f4 + f5 + f6 + f7 + f8 + rest));
    lemma_read_be32(f0 + f1 + f2 + f3, p.is_fixed_pitch, f5 + f6 + f7 + f8 + rest);
    assert(s =~= (f0 + f1 + f2 + f3) + f4 + (f5 + f6 + f7 + f8 + rest));
    lemma_read_be32(f0 + f1 + f2 + f3 + f4, p.min_mem_type42, f6 + f7 + f8 + rest);
    assert(s =~= (f0 + f1 + f2 + f3 + f4) + f5 + (f6 + f7 + f8 + rest));
    lemma_read_be32(f0 + f1 + f2 + f3 + f4 + f5, p.max_mem_type42, f7 + f8 + rest);
    assert(s =~= (f0 + f1 + f2 + f3 + f4 + f5) + f6 + (f7 + f8 + rest));
    lemma_read_be32(f0 + f1 + f2 + f3 + f4 + f5 + f6, p.min_mem_type1, f8 + rest);
    assert(s =~= (f0 + f1 + f2 + f3 + f4 + f5 + f6) + f7 + (f8 + rest));
    lemma_read_be32(f0 + f1 + f2 + f3 + f4 + f5 + f6 + f7, p.max_mem_type1, rest);
}

/// A standard index found for a name is that of an equal standard name.
proof fn lemma_apple_index_from(name: Seq<char>, i: int)
    ensures
        apple_index_from(name, i) matches Some(j) ==> 0 <= j < 258 && apple_name(j) == name,
    decreases 258 - i,
{
    if 0 <= i < 258 && apple_name(i) != name {
        lemma_apple_index_from(name, i + 1);
    }
}

/// The names of `names` that are stored in the table, in order.
pub open spec fn stored_list(names: Seq<Seq<char>>) -> Seq<Seq<char>>
    decreases names.len(),
{
    if names.len() == 0 {
        Seq::empty()
    } else if apple_index(names.last()) is Some {
        stored_list(names.drop_last())
    } else {
        stored_list(names.drop_last()).push(names.last())
    }
}

/// The name index of each of `names`.
pub open spec fn name_index_list(names: Seq<Seq<char>>) -> Seq<u16>
    decreases names.len(),
{
    if names.len() == 0 {
        Seq::empty()
    } else {
        let k = stored_list(names.drop_last()).len();
        name_index_list(names.drop_last()).push(
            match apple_index(names.last()) {
                Some(j) => j as u16,
                None => (258 + k) as u16,
            },
        )
    }
}

/// The bytes of stored names: each a length byte and its UTF-8 bytes.
pub open spec fn stored_bytes(l: Seq<Seq<char>>) -> Seq<u8>
    decreases l.len(),
{
    if l.len() == 0 {
        Seq::empty()
    } else {
        stored_bytes(l.drop_last()) + seq![encode_utf8(l.last()).len() as u8] + encode_utf8(l.last())
    }
}

proof fn lemma_names_encoding(names: Seq<Seq<char>>)
    ensures
        names_encoding(names) == (be16_seq(name_index_list(names)), stored_bytes(stored_list(names)), stored_list(
            names,
        ).len() as int),
        name_index_list(names).len() == names.len(),
    decreases names.len(),
{
    if names.len() > 0 {
        lemma_names_encoding(names.drop_last());
        let init = names.drop_last();
        let last = names.last();
        match apple_index(last) {
            Some(j) => {},
            None => {
                assert(stored_list(names).drop_last() =~= stored_list(init));
            },
        }
        assert(name_index_list(names).drop_last() =~= name_index_list(init));
    }
}

proof fn lemma_stored_bytes_front(l: Seq<Seq<char>>)
    requires
        l.len() > 0,
    ensures
        stored_bytes(l) == seq![encode_utf8(l[0]).len() as u8] + encode_utf8(l[0]) + stored_bytes(l.drop_first()),
    decreases l.len(),
{
    if l.len() > 1 {
        lemma_stored_bytes_front(l.drop_last());
        assert(l.drop_last().drop_first() =~= l.drop_first().drop_last());
        assert(l.drop_last()[0] == l[0]);
        assert(l.drop_first().last() == l.last());
    } else {
        assert(l.drop_last() =~= Seq::<Seq<char>>::empty());
        assert(l.drop_first() =~= Seq::<Seq<char>>::empty());
    }
}

/// Stored names written at the end of the data read back.
proof fn lemma_stored_names_read(a: Seq<u8>, l: Seq<Seq<char>>)
    requires
        forall|i: int| 0 <= i < l.len() ==> encode_utf8(#[trigger] l[i]).len() <= 255,
    ensures
        stored_names_reading(a + stored_bytes(l), a.len() as int) == Reading::Value(
            l,
            (a + stored_bytes(l)).len() as int,
        ),
    decreases l.len(),
{
    let s = a + stored_bytes(l);
    if l.len() == 0 {
        assert(s =~= a);
        assert(l =~= Seq::<Seq<char>>::empty());
    } else {
        lemma_stored_bytes_front(l);
        let e = encode_utf8(l[0]);
        let a2 = a + seq![e.len() as u8] + e;
        assert(s =~= a2 + stored_bytes(l.drop_first()));
        let p = a.len() as int;
        assert(s[p] == e.len() as u8);
        assert(e.len() <= 255);
        assert(s.subrange(p + 1, p + 1 + s[p]) =~= e);
        encode_utf8_valid_utf8(l[0]);
        encode_utf8_decode_utf8(l[0]);
        assert forall|i: int| 0 <= i < l.drop_first().len() implies encode_utf8(#[trigger] l.drop_first()[i]).len()
            <= 255 by {
            assert(l.drop_first()[i] == l[i + 1]);
        }
        lemma_stored_names_read(a2, l.drop_first());
        assert(s[p] as int == e.len());
        assert(a2.len() == p + 1 + s[p]);
        let bytes = s.subrange(p + 1, p + 1 + s[p]);
        assert(bytes == e);
        assert(valid_utf8(bytes));
        assert(decode_utf8(bytes) == l[0]);
        let rest = stored_names_reading(s, p + 1 + s[p]);
        assert(rest == Reading::Value(l.drop_first(), s.len() as int));
        assert(seq![l[0]] + l.drop_first() =~= l);
    }
}

/// Each name index of `names` leads back to the name.
proof fn lemma_name_indices(names: Seq<Seq<char>>)
    requires
        258 + stored_list(names).len() <= 65535,
    ensures
        name_index_list(names).len() == names.len(),
        name_indices_defined(name_index_list(names), stored_list(names)),
        forall|i: int|
            0 <= i < names.len() ==> glyph_name(#[trigger] name_index_list(names)[i], stored_list(names))
                == names[i],
    decreases names.len(),
{
    lemma_names_encoding(names);
    if names.len() > 0 {
        let init = names.drop_last();
        let last = names.last();
        let st = stored_list(names);
        let sti = stored_list(init);
        let idx = name_index_list(names);
        let idxi = name_index_list(init);
        assert(sti.len() <= st.len());
        lemma_name_indices(init);
        lemma_apple_index_from(last, 0);
        assert forall|k: int| 0 <= k < sti.len() implies st[k] == sti[k] by {}
        assert forall|i: int| 0 <= i < names.len() implies (#[trigger] idx[i] >= 258 ==> idx[i] - 258 < st.len())
            && glyph_name(idx[i], st) == names[i] by {
            if i < names.len() - 1 {
                assert(idx[i] == idxi[i]);
                assert(names[i] == init[i]);
                assert(idxi[i] >= 258 ==> idxi[i] - 258 < sti.len());
            }
        }
    }
}

/// A `post` table that reads back as written: glyph names exactly when the
/// version is 2.0, no more than 65535 of them, no more than 65277 stored in the
/// table (so that every name index fits), and each stored name at most 255
/// bytes of UTF-8.
pub open spec fn post_roundtrips(p: PostData) -> bool {
    &&& (p.version == POST_VERSION_2) == (p.glyph_names is Some)
    &&& p.glyph_names matches Some(v) ==> {
        &&& v.len() <= 65535
        &&& 258 + stored_list(v).len() <= 65535
        &&& forall|i: int| 0 <= i < stored_list(v).len() ==> encode_utf8(#[trigger] stored_list(v)[i]).len() <= 255
    }
}

/// What `to_bytes` writes, `from_bytes` reads back.
pub proof fn lemma_post_roundtrip(p: PostData)
    requires
        post_roundtrips(p),
    ensures
        post_reading(post_encoding(p)) == Reading::Value(p, post_encoding(p).len() as int),
{
    let s = post_encoding(p);
    let h = post_header_bytes(p);
    if p.version != POST_VERSION_2 {
        lemma_post_header_read(p, Seq::empty());
        assert(s =~= h + Seq::<u8>::empty());
    } else {
        let v = p.glyph_names->0;
        let n = v.len();
        let idx = name_index_list(v);
        let st = stored_list(v);
        lemma_names_encoding(v);
        lemma_be16_seq_len(idx);
        let tail = be16(n as u16) + be16_seq(idx) + stored_bytes(st);
        assert(s =~= h + tail);
        lemma_post_header_read(p, tail);
        lemma_read_be16(h, n as u16, be16_seq(idx) + stored_bytes(st));
        assert(s =~= h + be16(n as u16) + (be16_seq(idx) + stored_bytes(st)));
        assert(u16_at(s, 32) == n);
        let offs = Seq::new(n, |i: int| u16_at(s, 34 + 2 * i));
        assert forall|i: int| 0 <= i < n implies offs[i] == idx[i] by {
            lemma_read_be16_seq(h + be16(n as u16), idx, stored_bytes(st), i);
            assert(s =~= h + be16(n as u16) + be16_seq(idx) + stored_bytes(st));
        }
        assert(offs =~= idx);
        lemma_stored_names_read(h + be16(n as u16) + be16_seq(idx), st);
        assert(s =~= h + be16(n as u16) + be16_seq(idx) + stored_bytes(st));
        lemma_name_indices(v);
        let names_read = Seq::new(n, |i: int| glyph_name(offs[i], st));
        assert(names_read =~= v);
    }
}

} // verus!
