use fonttables::binary::SerializationError;
use fonttables::layout::common::{LanguageSystem, Script, ScriptList};
use fonttables::layout::gpos2::PairPos;
use fonttables::layout::gsub1::SingleSubst;
use fonttables::layout::gsub2::MultipleSubst;
use fonttables::layout::gsub3::AlternateSubst;
use fonttables::layout::gsub4::LigatureSubst;
use fonttables::layout::valuerecord::{
    ValueRecord, ValueRecords, X_ADVANCE, X_PLACEMENT, Y_ADVANCE, Y_PLACEMENT,
};

#[test]
fn test_valuerecord_serde() {
    let mut vr = ValueRecord::new();
    vr.xAdvance = Some(-120);
    assert_eq!(vr.flags(), X_ADVANCE);
    let binary = vr.to_bytes();
    assert_eq!(binary, vec![0x00, 0x04, 0xff, 0x88,]);
    let (de, next) = ValueRecord::from_bytes(&binary, 0).unwrap();
    assert_eq!(de, vr);
    assert_eq!(next, 4);
}

#[test]
fn valuerecord_all_fields_roundtrip() {
    let vr = ValueRecord {
        xPlacement: Some(1),
        yPlacement: Some(-2),
        xAdvance: Some(300),
        yAdvance: Some(-32768),
    };
    assert_eq!(vr.flags(), X_PLACEMENT | Y_PLACEMENT | X_ADVANCE | Y_ADVANCE);
    let binary = vr.to_bytes();
    assert_eq!(
        binary,
        vec![0x00, 0x0f, 0x00, 0x01, 0xff, 0xfe, 0x01, 0x2c, 0x80, 0x00]
    );
    let mut framed = vec![0xaa, 0xbb];
    framed.extend_from_slice(&binary);
    framed.push(0xcc);
    let (de, next) = ValueRecord::from_bytes(&framed, 2).unwrap();
    assert_eq!(de, vr);
    assert_eq!(next, 12);
}

#[test]
fn empty_valuerecord_is_only_its_format() {
    let vr = ValueRecord::new();
    assert_eq!(vr.flags(), 0);
    assert_eq!(vr.to_bytes(), vec![0x00, 0x00]);
}

#[test]
fn valuerecord_device_bits_are_not_read() {
    // Y_PLACEMENT plus a device-table bit: only the placement is read.
    let (de, next) = ValueRecord::from_bytes(&[0x00, 0x22, 0x00, 0x05, 0x12, 0x34], 0).unwrap();
    assert_eq!(de.yPlacement, Some(5));
    assert_eq!(de.xPlacement, None);
    assert_eq!(de.xAdvance, None);
    assert_eq!(de.yAdvance, None);
    assert_eq!(next, 4);
}

#[test]
fn truncated_valuerecord_is_an_error() {
    assert!(ValueRecord::from_bytes(&[0x00, 0x05, 0x00, 0x01], 0).is_err());
    assert!(ValueRecord::from_bytes(&[0x00], 0).is_err());
}

#[test]
fn valuerecords_share_one_format() {
    let data = [0x00, 0x05, 0x00, 0x02, 0x00, 0x0a, 0x00, 0x14, 0xff, 0xf6, 0x00, 0x1e];
    let (records, next) = ValueRecords::from_bytes(&data, 0).unwrap();
    assert_eq!(next, 12);
    assert_eq!(
        records.0,
        vec![
            ValueRecord { xPlacement: Some(10), yPlacement: None, xAdvance: Some(20), yAdvance: None },
            ValueRecord { xPlacement: Some(-10), yPlacement: None, xAdvance: Some(30), yAdvance: None },
        ]
    );
    assert!(ValueRecords::from_bytes(&data[..10], 0).is_err());
}

fn mult_subst_example() -> MultipleSubst {
    let mut mapping = std::collections::BTreeMap::new();
    mapping.insert(77, vec![71, 77]);
    mapping.insert(74, vec![71, 74]);
    MultipleSubst { mapping }
}

#[test]
fn test_mult_subst_ser() {
    let subst = mult_subst_example();
    let serialized = subst.to_bytes().unwrap();
    assert_eq!(
        serialized,
        vec![
            /* 00 */ 0x00, 0x01, // fmt 1
            /* 02 */ 0x00, 0x0A, // Offset 10 to coverage
            /* 04 */ 0x00, 0x02, // count of sequences
            /* 06 */ 0x00, 0x12, // Offset to seq 1
            /* 08 */ 0x00, 0x18, // Offset to seq 2
            /* 0A */ 0x00, 0x01, // Coverage format 1
            /* 0C */ 0x00, 0x02, // Coverage: Count of glyph ids
            /* 0E */ 0x00, 0x4A, // First glyph ID
            /* 10 */ 0x00, 0x4D, // Second glyph ID
            /* 12 */ 0x00, 0x02, // First seq: Count of gids
            /* 14 */ 0x00, 0x47, // First seq: GID1
            /* 16 */ 0x00, 0x4A, // First seq: GID2
            /* 18 */ 0x00, 0x02, // Second seq: count of gids
            /* 1A */ 0x00, 0x47, // Second seq: GID1
            /* 1C */ 0x00, 0x4D, // Second seq: GID2
        ]
    );
}

#[test]
fn test_mult_subst_de() {
    let subst = mult_subst_example();
    let binary_subst = vec![
        0x00, 0x01, 0x00, 0x0A, 0x00, 0x02, 0x00, 0x12, 0x00, 0x18, 0x00, 0x01, 0x00, 0x02,
        0x00, 0x4A, 0x00, 0x4D, 0x00, 0x02, 0x00, 0x47, 0x00, 0x4A, 0x00, 0x02, 0x00, 0x47,
        0x00, 0x4D,
    ];

    let deserialized = MultipleSubst::from_bytes(&binary_subst).unwrap();
    assert_eq!(deserialized, subst);
}

#[test]
fn mult_subst_empty() {
    let subst = MultipleSubst { mapping: std::collections::BTreeMap::new() };
    let bytes = subst.to_bytes().unwrap();
    assert_eq!(bytes, vec![0x00, 0x01, 0x00, 0x06, 0x00, 0x00, 0x00, 0x01, 0x00, 0x00]);
    assert_eq!(MultipleSubst::from_bytes(&bytes).unwrap(), subst);
}

#[test]
fn mult_subst_consecutive_glyphs_use_ranges() {
    let mut mapping = std::collections::BTreeMap::new();
    for g in 10u16..16 {
        mapping.insert(g, vec![g + 100]);
    }
    let subst = MultipleSubst { mapping };
    let bytes = subst.to_bytes().unwrap();
    // Six offsets after the header, then a format 2 coverage table with one range.
    assert_eq!(&bytes[0..6], &[0x00, 0x01, 0x00, 0x12, 0x00, 0x06]);
    assert_eq!(&bytes[18..28], &[0x00, 0x02, 0x00, 0x01, 0x00, 0x0a, 0x00, 0x0f, 0x00, 0x00]);
    assert_eq!(&bytes[6..8], &[0x00, 0x1c]);
    assert_eq!(MultipleSubst::from_bytes(&bytes).unwrap(), subst);
}

#[test]
fn mult_subst_too_long_sequence_is_refused() {
    let mut mapping = std::collections::BTreeMap::new();
    mapping.insert(5u16, vec![1u16; 70000]);
    let subst = MultipleSubst { mapping };
    assert_eq!(subst.to_bytes(), Err(SerializationError::OffsetOverflow));
}

#[test]
fn mult_subst_bad_input_is_an_error() {
    // A null coverage offset.
    assert!(MultipleSubst::from_bytes(&[0, 1, 0, 0, 0, 0]).is_err());
    // A sequence offset past the end.
    assert!(MultipleSubst::from_bytes(&[0, 1, 0, 8, 0, 1, 0, 40, 0, 1, 0, 1, 0, 5]).is_err());
    // Too short for a header.
    assert!(MultipleSubst::from_bytes(&[0, 1, 0]).is_err());
}

#[test]
fn mult_subst_more_sequences_than_glyphs() {
    // Two sequence offsets, but the coverage table lists one glyph: the
    // extra sequence is read and dropped.
    let data = [
        0, 1, 0, 10, 0, 2, 0, 16, 0, 20, 0, 1, 0, 1, 0, 9, 0, 1, 0, 3, 0, 1, 0, 4,
    ];
    let t = MultipleSubst::from_bytes(&data).unwrap();
    let mut expected = std::collections::BTreeMap::new();
    expected.insert(9u16, vec![3u16]);
    assert_eq!(t.mapping, expected);
}

fn ligature_example() -> LigatureSubst {
    LigatureSubst {
        mapping: vec![
            (vec![10, 20, 30], 11),
            (vec![10, 20, 31], 12),
            (vec![20, 30], 21),
            (vec![20, 40, 50], 22),
        ],
    }
}

#[test]
fn test_ligature_ser() {
    let subst = ligature_example();
    let serialized = subst.to_bytes().unwrap();
    assert_eq!(
        serialized,
        vec![
            0, 1, 0, 10, 0, 2, 0, 18, 0, 40, 0, 1, 0, 2, 0, 10, 0, 20, 0, 2, 0, 6, 0, 14, 0,
            11, 0, 3, 0, 20, 0, 30, 0, 12, 0, 3, 0, 20, 0, 31, 0, 2, 0, 6, 0, 12, 0, 21, 0, 2,
            0, 30, 0, 22, 0, 3, 0, 40, 0, 50
        ]
    );
}

#[test]
fn test_ligature_de() {
    let expected = ligature_example();
    let binary_lig = vec![
        0, 1, // subst format
        0, 10, // coverage offset
        0, 2, // ligature set count
        0, 18, // ligature set offset (0)
        0, 40, // ligature set offset (1)
        0, 1, 0, 2, 0, 10, 0, 20, 0, 2, 0, 6, 0, 14, 0, 11, 0, 3, 0, 20, 0, 30, 0, 12, 0, 3, 0,
        20, 0, 31, 0, 2, 0, 6, 0, 12, 0, 21, 0, 2, 0, 30, 0, 22, 0, 3, 0, 40, 0, 50,
    ];
    let deserialized = LigatureSubst::from_bytes(&binary_lig).unwrap();
    assert_eq!(deserialized, expected);
}

#[test]
fn ligature_insert_keeps_order() {
    let mut subst = LigatureSubst::default();
    subst.insert(vec![20, 40, 50], 22);
    subst.insert(vec![10, 20, 31], 12);
    subst.insert(vec![20, 30], 21);
    subst.insert(vec![10, 20, 30], 99);
    subst.insert(vec![10, 20, 30], 11);
    assert_eq!(subst, ligature_example());
    // A prefix comes before its extensions.
    subst.insert(vec![10, 20], 7);
    assert_eq!(subst.mapping[0], (vec![10, 20], 7));
}

#[test]
fn ligature_roundtrip_single_glyph_ligature() {
    let subst = LigatureSubst { mapping: vec![(vec![5], 6), (vec![5, 7], 8)] };
    let bytes = subst.to_bytes().unwrap();
    assert_eq!(
        bytes,
        vec![
            0, 1, 0, 8, 0, 1, 0, 14, // header
            0, 1, 0, 1, 0, 5, // coverage
            0, 2, 0, 6, 0, 10, // set: two ligatures
            0, 6, 0, 1, // ligature of glyph 5 alone
            0, 8, 0, 2, 0, 7, // ligature 5 7
        ]
    );
    assert_eq!(LigatureSubst::from_bytes(&bytes).unwrap(), subst);
}

#[test]
fn ligature_bad_input_is_an_error() {
    // A ligature with a component count of 0.
    let data = [0, 1, 0, 8, 0, 1, 0, 14, 0, 1, 0, 1, 0, 5, 0, 1, 0, 4, 0, 6, 0, 0];
    assert!(LigatureSubst::from_bytes(&data).is_err());
    // A null ligature set offset.
    let data = [0, 1, 0, 8, 0, 1, 0, 0, 0, 1, 0, 1, 0, 5];
    assert!(LigatureSubst::from_bytes(&data).is_err());
}

#[test]
fn ligature_duplicate_inputs_keep_the_last() {
    // Two ligatures with the same input sequence in one set.
    let data = [
        0, 1, 0, 8, 0, 1, 0, 14, 0, 1, 0, 1, 0, 5, 0, 2, 0, 6, 0, 12, 0, 1, 0, 2, 0, 7, 0, 2, 0,
        2, 0, 7,
    ];
    let t = LigatureSubst::from_bytes(&data).unwrap();
    assert_eq!(t.mapping, vec![(vec![5, 7], 2)]);
}

fn single_subst(pairs: &[(u16, u16)]) -> SingleSubst {
    let mut mapping = std::collections::BTreeMap::new();
    for (l, r) in pairs {
        mapping.insert(*l, *r);
    }
    SingleSubst { mapping }
}

#[test]
fn single_subst_format1_from_subtable() {
    // The single substitution subtable of a GSUB table in format 1.
    let data = [0x00, 0x01, 0x00, 0x06, 0x00, 0x01, 0x00, 0x01, 0x00, 0x02, 0x00, 0x42, 0x00, 0x45];
    let t = SingleSubst::from_bytes(&data).unwrap();
    assert_eq!(t, single_subst(&[(66, 67), (69, 70)]));
    assert_eq!(t.best_format(), (1, 1));
    assert_eq!(t.to_bytes().unwrap(), data.to_vec());
}

#[test]
fn single_subst_format2_from_subtable() {
    // The single substitution subtable of a GSUB table in format 2.
    let data = [
        0x00, 0x02, 0x00, 0x0c, 0x00, 0x03, 0x00, 0x43, 0x00, 0x44, 0x00, 0x49, 0x00, 0x01,
        0x00, 0x03, 0x00, 0x42, 0x00, 0x43, 0x00, 0x46,
    ];
    let t = SingleSubst::from_bytes(&data).unwrap();
    assert_eq!(t, single_subst(&[(66, 67), (67, 68), (70, 73)]));
    assert_eq!(t.best_format(), (2, 1));
    assert_eq!(t.to_bytes().unwrap(), data.to_vec());
}

#[test]
fn single_subst_best_format_wraps() {
    // 1 -> 65535 and 3 -> 1: both a delta of -2 when read as int16.
    let t = single_subst(&[(1, 65535), (3, 1)]);
    assert_eq!(t.best_format(), (1, -2));
    let bytes = t.to_bytes().unwrap();
    assert_eq!(&bytes[0..6], &[0x00, 0x01, 0x00, 0x06, 0xff, 0xfe]);
    assert_eq!(SingleSubst::from_bytes(&bytes).unwrap(), t);
    // An empty mapping is written in format 2.
    let empty = single_subst(&[]);
    assert_eq!(empty.best_format(), (2, 0));
    assert_eq!(
        empty.to_bytes().unwrap(),
        vec![0x00, 0x02, 0x00, 0x06, 0x00, 0x00, 0x00, 0x01, 0x00, 0x00]
    );
}

#[test]
fn single_subst_bad_format_is_an_error() {
    let data = [0x00, 0x03, 0x00, 0x06, 0x00, 0x01, 0x00, 0x01, 0x00, 0x00];
    assert!(SingleSubst::from_bytes(&data).is_err());
    assert!(SingleSubst::from_bytes(&data[..4]).is_err());
}

#[test]
fn alternate_subst_from_subtable() {
    // The alternate substitution subtable of a GSUB table.
    let data = [
        0x00, 0x01, 0x00, 0x0a, 0x00, 0x02, 0x00, 0x12, 0x00, 0x18, 0x00, 0x01, 0x00, 0x02,
        0x00, 66, 0x00, 69, 0x00, 0x02, 0x00, 67, 0x00, 68, 0x00, 0x02, 0x00, 72, 0x00, 73,
    ];
    let t = AlternateSubst::from_bytes(&data).unwrap();
    let mut expected = std::collections::BTreeMap::new();
    expected.insert(66u16, vec![67u16, 68]);
    expected.insert(69u16, vec![72u16, 73]);
    assert_eq!(t.mapping, expected);
    assert_eq!(t.to_bytes().unwrap(), data.to_vec());
}

#[test]
fn alternate_subst_null_list_is_empty() {
    // One covered glyph whose alternate list offset is null.
    let data = [0x00, 0x01, 0x00, 0x08, 0x00, 0x01, 0x00, 0x00, 0x00, 0x01, 0x00, 0x01, 0x00, 0x05];
    let t = AlternateSubst::from_bytes(&data).unwrap();
    let mut expected = std::collections::BTreeMap::new();
    expected.insert(5u16, Vec::new());
    assert_eq!(t.mapping, expected);
}

fn x_advance(v: i16) -> ValueRecord {
    ValueRecord { xPlacement: None, yPlacement: None, xAdvance: Some(v), yAdvance: None }
}

fn kerns(pairs: &[((u16, u16), i16)]) -> PairPos {
    let mut mapping = std::collections::BTreeMap::new();
    for (pair, v) in pairs {
        mapping.insert(*pair, (x_advance(*v), ValueRecord::new()));
    }
    PairPos { mapping }
}

const SOME_KERNS: [u8; 38] = [
    0x00, 0x01, 0x00, 0x0e, 0x00, 0x04, 0x00, 0x00, 0x00, 0x02, 0x00, 0x16, 0x00, 0x20,
    0x00, 0x01, 0x00, 0x02, 0x00, 0x00, 0x01, 0x4c, 0x00, 0x02, 0x01, 0x21, 0xff, 0xa6,
    0x01, 0x4c, 0xff, 0x6a, 0x00, 0x01, 0x03, 0x41, 0x00, 0x64,
];

#[test]
fn some_kerns_de() {
    let de = PairPos::from_bytes(&SOME_KERNS).unwrap();
    assert_eq!(de, kerns(&[((0, 289), -90), ((0, 332), -150), ((332, 833), 100)]));
}

#[test]
fn some_kerns_ser() {
    let kerntable = kerns(&[((0, 289), -90), ((0, 332), -150), ((332, 833), 100)]);
    let serialized = kerntable.to_bytes().unwrap();
    assert_eq!(serialized, SOME_KERNS.to_vec());
}

#[test]
fn class_kerns_de() {
    let binary_pos = vec![
        /* pos [D O Q] [T V W] -26; */
        0x00, 0x02, 0x00, 0x14, 0x00, 0x04, 0x00, 0x00, 0x00, 0x1e, 0x00, 0x22, 0x00, 0x01,
        0x00, 0x02, 0x00, 0x00, 0xff, 0xe6, 0x00, 0x01, 0x00, 0x03, 0x00, 0x25, 0x00, 0x30,
        0x00, 0x32, 0x00, 0x02, 0x00, 0x00, 0x00, 0x01, 0x00, 0x35, 0x00, 0x04, 0x00, 0x01,
        0x00, 0x00, 0x00, 0x01, 0x00, 0x01,
    ];
    let de = PairPos::from_bytes(&binary_pos).unwrap();
    assert_eq!(
        de,
        kerns(&[
            ((37, 53), -26),
            ((37, 55), -26),
            ((37, 56), -26),
            ((48, 53), -26),
            ((48, 55), -26),
            ((48, 56), -26),
            ((50, 53), -26),
            ((50, 55), -26),
            ((50, 56), -26),
        ])
    );
}

#[test]
fn kerns_drop_zero_adjustments_and_share_formats() {
    // A zero adjustment is dropped; the second pair's y placement widens the
    // first records' format, and the first pair gets a 0 there.
    let mut mapping = std::collections::BTreeMap::new();
    mapping.insert(
        (5u16, 6u16),
        (ValueRecord { xPlacement: Some(0), yPlacement: None, xAdvance: Some(-10), yAdvance: None }, ValueRecord::new()),
    );
    mapping.insert(
        (5u16, 7u16),
        (ValueRecord { xPlacement: None, yPlacement: Some(3), xAdvance: Some(20), yAdvance: None }, ValueRecord::new()),
    );
    let table = PairPos { mapping };
    let bytes = table.to_bytes().unwrap();
    assert_eq!(
        bytes,
        vec![
            0x00, 0x01, 0x00, 0x0c, 0x00, 0x06, 0x00, 0x00, 0x00, 0x01, 0x00, 0x12, // header
            0x00, 0x01, 0x00, 0x01, 0x00, 0x05, // coverage
            0x00, 0x02, // two records
            0x00, 0x06, 0x00, 0x00, 0xff, 0xf6, // 6: y placement 0, x advance -10
            0x00, 0x07, 0x00, 0x03, 0x00, 0x14, // 7: y placement 3, x advance 20
        ]
    );
    let back = PairPos::from_bytes(&bytes).unwrap();
    let mut expected = std::collections::BTreeMap::new();
    expected.insert((5u16, 6u16), (x_advance(-10), ValueRecord::new()));
    expected.insert(
        (5u16, 7u16),
        (ValueRecord { xPlacement: None, yPlacement: Some(3), xAdvance: Some(20), yAdvance: None }, ValueRecord::new()),
    );
    assert_eq!(back.mapping, expected);
}

#[test]
fn pair_pos_bad_input_is_an_error() {
    assert!(PairPos::from_bytes(&SOME_KERNS[..20]).is_err());
    assert!(PairPos::from_bytes(&SOME_KERNS[..8]).is_err());
    // A format 1 subtable with a null coverage offset.
    let mut null_cov = SOME_KERNS;
    null_cov[3] = 0;
    assert!(PairPos::from_bytes(&null_cov).is_err());
}

fn tag(t: &[u8; 4]) -> u32 {
    u32::from_be_bytes(*t)
}

const BINARY_SCRIPTLIST: [u8; 88] = [
    0x00, 0x02, 0x61, 0x72, 0x61, 0x62, 0x00, 0x0E, 0x6C, 0x61, 0x74, 0x6E, 0x00, 0x40,
    0x00, 0x0A, 0x00, 0x01, 0x55, 0x52, 0x44, 0x20, 0x00, 0x1E, 0x00, 0x00, 0xFF, 0xFF,
    0x00, 0x07, 0x00, 0x01, 0x00, 0x03, 0x00, 0x04, 0x00, 0x05, 0x00, 0x06, 0x00, 0x07,
    0x00, 0x08, 0x00, 0x00, 0xFF, 0xFF, 0x00, 0x07, 0x00, 0x00, 0x00, 0x03, 0x00, 0x04,
    0x00, 0x05, 0x00, 0x06, 0x00, 0x07, 0x00, 0x08, 0x00, 0x04, 0x00, 0x00, 0x00, 0x00,
    0xFF, 0xFF, 0x00, 0x07, 0x00, 0x02, 0x00, 0x03, 0x00, 0x04, 0x00, 0x05, 0x00, 0x06,
    0x00, 0x07, 0x00, 0x08,
];

fn expected_script_list() -> ScriptList {
    let mut arab_langs = std::collections::BTreeMap::new();
    arab_langs.insert(
        tag(b"URD "),
        LanguageSystem { required_feature: None, feature_indices: vec![0, 3, 4, 5, 6, 7, 8] },
    );
    let mut scripts = std::collections::BTreeMap::new();
    scripts.insert(
        tag(b"arab"),
        Script {
            default_language_system: Some(LanguageSystem {
                required_feature: None,
                feature_indices: vec![1, 3, 4, 5, 6, 7, 8],
            }),
            language_systems: arab_langs,
        },
    );
    scripts.insert(
        tag(b"latn"),
        Script {
            default_language_system: Some(LanguageSystem {
                required_feature: None,
                feature_indices: vec![2, 3, 4, 5, 6, 7, 8],
            }),
            language_systems: std::collections::BTreeMap::new(),
        },
    );
    ScriptList { scripts }
}

#[test]
fn test_scriptlist_de() {
    let deserialized = ScriptList::from_bytes(&BINARY_SCRIPTLIST).unwrap();
    assert_eq!(deserialized, expected_script_list());
}

#[test]
fn test_scriptlist_ser() {
    let serialized = expected_script_list().to_bytes().unwrap();
    assert_eq!(serialized, BINARY_SCRIPTLIST.to_vec());
}

#[test]
fn scriptlist_required_feature_and_no_default() {
    let mut langs = std::collections::BTreeMap::new();
    langs.insert(tag(b"TRK "), LanguageSystem { required_feature: Some(2), feature_indices: vec![] });
    let mut scripts = std::collections::BTreeMap::new();
    scripts.insert(tag(b"latn"), Script { default_language_system: None, language_systems: langs });
    let list = ScriptList { scripts };
    let bytes = list.to_bytes().unwrap();
    assert_eq!(
        bytes,
        vec![
            0x00, 0x01, 0x6C, 0x61, 0x74, 0x6E, 0x00, 0x08, // one script at 8
            0x00, 0x00, 0x00, 0x01, 0x54, 0x52, 0x4B, 0x20, 0x00, 0x0A, // no default, TRK at 10
            0x00, 0x00, 0x00, 0x02, 0x00, 0x00, // required feature 2, no features
        ]
    );
    assert_eq!(ScriptList::from_bytes(&bytes).unwrap(), list);
}

#[test]
fn scriptlist_bad_input_is_an_error() {
    assert!(ScriptList::from_bytes(&BINARY_SCRIPTLIST[..40]).is_err());
    assert!(ScriptList::from_bytes(&[0x00]).is_err());
    // A null script offset.
    let mut null_script = BINARY_SCRIPTLIST;
    null_script[6] = 0;
    null_script[7] = 0;
    assert!(ScriptList::from_bytes(&null_script).is_err());
}

#[test]
fn scriptlist_round_trip_and_its_limit() {
    let list = expected_script_list();
    assert_eq!(ScriptList::from_bytes(&list.to_bytes().unwrap()).unwrap(), list);
    // A required feature of 0xFFFF is written as "none" and reads back so.
    let mut scripts = std::collections::BTreeMap::new();
    scripts.insert(
        tag(b"latn"),
        Script {
            default_language_system: Some(LanguageSystem { required_feature: Some(0xFFFF), feature_indices: vec![1] }),
            language_systems: std::collections::BTreeMap::new(),
        },
    );
    let back = ScriptList::from_bytes(&ScriptList { scripts }.to_bytes().unwrap()).unwrap();
    let script = back.scripts.values().next().unwrap();
    assert_eq!(script.default_language_system.as_ref().unwrap().required_feature, None);
}

#[test]
fn pair_pos_round_trip_drops_zero_adjustments() {
    let mut mapping = std::collections::BTreeMap::new();
    mapping.insert(
        (5u16, 9u16),
        (
            ValueRecord { xPlacement: Some(0), yPlacement: None, xAdvance: Some(-30), yAdvance: None },
            ValueRecord { xPlacement: Some(4), yPlacement: None, xAdvance: None, yAdvance: None },
        ),
    );
    mapping.insert((5u16, 12u16), (ValueRecord::new(), ValueRecord::new()));
    mapping.insert(
        (40u16, 1u16),
        (
            ValueRecord { xPlacement: None, yPlacement: Some(7), xAdvance: None, yAdvance: None },
            ValueRecord::new(),
        ),
    );
    let pp = PairPos { mapping };
    let back = PairPos::from_bytes(&pp.to_bytes().unwrap()).unwrap();
    assert_eq!(back.mapping.len(), 3);
    let (a, b) = back.mapping[&(5, 9)];
    assert_eq!(a, ValueRecord { xPlacement: None, yPlacement: None, xAdvance: Some(-30), yAdvance: None });
    assert_eq!(b, ValueRecord { xPlacement: Some(4), yPlacement: None, xAdvance: None, yAdvance: None });
    assert_eq!(back.mapping[&(5, 12)], (ValueRecord::new(), ValueRecord::new()));
    assert_eq!(back.mapping[&(40, 1)].0.yPlacement, Some(7));
}
