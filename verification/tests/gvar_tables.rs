use fonttables::binary::SerializationError;
use fonttables::gvar::{deltaset_of, gvar, gvar_from_bytes, DeltaSet, GlyphVariationData};

fn deltaset(peak: i16, deltas: Vec<(i16, i16)>) -> DeltaSet {
    DeltaSet { peak: vec![peak], start: vec![peak], end: vec![peak], deltas }
}

#[test]
fn gvar_writes_shared_peaks_once() {
    let table = gvar {
        variations: vec![
            Some(GlyphVariationData { deltasets: vec![deltaset(0x4000, vec![(1, 2), (3, 4)])] }),
            Some(GlyphVariationData { deltasets: vec![deltaset(0x4000, vec![(5, 6)])] }),
            None,
        ],
    };
    let bytes = table.to_bytes().unwrap();
    let expected: Vec<u8> = vec![
        0x00, 0x01, 0x00, 0x00, // version 1.0
        0x00, 0x01, 0x00, 0x01, // one axis, one shared tuple
        0x00, 0x00, 0x00, 0x1c, // shared tuples at 28
        0x00, 0x03, 0x00, 0x00, // three glyphs, short offsets
        0x00, 0x00, 0x00, 0x1e, // variation data at 30
        0x00, 0x00, 0x00, 0x0a, 0x00, 0x12, 0x00, 0x12, // offsets (halved)
        0x40, 0x00, // the shared tuple
        // glyph 0: one delta set, shared points; data at 8
        0x80, 0x01, 0x00, 0x08, 0x00, 0x0a, 0x00, 0x00, 0x00, //
        0x41, 0x00, 0x01, 0x00, 0x03, 0x41, 0x00, 0x02, 0x00, 0x04, 0x00, //
        // glyph 1
        0x80, 0x01, 0x00, 0x08, 0x00, 0x06, 0x00, 0x00, 0x00, //
        0x40, 0x00, 0x05, 0x40, 0x00, 0x06, 0x00,
    ];
    assert_eq!(bytes, expected);
}

#[test]
fn gvar_with_no_shared_peak_is_refused() {
    let table = gvar {
        variations: vec![
            Some(GlyphVariationData { deltasets: vec![deltaset(0x4000, vec![(1, 2)])] }),
            Some(GlyphVariationData { deltasets: vec![deltaset(-0x4000, vec![(1, 2)])] }),
        ],
    };
    assert_eq!(table.to_bytes(), Err(SerializationError::NoSharedTuples));
}

#[test]
fn gvar_embeds_unshared_peaks_and_regions() {
    let intermediate = DeltaSet { peak: vec![0x2000], start: vec![0], end: vec![0x4000], deltas: vec![(7, -7)] };
    let table = gvar {
        variations: vec![Some(GlyphVariationData {
            deltasets: vec![
                deltaset(0x4000, vec![(1, 1)]),
                deltaset(0x4000, vec![(2, 2)]),
                intermediate,
            ],
        })],
    };
    let bytes = table.to_bytes().unwrap();
    // one shared tuple (0x4000); the third header embeds its peak and region
    assert_eq!(&bytes[6..8], &[0x00, 0x01]);
    let data = 20 + 4 + 2;
    assert_eq!(&bytes[data..data + 2], &[0x80, 0x03]);
    // third header: size 6, flags embedded peak and intermediate region, peak, start, end
    let third = data + 4 + 4 + 4;
    assert_eq!(&bytes[third..third + 10], &[0x00, 0x06, 0xC0, 0x00, 0x20, 0x00, 0x00, 0x00, 0x40, 0x00]);
}

const BINARY_GVAR: [u8; 110] = [
    0x00, 0x01, 0x00, 0x00, 0x00, 0x02, 0x00, 0x02, 0x00, 0x00, 0x00, 0x1e, 0x00, 0x04,
    0x00, 0x00, 0x00, 0x00, 0x00, 0x26, 0x00, 0x00, 0x00, 0x00, 0x00, 0x00, 0x00, 0x0d,
    0x00, 0x24, 0x40, 0x00, 0x00, 0x00, 0x00, 0x00, 0x40, 0x00, 0x80, 0x02, 0x00, 0x0c,
    0x00, 0x06, 0x00, 0x00, 0x00, 0x06, 0x00, 0x01, 0x00, 0x86, 0x02, 0xd2, 0xd2, 0x2e,
    0x83, 0x02, 0x52, 0xae, 0xf7, 0x83, 0x86, 0x00, 0x80, 0x03, 0x00, 0x14, 0x00, 0x0a,
    0x20, 0x00, 0x00, 0x07, 0x00, 0x01, 0x00, 0x07, 0x80, 0x00, 0x40, 0x00, 0x40, 0x00,
    0x00, 0x02, 0x01, 0x01, 0x02, 0x01, 0x26, 0xda, 0x01, 0x83, 0x7d, 0x03, 0x26, 0x26,
    0xda, 0xda, 0x83, 0x87, 0x03, 0x13, 0x13, 0xed, 0xed, 0x83, 0x87, 0x00,
];

#[test]
fn gvar_de() {
    let read = gvar_from_bytes(&BINARY_GVAR, &vec![0, 0, 7, 8]).unwrap();
    assert_eq!(read.axis_count, 2);
    assert_eq!(read.shared_tuples, vec![vec![0x4000, 0], vec![0, 0x4000]]);
    assert!(read.glyphs[0].is_none());
    assert!(read.glyphs[1].is_none());
    let a = read.glyphs[2].as_ref().unwrap();
    let sets: Vec<DeltaSet> = a.0.iter().map(|tv| deltaset_of(tv, &read.shared_tuples).unwrap().unwrap()).collect();
    assert_eq!(
        sets,
        vec![
            DeltaSet {
                peak: vec![0x4000, 0],
                start: vec![0x4000, 0],
                end: vec![0x4000, 0],
                deltas: vec![(0, -46), (0, -46), (0, 46), (0, 0), (0, 0), (0, 0), (0, 0)],
            },
            DeltaSet {
                peak: vec![0, 0x4000],
                start: vec![0, 0x4000],
                end: vec![0, 0x4000],
                deltas: vec![(82, 0), (-82, 0), (-9, 0), (0, 0), (0, 0), (0, 0), (0, 0)],
            },
        ]
    );
    // The first variation of the second glyph leaves points to interpolation.
    let b = read.glyphs[3].as_ref().unwrap();
    assert_eq!(b.0.len(), 3);
    assert_eq!(deltaset_of(&b.0[0], &read.shared_tuples).unwrap(), None);
    assert_eq!(
        deltaset_of(&b.0[1], &read.shared_tuples).unwrap(),
        Some(DeltaSet {
            peak: vec![0, 0x4000],
            start: vec![0, 0x4000],
            end: vec![0, 0x4000],
            deltas: vec![(38, 0), (38, 0), (-38, 0), (-38, 0), (0, 0), (0, 0), (0, 0), (0, 0)],
        })
    );
    assert_eq!(b.0[2].0.peakTuple, Some(vec![0x4000, 0x4000]));
    let given: Vec<_> = b.0[0].1.iter().map(|d| d.is_some()).collect();
    assert_eq!(given, vec![false, true, false, true, false, false, false, false]);
}

#[test]
fn gvar_written_reads_back() {
    let table = gvar {
        variations: vec![
            None,
            Some(GlyphVariationData {
                deltasets: vec![
                    DeltaSet { peak: vec![0x4000, 0], start: vec![0x4000, 0], end: vec![0x4000, 0], deltas: vec![(1, -2), (300, 4)] },
                    DeltaSet { peak: vec![0x2000, 0], start: vec![0, 0], end: vec![0x4000, 0], deltas: vec![(5, 6), (7, 8)] },
                ],
            }),
            Some(GlyphVariationData {
                deltasets: vec![DeltaSet {
                    peak: vec![0x4000, 0],
                    start: vec![0x4000, 0],
                    end: vec![0x4000, 0],
                    deltas: vec![(-1, -1)],
                }],
            }),
        ],
    };
    let bytes = table.to_bytes().unwrap();
    let read = gvar_from_bytes(&bytes, &vec![0, 2, 1]).unwrap();
    assert_eq!(read.shared_tuples, vec![vec![0x4000, 0]]);
    let mut back: Vec<Option<GlyphVariationData>> = vec![];
    for g in &read.glyphs {
        back.push(g.as_ref().map(|s| GlyphVariationData {
            deltasets: s.0.iter().map(|tv| deltaset_of(tv, &read.shared_tuples).unwrap().unwrap()).collect(),
        }));
    }
    assert_eq!(back, table.variations);
}
