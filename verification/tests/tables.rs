use fonttables::avar::{avar, SegmentMap};
use fonttables::coverage::Coverage;
use fonttables::gasp::{gasp, GaspRecord, GASP_DOGRAY, GASP_GRIDFIT};
use fonttables::head::head;
use fonttables::hhea::hhea;
use fonttables::hmtx::{self, Metric};
use fonttables::loca;
use fonttables::maxp::{maxp, maxp05, maxp10, MaxpVariant, MAXP_VERSION_0_5, MAXP_VERSION_1_0};
use fonttables::packed::{packed_deltas_from_bytes, PackedDeltas, PackedPoints};

/// An F2DOT14 number as its 16-bit pattern.
fn f2dot14(v: f64) -> i16 {
    (v * 16384.0).round() as i16
}

/// Seconds from 1904-01-01 00:00:00 to the given moment.
fn longdatetime(y: i32, mo: u32, d: u32, h: u32, mi: u32, s: u32) -> i64 {
    let epoch = chrono::NaiveDate::from_ymd_opt(1904, 1, 1)
        .unwrap()
        .and_hms_opt(0, 0, 0)
        .unwrap();
    let t = chrono::NaiveDate::from_ymd_opt(y, mo, d)
        .unwrap()
        .and_hms_opt(h, mi, s)
        .unwrap();
    (t - epoch).num_seconds()
}

fn sample_avar() -> avar {
    let pairs = |v: &[(f64, f64)]| -> Vec<(i16, i16)> {
        v.iter().map(|(a, b)| (f2dot14(*a), f2dot14(*b))).collect()
    };
    avar {
        majorVersion: 1,
        minorVersion: 0,
        reserved: 0,
        axisSegmentMaps: vec![
            SegmentMap {
                axisValueMaps: pairs(&[
                    (-1.0, -1.0),
                    (0.0, 0.0),
                    (0.125, 0.11444),
                    (0.25, 0.2349),
                    (0.5, 0.3554),
                    (0.625, 0.5),
                    (0.75, 0.6566),
                    (0.875, 0.8193),
                    (1.0, 1.0),
                ]),
            },
            SegmentMap {
                axisValueMaps: pairs(&[(-1.0, -1.0), (0.0, 0.0), (1.0, 1.0)]),
            },
        ],
    }
}

fn sample_avar_bytes() -> Vec<u8> {
    vec![
        0x00, 0x01, 0x00, 0x00, 0x00, 0x00, 0x00, 0x02, 0x00, 0x09, 0xc0, 0x00, 0xc0, 0x00,
        0x00, 0x00, 0x00, 0x00, 0x08, 0x00, 0x07, 0x53, 0x10, 0x00, 0x0f, 0x09, 0x20, 0x00,
        0x16, 0xbf, 0x28, 0x00, 0x20, 0x00, 0x30, 0x00, 0x2a, 0x06, 0x38, 0x00, 0x34, 0x6f,
        0x40, 0x00, 0x40, 0x00, 0x00, 0x03, 0xc0, 0x00, 0xc0, 0x00, 0x00, 0x00, 0x00, 0x00,
        0x40, 0x00, 0x40, 0x00,
    ]
}

#[test]
fn avar_ser() {
    assert_eq!(sample_avar().to_bytes(), sample_avar_bytes());
}

#[test]
fn avar_roundtrip() {
    let bytes = sample_avar_bytes();
    let table = avar::from_bytes(&bytes).unwrap();
    assert_eq!(table, sample_avar());
    assert_eq!(table.to_bytes(), bytes);
}

#[test]
fn avar_truncated() {
    let bytes = sample_avar_bytes();
    assert!(avar::from_bytes(&bytes[..bytes.len() - 1]).is_err());
}

#[test]
fn it_works() {
    assert_eq!(2 + 2, 4);
}

fn sample_head() -> head {
    head {
        majorVersion: 1,
        minorVersion: 0,
        fontRevision: 0x10000,
        checksumAdjustment: 0xaf8fe61,
        magicNumber: 0x5F0F3CF5,
        flags: 0b0000000000000011,
        unitsPerEm: 1000,
        created: longdatetime(2020, 1, 28, 21, 31, 22),
        modified: longdatetime(2021, 4, 14, 12, 1, 45),
        xMin: 9,
        yMin: 0,
        xMax: 592,
        yMax: 1000,
        macStyle: 0,
        lowestRecPPEM: 6,
        fontDirectionHint: 2,
        indexToLocFormat: 1,
        glyphDataFormat: 0,
    }
}

fn sample_head_bytes() -> Vec<u8> {
    vec![
        0x00, 0x01, 0x00, 0x00, 0x00, 0x01, 0x00, 0x00, 0x0a, 0xf8, 0xfe, 0x61, 0x5f, 0x0f,
        0x3c, 0xf5, 0x00, 0x03, 0x03, 0xe8, 0x00, 0x00, 0x00, 0x00, 0xda, 0x56, 0x58, 0xaa,
        0x00, 0x00, 0x00, 0x00, 0xdc, 0x9c, 0x8a, 0x29, 0x00, 0x09, 0x00, 0x00, 0x02, 0x50,
        0x03, 0xe8, 0x00, 0x00, 0x00, 0x06, 0x00, 0x02, 0x00, 0x01, 0x00, 0x00,
    ]
}

#[test]
fn head_ser() {
    assert_eq!(sample_head().to_bytes(), sample_head_bytes());
}

#[test]
fn head_de_roundtrip() {
    let parsed = head::from_bytes(&sample_head_bytes()).unwrap();
    assert_eq!(parsed, sample_head());
    assert!(head::from_bytes(&sample_head_bytes()[..53]).is_err());
}

fn sample_hhea() -> hhea {
    hhea {
        majorVersion: 1,
        minorVersion: 0,
        ascender: 705,
        descender: -180,
        lineGap: 0,
        advanceWidthMax: 1311,
        minLeftSideBearing: -382,
        minRightSideBearing: -382,
        xMaxExtent: 1245,
        caretSlopeRise: 1,
        caretSlopeRun: 0,
        caretOffset: 0,
        reserved0: 0,
        reserved1: 0,
        reserved2: 0,
        reserved3: 0,
        metricDataFormat: 0,
        numberOfHMetrics: 1117,
    }
}

fn sample_hhea_bytes() -> Vec<u8> {
    vec![
        0x00, 0x01, 0x00, 0x00, 0x02, 0xc1, 0xff, 0x4c, 0x00, 0x00, 0x05, 0x1f, 0xfe, 0x82,
        0xfe, 0x82, 0x04, 0xdd, 0x00, 0x01, 0x00, 0x00, 0x00, 0x00, 0x00, 0x00, 0x00, 0x00,
        0x00, 0x00, 0x00, 0x00, 0x00, 0x00, 0x04, 0x5d,
    ]
}

#[test]
fn hhea_ser() {
    assert_eq!(sample_hhea().to_bytes(), sample_hhea_bytes());
}

#[test]
fn hhea_de() {
    let deserialized = hhea::from_bytes(&sample_hhea_bytes()).unwrap();
    assert_eq!(deserialized, sample_hhea());
}

#[test]
fn hhea_too_short() {
    assert!(hhea::from_bytes(&sample_hhea_bytes()[..35]).is_err());
}

fn sample_metrics() -> Vec<Metric> {
    vec![
        Metric { advanceWidth: 756, lsb: 5 },
        Metric { advanceWidth: 756, lsb: 5 },
        Metric { advanceWidth: 664, lsb: 30 },
        Metric { advanceWidth: 756, lsb: 5 },
        Metric { advanceWidth: 200, lsb: 0 },
        Metric { advanceWidth: 600, lsb: 29 },
        Metric { advanceWidth: 600, lsb: 29 },
        Metric { advanceWidth: 10, lsb: -141 },
    ]
}

#[test]
fn hmtx_de_16bit() {
    let binary_hmtx = vec![
        0x02, 0xf4, 0x00, 0x05, 0x02, 0xf4, 0x00, 0x05, 0x02, 0x98, 0x00, 0x1e, 0x02, 0xf4,
        0x00, 0x05, 0x00, 0xc8, 0x00, 0x00, 0x02, 0x58, 0x00, 0x1d, 0x02, 0x58, 0x00, 0x1d,
        0x00, 0x0a, 0xff, 0x73,
    ];
    let fhmtx = hmtx::from_bytes(&binary_hmtx, 8).unwrap();
    assert_eq!(fhmtx.metrics, sample_metrics());
}

#[test]
fn hmtx_short_metrics_roundtrip() {
    // The last two glyphs share the advance width of the one before them, so
    // only their side bearings are written.
    let metrics = vec![
        Metric { advanceWidth: 500, lsb: 10 },
        Metric { advanceWidth: 600, lsb: -20 },
        Metric { advanceWidth: 600, lsb: 30 },
        Metric { advanceWidth: 600, lsb: 40 },
    ];
    let table = hmtx::hmtx { metrics: metrics.clone() };
    let (bytes, n_long) = table.to_bytes();
    assert_eq!(n_long, 2);
    assert_eq!(bytes, vec![0x01, 0xf4, 0x00, 0x0a, 0x02, 0x58, 0xff, 0xec, 0x00, 0x1e, 0x00, 0x28]);
    let back = hmtx::from_bytes(&bytes, n_long).unwrap();
    assert_eq!(back.metrics, metrics);
}

#[test]
fn loca_de_16bit() {
    let binary_loca = vec![0x00, 0x00, 0x01, 0x30, 0x01, 0x30, 0x01, 0x4c];
    let floca = loca::from_bytes(&binary_loca, false);
    let locations = [Some(0), None, Some(608)];
    assert_eq!(floca.indices, locations);
}

#[test]
fn loca_compile_then_read() {
    let offsets = vec![0u32, 20, 20, 64];
    let short = loca::compile_loca(&offsets, false);
    assert_eq!(short, vec![0x00, 0x00, 0x00, 0x0a, 0x00, 0x0a, 0x00, 0x20]);
    assert_eq!(loca::from_bytes(&short, false).indices, vec![Some(0), None, Some(20)]);
    let long = loca::compile_loca(&offsets, true);
    assert_eq!(long.len(), 16);
    assert_eq!(loca::from_bytes(&long, true).indices, vec![Some(0), None, Some(20)]);
}

#[test]
fn maxp_ser_v05() {
    let v = maxp {
        version: MAXP_VERSION_0_5,
        table: MaxpVariant::Maxp05(maxp05 { numGlyphs: 935 }),
    };
    let binary_maxp = v.to_bytes();
    let maxp_expectation = vec![0x00, 0x00, 0x50, 0x00, 0x03, 0xa7];
    assert_eq!(binary_maxp, maxp_expectation);
}

fn sample_maxp10() -> maxp {
    maxp {
        version: MAXP_VERSION_1_0,
        table: MaxpVariant::Maxp10(maxp10 {
            numGlyphs: 1117,
            maxPoints: 98,
            maxContours: 7,
            maxCompositePoints: 0,
            maxCompositeContours: 0,
            maxZones: 2,
            maxTwilightPoints: 0,
            maxStorage: 0,
            maxFunctionDefs: 0,
            maxInstructionDefs: 0,
            maxStackElements: 0,
            maxSizeOfInstructions: 0,
            maxComponentElements: 0,
            maxComponentDepth: 0,
        }),
    }
}

fn sample_maxp10_bytes() -> Vec<u8> {
    vec![
        0x00, 0x01, 0x00, 0x00, 0x04, 0x5d, 0x00, 0x62, 0x00, 0x07, 0x00, 0x00, 0x00, 0x00,
        0x00, 0x02, 0x00, 0x00, 0x00, 0x00, 0x00, 0x00, 0x00, 0x00, 0x00, 0x00, 0x00, 0x00,
        0x00, 0x00, 0x00, 0x00,
    ]
}

#[test]
fn maxp_ser_v10() {
    assert_eq!(sample_maxp10().to_bytes(), sample_maxp10_bytes());
}

#[test]
fn maxp_de_v05() {
    let v = maxp {
        version: MAXP_VERSION_0_5,
        table: MaxpVariant::Maxp05(maxp05 { numGlyphs: 935 }),
    };
    let binary_maxp = vec![0x00, 0x00, 0x50, 0x00, 0x03, 0xa7];
    let deserialized = maxp::from_bytes(&binary_maxp).unwrap();
    assert_eq!(deserialized, v);
}

#[test]
fn maxp_de_v10_and_glyph_count() {
    let mut parsed = maxp::from_bytes(&sample_maxp10_bytes()).unwrap();
    assert_eq!(parsed, sample_maxp10());
    assert_eq!(parsed.num_glyphs(), 1117);
    parsed.set_num_glyphs(12);
    assert_eq!(parsed.num_glyphs(), 12);
    assert_eq!(&parsed.to_bytes()[4..6], &[0x00, 0x0c]);
}

#[test]
fn maxp_unknown_version() {
    let bytes = vec![0x00, 0x02, 0x00, 0x00, 0x03, 0xa7];
    assert!(maxp::from_bytes(&bytes).is_err());
}

#[test]
fn gasp_serde() {
    let binary_gasp = vec![
        0x00, 0x00, 0x00, 0x02, 0x00, 0x08, 0x00, 0x02, 0xff, 0xff, 0x00, 0x03,
    ];
    let fgasp = gasp::from_bytes(&binary_gasp).unwrap();
    let expected = gasp {
        version: 0,
        gaspRanges: vec![
            GaspRecord {
                rangeMaxPPEM: 8,
                rangeGaspBehavior: GASP_DOGRAY,
            },
            GaspRecord {
                rangeMaxPPEM: 65535,
                rangeGaspBehavior: GASP_GRIDFIT | GASP_DOGRAY,
            },
        ],
    };
    assert_eq!(fgasp, expected);
    let serialized = fgasp.to_bytes();
    assert_eq!(serialized, binary_gasp);
}

#[test]
fn test_cov1_deser() {
    let binary_coverage = vec![
        0x00, 0x01, 0x00, 0x06, 0x00, 0x25, 0x00, 0x64, 0x00, 0xfc, 0x01, 0x53, 0x02, 0xda,
        0x03, 0x02,
    ];
    let expected = Coverage {
        glyphs: vec![37, 100, 252, 339, 730, 770],
    };
    let deserialized = Coverage::from_bytes(&binary_coverage).unwrap();
    assert_eq!(deserialized, expected);
    let serialized = deserialized.to_bytes();
    assert_eq!(serialized, binary_coverage);
}

#[test]
fn test_cov2_deser() {
    let binary_coverage = vec![
        0x00, 0x02, 0x00, 0x02, 0x00, 0x05, 0x00, 0x08, 0x00, 0x00, 0x00, 0x0a, 0x00, 0x0e,
        0x00, 0x04,
    ];
    let expected = Coverage {
        glyphs: vec![5, 6, 7, 8, 10, 11, 12, 13, 14],
    };
    let deserialized = Coverage::from_bytes(&binary_coverage).unwrap();
    assert_eq!(deserialized, expected);
    let serialized = deserialized.to_bytes();
    assert_eq!(serialized, binary_coverage);
}

#[test]
fn coverage_with_last_glyph_in_format1_reads_back() {
    let cov = Coverage { glyphs: vec![3, 9, 65535] };
    let bytes = cov.to_bytes();
    assert_eq!(&bytes[0..2], &[0x00, 0x01]);
    assert_eq!(Coverage::from_bytes(&bytes).unwrap(), cov);
}

#[test]
fn coverage_truncated() {
    // Any format other than 1 is read as ranges; two records need 12 bytes.
    let bytes = vec![0x00, 0x03, 0x00, 0x02, 0x00, 0x05, 0x00, 0x08, 0x00, 0x00];
    assert!(Coverage::from_bytes(&bytes).is_err());
    assert!(Coverage::from_bytes(&[0x00, 0x01]).is_err());
}

#[test]
fn test_packed_delta_de() {
    let packed = vec![
        0x03, 0x0a, 0x97, 0x00, 0xc6, 0x87, 0x41, 0x10, 0x22, 0xfb, 0x34,
    ];
    let expected = PackedDeltas {
        deltas: Some(vec![10, -105, 0, -58, 0, 0, 0, 0, 0, 0, 0, 0, 4130, -1228]),
    };
    let (deserialized, next) = packed_deltas_from_bytes(&packed, 0, 14).unwrap();
    assert_eq!(deserialized, expected);
    assert_eq!(next, packed.len());
}

#[test]
fn test_packed_point_de() {
    let packed = vec![
        0x0b, 0x0a, 0x00, 0x03, 0x01, 0x03, 0x01, 0x03, 0x01, 0x03, 0x02, 0x02, 0x02,
    ];
    let expected = PackedPoints {
        points: Some(vec![0, 3, 4, 7, 8, 11, 12, 15, 17, 19, 21]),
    };
    let (deserialized, next) = PackedPoints::from_bytes(&packed, 0).unwrap();
    assert_eq!(deserialized, expected);
    assert_eq!(next, packed.len());
}

#[test]
fn test_packed_point_ser() {
    let expected = vec![
        0x0b, 0x0a, 0x00, 0x03, 0x01, 0x03, 0x01, 0x03, 0x01, 0x03, 0x02, 0x02, 0x02,
    ];
    let object = PackedPoints {
        points: Some(vec![0, 3, 4, 7, 8, 11, 12, 15, 17, 19, 21]),
    };
    let serialized = object.to_bytes();
    assert_eq!(serialized, expected);
}

#[test]
fn packed_points_all() {
    let object = PackedPoints { points: None };
    let bytes = object.to_bytes();
    assert_eq!(bytes, vec![0x00]);
    let (back, next) = PackedPoints::from_bytes(&bytes, 0).unwrap();
    assert_eq!(back, object);
    assert_eq!(next, 1);
}

#[test]
fn hmtx_count_of_full_metrics_keeps_its_low_sixteen_bits() {
    // Every advance width differs from the one before, so all 65537 metrics
    // are written in full; the count field keeps only its low 16 bits.
    let metrics: Vec<Metric> = (0..65537u32).map(|i| Metric { advanceWidth: i as u16, lsb: 0 }).collect();
    let table = hmtx::hmtx { metrics };
    let (bytes, n_long) = table.to_bytes();
    assert_eq!(n_long, 1);
    assert_eq!(table.number_of_hmetrics(), 1);
    assert_eq!(bytes.len(), 4 * 65537);
}

#[test]
fn os2_round_trip_keeps_the_fields_of_its_version() {
    let mut bytes: Vec<u8> = (0..96u32).map(|i| (i * 7 % 251) as u8).collect();
    bytes[0] = 0;
    bytes[1] = 3; // version 3: fields up to usMaxContext
    let t = fonttables::os2::os2::from_bytes(&bytes).unwrap();
    assert_eq!(t.version, 3);
    assert!(t.ulCodePageRange1.is_some() && t.usMaxContext.is_some());
    assert_eq!(t.usLowerOpticalPointSize, None);
    assert_eq!(t.to_bytes(), bytes);
    assert!(fonttables::os2::os2::from_bytes(&bytes[..95]).is_err());
}
