use fonttables::binary::SerializationError;
use fonttables::fvar::{fvar, InstanceRecord, VariationAxisRecord};

/// A 16.16 fixed-point number as its 32-bit pattern.
fn fixed(v: f64) -> i32 {
    (v * 65536.0).round() as i32
}

fn tag(t: &[u8; 4]) -> u32 {
    u32::from_be_bytes(*t)
}

fn instance(subfamily: u16, wght: f64, ital: f64) -> InstanceRecord {
    InstanceRecord { subfamilyNameID: subfamily, coordinates: vec![fixed(wght), fixed(ital)], postscriptNameID: None }
}

fn sample_fvar() -> fvar {
    fvar {
        axes: vec![
            VariationAxisRecord {
                axisTag: tag(b"wght"),
                flags: 0,
                minValue: fixed(200.0),
                defaultValue: fixed(200.0),
                maxValue: fixed(1000.0),
                axisNameID: 256,
            },
            VariationAxisRecord {
                axisTag: tag(b"ital"),
                flags: 0,
                minValue: fixed(0.0),
                defaultValue: fixed(0.0),
                maxValue: fixed(9.0),
                axisNameID: 257,
            },
        ],
        instances: vec![
        instance(17, 200.0, 0.0),
        instance(258, 300.0, 0.0),
        instance(259, 400.0, 0.0),
        instance(260, 600.0, 0.0),
        instance(261, 700.0, 0.0),
        instance(262, 800.0, 0.0),
        instance(263, 900.0, 0.0),
        instance(259, 1000.0, 0.0),
        instance(264, 200.0, 9.0),
        instance(265, 300.0, 9.0),
        instance(257, 400.0, 9.0),
        instance(266, 600.0, 9.0),
        instance(267, 700.0, 9.0),
        instance(268, 800.0, 9.0),
        instance(269, 900.0, 9.0),
        instance(257, 1000.0, 9.0),
        ],
    }
}

fn sample_fvar_bytes() -> Vec<u8> {
    vec![
        0x00, 0x01, 0x00, 0x00, 0x00, 0x10, 0x00, 0x02, 0x00, 0x02, 0x00, 0x14, 0x00, 0x10,
        0x00, 0x0c, 0x77, 0x67, 0x68, 0x74, 0x00, 0xc8, 0x00, 0x00, 0x00, 0xc8, 0x00, 0x00,
        0x03, 0xe8, 0x00, 0x00, 0x00, 0x00, 0x01, 0x00, 0x69, 0x74, 0x61, 0x6c, 0x00, 0x00,
        0x00, 0x00, 0x00, 0x00, 0x00, 0x00, 0x00, 0x09, 0x00, 0x00, 0x00, 0x00, 0x01, 0x01,
        0x00, 0x11, 0x00, 0x00, 0x00, 0xc8, 0x00, 0x00, 0x00, 0x00, 0x00, 0x00, 0x01, 0x02,
        0x00, 0x00, 0x01, 0x2c, 0x00, 0x00, 0x00, 0x00, 0x00, 0x00, 0x01, 0x03, 0x00, 0x00,
        0x01, 0x90, 0x00, 0x00, 0x00, 0x00, 0x00, 0x00, 0x01, 0x04, 0x00, 0x00, 0x02, 0x58,
        0x00, 0x00, 0x00, 0x00, 0x00, 0x00, 0x01, 0x05, 0x00, 0x00, 0x02, 0xbc, 0x00, 0x00,
        0x00, 0x00, 0x00, 0x00, 0x01, 0x06, 0x00, 0x00, 0x03, 0x20, 0x00, 0x00, 0x00, 0x00,
        0x00, 0x00, 0x01, 0x07, 0x00, 0x00, 0x03, 0x84, 0x00, 0x00, 0x00, 0x00, 0x00, 0x00,
        0x01, 0x03, 0x00, 0x00, 0x03, 0xe8, 0x00, 0x00, 0x00, 0x00, 0x00, 0x00, 0x01, 0x08,
        0x00, 0x00, 0x00, 0xc8, 0x00, 0x00, 0x00, 0x09, 0x00, 0x00, 0x01, 0x09, 0x00, 0x00,
        0x01, 0x2c, 0x00, 0x00, 0x00, 0x09, 0x00, 0x00, 0x01, 0x01, 0x00, 0x00, 0x01, 0x90,
        0x00, 0x00, 0x00, 0x09, 0x00, 0x00, 0x01, 0x0a, 0x00, 0x00, 0x02, 0x58, 0x00, 0x00,
        0x00, 0x09, 0x00, 0x00, 0x01, 0x0b, 0x00, 0x00, 0x02, 0xbc, 0x00, 0x00, 0x00, 0x09,
        0x00, 0x00, 0x01, 0x0c, 0x00, 0x00, 0x03, 0x20, 0x00, 0x00, 0x00, 0x09, 0x00, 0x00,
        0x01, 0x0d, 0x00, 0x00, 0x03, 0x84, 0x00, 0x00, 0x00, 0x09, 0x00, 0x00, 0x01, 0x01,
        0x00, 0x00, 0x03, 0xe8, 0x00, 0x00, 0x00, 0x09, 0x00, 0x00,
    ]
}

#[test]
fn fvar_de() {
    let ffvar = sample_fvar();
    let binary_fvar = sample_fvar_bytes();
    let deserialized = fvar::from_bytes(&binary_fvar).unwrap();
    assert_eq!(deserialized, ffvar);
    let serialized = deserialized.to_bytes().unwrap();
    assert_eq!(serialized, binary_fvar);
}

#[test]
fn fvar_postscript_names() {
    let mut table = sample_fvar();
    table.instances.truncate(2);
    table.instances[0].postscriptNameID = Some(300);
    assert_eq!(table.to_bytes(), Err(SerializationError::InconsistentPostscriptNameIDs));
    table.instances[1].postscriptNameID = Some(301);
    let bytes = table.to_bytes().unwrap();
    // instanceSize counts the PostScript name ID.
    assert_eq!(&bytes[14..16], &[0x00, 0x0e]);
    let back = fvar::from_bytes(&bytes).unwrap();
    assert_eq!(back, table);
}

#[test]
fn fvar_truncated() {
    let bytes = sample_fvar_bytes();
    assert!(fvar::from_bytes(&bytes[..15]).is_err());
    assert!(fvar::from_bytes(&bytes[..bytes.len() - 1]).is_err());
    assert!(fvar::from_bytes(&bytes[..40]).is_err());
}
