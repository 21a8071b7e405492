use fonttables::post::{post, POST_VERSION_2};

fn sample_post() -> Vec<u8> {
    vec![
    0x00, 0x02, 0x00, 0x00, 0x00, 0x00, 0x00, 0x00, 0xff, 0x9c, 0x00, 0x32, 0x00, 0x00,
    0x00, 0x00, 0x00, 0x00, 0x00, 0x00, 0x00, 0x00, 0x00, 0x00, 0x00, 0x00, 0x00, 0x00,
    0x00, 0x00, 0x00, 0x00, 0x00, 0x2a, 0x00, 0x00, 0x00, 0x03, 0x01, 0x02, 0x01, 0x03,
    0x01, 0x04, 0x01, 0x05, 0x01, 0x06, 0x01, 0x07, 0x01, 0x08, 0x01, 0x09, 0x01, 0x0a,
    0x01, 0x0b, 0x01, 0x0c, 0x01, 0x0d, 0x01, 0x0e, 0x01, 0x0f, 0x01, 0x10, 0x01, 0x11,
    0x01, 0x12, 0x01, 0x13, 0x01, 0x14, 0x01, 0x15, 0x01, 0x16, 0x01, 0x17, 0x01, 0x18,
    0x01, 0x19, 0x01, 0x1a, 0x01, 0x1b, 0x01, 0x1c, 0x01, 0x1d, 0x01, 0x1e, 0x01, 0x1f,
    0x01, 0x20, 0x01, 0x21, 0x01, 0x22, 0x01, 0x23, 0x01, 0x24, 0x01, 0x25, 0x01, 0x26,
    0x01, 0x27, 0x01, 0x28, 0x01, 0x29, 0x07, 0x75, 0x6e, 0x69, 0x30, 0x36, 0x32, 0x37,
    0x0c, 0x75, 0x6e, 0x69, 0x30, 0x36, 0x32, 0x37, 0x2e, 0x66, 0x69, 0x6e, 0x61, 0x07,
    0x75, 0x6e, 0x69, 0x30, 0x36, 0x36, 0x45, 0x0c, 0x75, 0x6e, 0x69, 0x30, 0x36, 0x36,
    0x45, 0x2e, 0x66, 0x69, 0x6e, 0x61, 0x0c, 0x75, 0x6e, 0x69, 0x30, 0x36, 0x36, 0x45,
    0x2e, 0x6d, 0x65, 0x64, 0x69, 0x0c, 0x75, 0x6e, 0x69, 0x30, 0x36, 0x36, 0x45, 0x2e,
    0x69, 0x6e, 0x69, 0x74, 0x07, 0x75, 0x6e, 0x69, 0x30, 0x36, 0x32, 0x38, 0x0c, 0x75,
    0x6e, 0x69, 0x30, 0x36, 0x32, 0x38, 0x2e, 0x66, 0x69, 0x6e, 0x61, 0x0c, 0x75, 0x6e,
    0x69, 0x30, 0x36, 0x32, 0x38, 0x2e, 0x6d, 0x65, 0x64, 0x69, 0x0c, 0x75, 0x6e, 0x69,
    0x30, 0x36, 0x32, 0x38, 0x2e, 0x69, 0x6e, 0x69, 0x74, 0x07, 0x75, 0x6e, 0x69, 0x30,
    0x36, 0x32, 0x41, 0x0c, 0x75, 0x6e, 0x69, 0x30, 0x36, 0x32, 0x41, 0x2e, 0x66, 0x69,
    0x6e, 0x61, 0x0c, 0x75, 0x6e, 0x69, 0x30, 0x36, 0x32, 0x41, 0x2e, 0x6d, 0x65, 0x64,
    0x69, 0x0c, 0x75, 0x6e, 0x69, 0x30, 0x36, 0x32, 0x41, 0x2e, 0x69, 0x6e, 0x69, 0x74,
    0x07, 0x75, 0x6e, 0x69, 0x30, 0x36, 0x32, 0x42, 0x0c, 0x75, 0x6e, 0x69, 0x30, 0x36,
    0x32, 0x42, 0x2e, 0x66, 0x69, 0x6e, 0x61, 0x0c, 0x75, 0x6e, 0x69, 0x30, 0x36, 0x32,
    0x42, 0x2e, 0x6d, 0x65, 0x64, 0x69, 0x0c, 0x75, 0x6e, 0x69, 0x30, 0x36, 0x32, 0x42,
    0x2e, 0x69, 0x6e, 0x69, 0x74, 0x07, 0x75, 0x6e, 0x69, 0x30, 0x36, 0x34, 0x34, 0x0c,
    0x75, 0x6e, 0x69, 0x30, 0x36, 0x34, 0x34, 0x2e, 0x66, 0x69, 0x6e, 0x61, 0x0c, 0x75,
    0x6e, 0x69, 0x30, 0x36, 0x34, 0x34, 0x2e, 0x6d, 0x65, 0x64, 0x69, 0x0c, 0x75, 0x6e,
    0x69, 0x30, 0x36, 0x34, 0x34, 0x2e, 0x69, 0x6e, 0x69, 0x74, 0x07, 0x75, 0x6e, 0x69,
    0x30, 0x36, 0x34, 0x36, 0x0c, 0x75, 0x6e, 0x69, 0x30, 0x36, 0x34, 0x36, 0x2e, 0x66,
    0x69, 0x6e, 0x61, 0x0c, 0x75, 0x6e, 0x69, 0x30, 0x36, 0x34, 0x36, 0x2e, 0x6d, 0x65,
    0x64, 0x69, 0x0c, 0x75, 0x6e, 0x69, 0x30, 0x36, 0x34, 0x36, 0x2e, 0x69, 0x6e, 0x69,
    0x74, 0x07, 0x75, 0x6e, 0x69, 0x30, 0x36, 0x42, 0x41, 0x0c, 0x75, 0x6e, 0x69, 0x30,
    0x36, 0x42, 0x41, 0x2e, 0x66, 0x69, 0x6e, 0x61, 0x0b, 0x64, 0x6f, 0x74, 0x61, 0x62,
    0x6f, 0x76, 0x65, 0x2d, 0x61, 0x72, 0x0b, 0x64, 0x6f, 0x74, 0x62, 0x65, 0x6c, 0x6f,
    0x77, 0x2d, 0x61, 0x72, 0x0c, 0x64, 0x6f, 0x74, 0x63, 0x65, 0x6e, 0x74, 0x65, 0x72,
    0x2d, 0x61, 0x72, 0x17, 0x74, 0x77, 0x6f, 0x64, 0x6f, 0x74, 0x73, 0x76, 0x65, 0x72,
    0x74, 0x69, 0x63, 0x61, 0x6c, 0x61, 0x62, 0x6f, 0x76, 0x65, 0x2d, 0x61, 0x72, 0x17,
    0x74, 0x77, 0x6f, 0x64, 0x6f, 0x74, 0x73, 0x76, 0x65, 0x72, 0x74, 0x69, 0x63, 0x61,
    0x6c, 0x62, 0x65, 0x6c, 0x6f, 0x77, 0x2d, 0x61, 0x72, 0x19, 0x74, 0x77, 0x6f, 0x64,
    0x6f, 0x74, 0x73, 0x68, 0x6f, 0x72, 0x69, 0x7a, 0x6f, 0x6e, 0x74, 0x61, 0x6c, 0x61,
    0x62, 0x6f, 0x76, 0x65, 0x2d, 0x61, 0x72, 0x19, 0x74, 0x77, 0x6f, 0x64, 0x6f, 0x74,
    0x73, 0x68, 0x6f, 0x72, 0x69, 0x7a, 0x6f, 0x6e, 0x74, 0x61, 0x6c, 0x62, 0x65, 0x6c,
    0x6f, 0x77, 0x2d, 0x61, 0x72, 0x15, 0x74, 0x68, 0x72, 0x65, 0x65, 0x64, 0x6f, 0x74,
    0x73, 0x64, 0x6f, 0x77, 0x6e, 0x61, 0x62, 0x6f, 0x76, 0x65, 0x2d, 0x61, 0x72, 0x15,
    0x74, 0x68, 0x72, 0x65, 0x65, 0x64, 0x6f, 0x74, 0x73, 0x64, 0x6f, 0x77, 0x6e, 0x62,
    0x65, 0x6c, 0x6f, 0x77, 0x2d, 0x61, 0x72, 0x13, 0x74, 0x68, 0x72, 0x65, 0x65, 0x64,
    0x6f, 0x74, 0x73, 0x75, 0x70, 0x61, 0x62, 0x6f, 0x76, 0x65, 0x2d, 0x61, 0x72, 0x13,
    0x74, 0x68, 0x72, 0x65, 0x65, 0x64, 0x6f, 0x74, 0x73, 0x75, 0x70, 0x62, 0x65, 0x6c,
    0x6f, 0x77, 0x2d, 0x61, 0x72, 0x07, 0x75, 0x6e, 0x69, 0x30, 0x36, 0x34, 0x45,
    ]
}

#[test]
fn post_serde_v20() {
    let binary_post = sample_post();
    let deserialized = post::from_bytes(&binary_post).unwrap();
    assert_eq!(deserialized.version, POST_VERSION_2);
    assert_eq!(deserialized.italicAngle, 0);
    assert_eq!(deserialized.underlinePosition, -100);
    assert_eq!(deserialized.underlineThickness, 50);
    assert_eq!(deserialized.isFixedPitch, 0);
    assert!(deserialized.glyphnames.is_some());
    if let Some(ref names) = deserialized.glyphnames {
        assert_eq!(names.len(), 42);
        assert_eq!(names[0], String::from(".notdef"));
        assert_eq!(names[1], String::from("space"));
        assert_eq!(names[2], String::from("uni0627"));
    }
    let serialized = deserialized.to_bytes();
    assert_eq!(serialized, binary_post);
}

#[test]
fn post_version_3_has_no_names() {
    let table = post::new(0x00030000, -0x000c0000, -75, 50, true, Some(vec![String::from("a")]));
    assert_eq!(table.isFixedPitch, 1);
    let bytes = table.to_bytes();
    assert_eq!(bytes.len(), 32);
    assert_eq!(&bytes[4..8], &[0xff, 0xf4, 0x00, 0x00]);
    let back = post::from_bytes(&bytes).unwrap();
    assert_eq!(back.glyphnames, None);
    assert_eq!(back.italicAngle, -0x000c0000);
    assert_eq!(back.underlinePosition, -75);
}

#[test]
fn post_names_roundtrip() {
    let names = vec![
        String::from(".notdef"),
        String::from("A"),
        String::from("a.sc"),
        String::from("ünï"),
        String::from("a.sc"),
    ];
    let mut table = post::new(0x00030000, 0, -100, 50, false, Some(names.clone()));
    table.set_version(POST_VERSION_2);
    let bytes = table.to_bytes();
    // Standard names are stored by index; others after 258, each time they occur.
    assert_eq!(&bytes[32..44], &[0x00, 0x05, 0x00, 0x00, 0x00, 0x24, 0x01, 0x02, 0x01, 0x03, 0x01, 0x04]);
    let back = post::from_bytes(&bytes).unwrap();
    assert_eq!(back.glyphnames, Some(names));
    assert_eq!(back, table);
}

#[test]
fn post_truncated() {
    let bytes = sample_post();
    assert!(post::from_bytes(&bytes[..31]).is_err());
    assert!(post::from_bytes(&bytes[..33]).is_err());
    // A stored name cut short.
    assert!(post::from_bytes(&bytes[..bytes.len() - 1]).is_err());
}
