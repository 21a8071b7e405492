use fonttables::glyf::component::{Component, Transform, ARGS_ARE_XY_VALUES, ARG_1_AND_2_ARE_WORDS, MORE_COMPONENTS, ROUND_XY_TO_GRID};
use fonttables::glyf::glyph::{Glyph, Point};
use fonttables::binary::DeserializationError;
use fonttables::table_store::{
    CowPtr, LoadedTable, TableLoader, TableSet, TAG_CMAP, TAG_GLYF, TAG_GPOS, TAG_GSUB, TAG_GVAR, TAG_HEAD, TAG_HHEA, TAG_LOCA,
    TAG_MAXP, TAG_POST,
};

/// The tables of a font file, read from its table directory.
fn load_font(data: &[u8]) -> TableSet {
    let num_tables = u16::from_be_bytes([data[4], data[5]]) as usize;
    let mut loader = TableLoader::new();
    for i in 0..num_tables {
        let rec = 12 + 16 * i;
        let tag = u32::from_be_bytes([data[rec], data[rec + 1], data[rec + 2], data[rec + 3]]);
        let offset = u32::from_be_bytes([data[rec + 8], data[rec + 9], data[rec + 10], data[rec + 11]]) as usize;
        let length = u32::from_be_bytes([data[rec + 12], data[rec + 13], data[rec + 14], data[rec + 15]]) as usize;
        loader.add(tag, data[offset..offset + length].to_vec());
    }
    loader.finish().unwrap()
}

fn glyphs_of(tables: &mut TableSet) -> Vec<Glyph> {
    let table = tables.get(TAG_GLYF).unwrap().unwrap();
    match table.loaded() {
        LoadedTable::glyf(g) => g.glyphs.clone(),
        _ => panic!("not a glyf table"),
    }
}

fn pt(x: i16, y: i16, on_curve: bool) -> Point {
    Point { x, y, on_curve }
}

fn two_axis_font() -> Vec<u8> {
    vec![
    0x00, 0x01, 0x00, 0x00, 0x00, 0x0a, 0x00, 0x80, 0x00, 0x03, 0x00, 0x20, 0x4f, 0x53,
    0x2f, 0x32, 0x47, 0x36, 0x45, 0x90, 0x00, 0x00, 0x01, 0x28, 0x00, 0x00, 0x00, 0x60,
    0x63, 0x6d, 0x61, 0x70, 0x01, 0x5c, 0x04, 0x51, 0x00, 0x00, 0x01, 0xa8, 0x00, 0x00,
    0x00, 0x64, 0x67, 0x6c, 0x79, 0x66, 0x01, 0x73, 0xbf, 0xf8, 0x00, 0x00, 0x02, 0x20,
    0x00, 0x00, 0x02, 0x1e, 0x68, 0x65, 0x61, 0x64, 0x1a, 0x46, 0x65, 0x4f, 0x00, 0x00,
    0x00, 0xac, 0x00, 0x00, 0x00, 0x36, 0x68, 0x68, 0x65, 0x61, 0x05, 0x85, 0x01, 0xc2,
    0x00, 0x00, 0x00, 0xe4, 0x00, 0x00, 0x00, 0x24, 0x68, 0x6d, 0x74, 0x78, 0x10, 0xf6,
    0xff, 0xda, 0x00, 0x00, 0x01, 0x88, 0x00, 0x00, 0x00, 0x20, 0x6c, 0x6f, 0x63, 0x61,
    0x02, 0x55, 0x01, 0xd6, 0x00, 0x00, 0x02, 0x0c, 0x00, 0x00, 0x00, 0x12, 0x6d, 0x61,
    0x78, 0x70, 0x00, 0x12, 0x00, 0x47, 0x00, 0x00, 0x01, 0x08, 0x00, 0x00, 0x00, 0x20,
    0x6e, 0x61, 0x6d, 0x65, 0xff, 0x72, 0x0d, 0x88, 0x00, 0x00, 0x04, 0x40, 0x00, 0x00,
    0x00, 0xb4, 0x70, 0x6f, 0x73, 0x74, 0x16, 0xf9, 0xc6, 0xb7, 0x00, 0x00, 0x04, 0xf4,
    0x00, 0x00, 0x00, 0x48, 0x00, 0x01, 0x00, 0x00, 0x00, 0x01, 0x00, 0x00, 0x7e, 0x62,
    0x06, 0x11, 0x5f, 0x0f, 0x3c, 0xf5, 0x00, 0x03, 0x03, 0xe8, 0x00, 0x00, 0x00, 0x00,
    0xdc, 0x27, 0x59, 0x19, 0x00, 0x00, 0x00, 0x00, 0xdc, 0xa5, 0xc8, 0x08, 0xff, 0x73,
    0xff, 0xb4, 0x02, 0xef, 0x03, 0x93, 0x00, 0x00, 0x00, 0x0a, 0x00, 0x02, 0x00, 0x00,
    0x00, 0x00, 0x00, 0x00, 0x00, 0x01, 0x00, 0x00, 0x03, 0x20, 0xff, 0x38, 0x00, 0x00,
    0x02, 0xf4, 0xff, 0x73, 0xff, 0x8d, 0x02, 0xef, 0x00, 0x01, 0x00, 0x00, 0x00, 0x00,
    0x00, 0x00, 0x00, 0x00, 0x00, 0x00, 0x00, 0x00, 0x00, 0x00, 0x00, 0x08, 0x00, 0x01,
    0x00, 0x00, 0x00, 0x08, 0x00, 0x34, 0x00, 0x03, 0x00, 0x10, 0x00, 0x04, 0x00, 0x02,
    0x00, 0x00, 0x00, 0x00, 0x00, 0x00, 0x00, 0x00, 0x00, 0x00, 0x00, 0x00, 0x00, 0x02,
    0x00, 0x01, 0x00, 0x03, 0x02, 0x1f, 0x01, 0x90, 0x00, 0x05, 0x00, 0x04, 0x00, 0x00,
    0x00, 0x00, 0x00, 0x00, 0x00, 0x00, 0x00, 0x00, 0x00, 0x00, 0x00, 0x00, 0x00, 0x00,
    0x00, 0x00, 0x00, 0x00, 0x00, 0x00, 0x00, 0x00, 0x00, 0x00, 0x00, 0x00, 0x00, 0x00,
    0x00, 0x00, 0x00, 0x00, 0x00, 0x43, 0x00, 0x00, 0x00, 0x00, 0x00, 0x00, 0x00, 0x00,
    0x00, 0x00, 0x00, 0x00, 0x3f, 0x3f, 0x3f, 0x3f, 0x00, 0x00, 0x00, 0x20, 0x03, 0x01,
    0x03, 0x20, 0xff, 0x38, 0x00, 0x00, 0x00, 0x00, 0x00, 0x00, 0x00, 0x00, 0x00, 0x00,
    0x00, 0x00, 0x00, 0x00, 0x01, 0xf4, 0x02, 0xbc, 0x00, 0x00, 0x00, 0x20, 0x00, 0x00,
    0x02, 0xf4, 0x00, 0x05, 0x02, 0xf4, 0x00, 0x05, 0x02, 0x98, 0x00, 0x1e, 0x02, 0xf4,
    0x00, 0x05, 0x00, 0xc8, 0x00, 0x00, 0x02, 0x58, 0x00, 0x1d, 0x02, 0x58, 0x00, 0x1d,
    0x00, 0x0a, 0xff, 0x73, 0x00, 0x00, 0x00, 0x02, 0x00, 0x00, 0x00, 0x03, 0x00, 0x00,
    0x00, 0x14, 0x00, 0x03, 0x00, 0x01, 0x00, 0x00, 0x00, 0x14, 0x00, 0x04, 0x00, 0x50,
    0x00, 0x00, 0x00, 0x10, 0x00, 0x10, 0x00, 0x03, 0x00, 0x00, 0x00, 0x20, 0x00, 0x24,
    0x00, 0x41, 0x00, 0x4f, 0x00, 0x56, 0x00, 0xc1, 0x03, 0x01, 0xff, 0xff, 0x00, 0x00,
    0x00, 0x20, 0x00, 0x24, 0x00, 0x41, 0x00, 0x4f, 0x00, 0x56, 0x00, 0xc1, 0x03, 0x01,
    0xff, 0xff, 0xff, 0xe4, 0xff, 0xe1, 0xff, 0xbf, 0xff, 0xb3, 0xff, 0xad, 0xff, 0x40,
    0xfd, 0x06, 0x00, 0x01, 0x00, 0x00, 0x00, 0x00, 0x00, 0x00, 0x00, 0x00, 0x00, 0x00,
    0x00, 0x00, 0x00, 0x00, 0x00, 0x00, 0x00, 0x00, 0x00, 0x1e, 0x00, 0x2a, 0x00, 0x51,
    0x00, 0x66, 0x00, 0x66, 0x00, 0xb6, 0x01, 0x01, 0x01, 0x0f, 0x00, 0x00, 0x00, 0x03,
    0x00, 0x05, 0x00, 0x00, 0x02, 0xef, 0x02, 0xbc, 0x00, 0x03, 0x00, 0x07, 0x00, 0x0b,
    0x00, 0x00, 0x01, 0x01, 0x33, 0x01, 0x23, 0x01, 0x33, 0x01, 0x13, 0x35, 0x21, 0x15,
    0x01, 0x43, 0x01, 0x3e, 0x6e, 0xfe, 0xc2, 0x6e, 0xfe, 0xc2, 0x6e, 0x01, 0x3e, 0x86,
    0xfe, 0x61, 0x02, 0xbc, 0xfd, 0x44, 0x02, 0xbc, 0xfd, 0x44, 0x02, 0xbc, 0xfe, 0x10,
    0x50, 0x50, 0xff, 0xff, 0x00, 0x05, 0x00, 0x00, 0x02, 0xef, 0x03, 0x93, 0x00, 0x26,
    0x00, 0x00, 0x00, 0x00, 0x00, 0x07, 0x00, 0x07, 0x01, 0x92, 0x00, 0x82, 0x00, 0x02,
    0x00, 0x1e, 0xff, 0xf6, 0x02, 0x7a, 0x02, 0xc6, 0x00, 0x0b, 0x00, 0x17, 0x00, 0x00,
    0x01, 0x14, 0x06, 0x23, 0x22, 0x26, 0x35, 0x34, 0x36, 0x33, 0x32, 0x16, 0x05, 0x14,
    0x16, 0x33, 0x32, 0x36, 0x35, 0x34, 0x26, 0x23, 0x22, 0x06, 0x02, 0x7a, 0x96, 0x98,
    0x97, 0x97, 0x97, 0x97, 0x98, 0x96, 0xfd, 0xfe, 0x6a, 0x6a, 0x6a, 0x6a, 0x6a, 0x6a,
    0x6a, 0x6a, 0x01, 0x5e, 0xb5, 0xb3, 0xb3, 0xb5, 0xb5, 0xb3, 0xb3, 0xb5, 0x8a, 0x8a,
    0x8a, 0x8a, 0x8a, 0x8a, 0x8a, 0x00, 0x00, 0x02, 0x00, 0x05, 0x00, 0x00, 0x02, 0xef,
    0x02, 0xbc, 0x00, 0x03, 0x00, 0x07, 0x00, 0x00, 0x21, 0x23, 0x01, 0x33, 0x01, 0x23,
    0x01, 0x33, 0x01, 0xb1, 0x6e, 0x01, 0x3e, 0x6e, 0xfe, 0xc2, 0x6e, 0xfe, 0xc2, 0x6e,
    0x02, 0xbc, 0xfd, 0x44, 0x02, 0xbc, 0x00, 0x03, 0x00, 0x1d, 0xff, 0xbc, 0x02, 0x44,
    0x02, 0xf7, 0x00, 0x23, 0x00, 0x2b, 0x00, 0x33, 0x00, 0x00, 0x01, 0x35, 0x33, 0x15,
    0x16, 0x16, 0x17, 0x07, 0x26, 0x26, 0x27, 0x15, 0x16, 0x16, 0x15, 0x14, 0x06, 0x07,
    0x15, 0x23, 0x35, 0x26, 0x26, 0x27, 0x37, 0x16, 0x16, 0x17, 0x35, 0x27, 0x26, 0x26,
    0x35, 0x34, 0x36, 0x36, 0x17, 0x06, 0x06, 0x15, 0x14, 0x16, 0x16, 0x17, 0x17, 0x15,
    0x36, 0x36, 0x35, 0x34, 0x26, 0x26, 0x01, 0x08, 0x5a, 0x3d, 0x68, 0x2b, 0x35, 0x24,
    0x4b, 0x2c, 0x71, 0x71, 0x79, 0x69, 0x5a, 0x48, 0x78, 0x2b, 0x34, 0x2a, 0x54, 0x39,
    0x0f, 0x65, 0x69, 0x38, 0x64, 0x41, 0x3d, 0x42, 0x17, 0x36, 0x2f, 0x5d, 0x45, 0x3f,
    0x18, 0x39, 0x02, 0xcb, 0x2c, 0x2c, 0x06, 0x2f, 0x2a, 0x48, 0x24, 0x25, 0x06, 0xfe,
    0x16, 0x58, 0x4f, 0x52, 0x6e, 0x0a, 0x32, 0x32, 0x06, 0x2e, 0x28, 0x48, 0x24, 0x25,
    0x04, 0xe8, 0x03, 0x13, 0x61, 0x52, 0x39, 0x5b, 0x39, 0x50, 0x09, 0x41, 0x33, 0x20,
    0x2a, 0x1a, 0x0a, 0x6b, 0xd8, 0x07, 0x3b, 0x30, 0x1c, 0x27, 0x19, 0x00, 0x00, 0x01,
    0x00, 0x1d, 0xff, 0xb4, 0x02, 0x44, 0x02, 0xf7, 0x00, 0x32, 0x00, 0x00, 0x01, 0x35,
    0x33, 0x15, 0x16, 0x16, 0x17, 0x07, 0x26, 0x26, 0x23, 0x22, 0x06, 0x15, 0x14, 0x16,
    0x16, 0x17, 0x17, 0x16, 0x16, 0x15, 0x14, 0x06, 0x06, 0x07, 0x15, 0x23, 0x35, 0x26,
    0x26, 0x27, 0x37, 0x1e, 0x02, 0x33, 0x32, 0x36, 0x35, 0x34, 0x26, 0x26, 0x27, 0x27,
    0x26, 0x26, 0x35, 0x34, 0x36, 0x36, 0x01, 0x08, 0x5a, 0x3d, 0x68, 0x2b, 0x35, 0x2d,
    0x5e, 0x3e, 0x52, 0x59, 0x17, 0x36, 0x2f, 0x63, 0x6d, 0x6f, 0x37, 0x65, 0x46, 0x5a,
    0x48, 0x78, 0x2b, 0x34, 0x22, 0x41, 0x4f, 0x33, 0x5d, 0x53, 0x19, 0x3c, 0x35, 0x63,
    0x65, 0x69, 0x38, 0x64, 0x02, 0xcb, 0x2c, 0x2c, 0x06, 0x2f, 0x2a, 0x48, 0x2c, 0x26,
    0x44, 0x3c, 0x20, 0x2a, 0x1a, 0x0a, 0x14, 0x16, 0x57, 0x4f, 0x36, 0x57, 0x36, 0x07,
    0x3a, 0x3a, 0x06, 0x2e, 0x28, 0x48, 0x1c, 0x23, 0x10, 0x3d, 0x37, 0x1d, 0x27, 0x1a,
    0x09, 0x12, 0x13, 0x61, 0x52, 0x39, 0x5b, 0x39, 0x00, 0x01, 0xff, 0x73, 0x02, 0x76,
    0x00, 0x7d, 0x03, 0x11, 0x00, 0x03, 0x00, 0x00, 0x13, 0x07, 0x07, 0x37, 0x7d, 0xf3,
    0x17, 0xf3, 0x03, 0x11, 0x45, 0x56, 0x45, 0x00, 0x00, 0x00, 0x00, 0x00, 0x00, 0x08,
    0x00, 0x66, 0x00, 0x01, 0x00, 0x00, 0x00, 0x00, 0x00, 0x01, 0x00, 0x0f, 0x00, 0x00,
    0x00, 0x01, 0x00, 0x00, 0x00, 0x00, 0x00, 0x10, 0x00, 0x0f, 0x00, 0x00, 0x00, 0x01,
    0x00, 0x00, 0x00, 0x00, 0x01, 0x00, 0x00, 0x06, 0x00, 0x0f, 0x00, 0x01, 0x00, 0x00,
    0x00, 0x00, 0x01, 0x01, 0x00, 0x05, 0x00, 0x15, 0x00, 0x03, 0x00, 0x01, 0x04, 0x09,
    0x00, 0x01, 0x00, 0x1e, 0x00, 0x1a, 0x00, 0x03, 0x00, 0x01, 0x04, 0x09, 0x00, 0x10,
    0x00, 0x1e, 0x00, 0x1a, 0x00, 0x03, 0x00, 0x01, 0x04, 0x09, 0x01, 0x00, 0x00, 0x0c,
    0x00, 0x38, 0x00, 0x03, 0x00, 0x01, 0x04, 0x09, 0x01, 0x01, 0x00, 0x0a, 0x00, 0x44,
    0x53, 0x69, 0x6d, 0x70, 0x6c, 0x65, 0x20, 0x54, 0x77, 0x6f, 0x20, 0x41, 0x78, 0x69,
    0x73, 0x57, 0x65, 0x69, 0x67, 0x68, 0x74, 0x53, 0x6c, 0x61, 0x6e, 0x74, 0x00, 0x53,
    0x00, 0x69, 0x00, 0x6d, 0x00, 0x70, 0x00, 0x6c, 0x00, 0x65, 0x00, 0x20, 0x00, 0x54,
    0x00, 0x77, 0x00, 0x6f, 0x00, 0x20, 0x00, 0x41, 0x00, 0x78, 0x00, 0x69, 0x00, 0x73,
    0x00, 0x57, 0x00, 0x65, 0x00, 0x69, 0x00, 0x67, 0x00, 0x68, 0x00, 0x74, 0x00, 0x53,
    0x00, 0x6c, 0x00, 0x61, 0x00, 0x6e, 0x00, 0x74, 0x00, 0x02, 0x00, 0x00, 0x00, 0x00,
    0x00, 0x00, 0x00, 0x00, 0x00, 0x00, 0x00, 0x00, 0x00, 0x00, 0x00, 0x00, 0x00, 0x00,
    0x00, 0x00, 0x00, 0x00, 0x00, 0x00, 0x00, 0x00, 0x00, 0x00, 0x00, 0x00, 0x00, 0x08,
    0x00, 0x24, 0x00, 0xc9, 0x00, 0x32, 0x00, 0x39, 0x00, 0x03, 0x00, 0x07, 0x01, 0x02,
    0x01, 0x03, 0x0b, 0x64, 0x6f, 0x6c, 0x6c, 0x61, 0x72, 0x2e, 0x62, 0x6f, 0x6c, 0x64,
    0x09, 0x61, 0x63, 0x75, 0x74, 0x65, 0x63, 0x6f, 0x6d, 0x62,
]
}

#[test]
fn test_glyf_de() {
    let mut tables = load_font(&two_axis_font());
    tables.fully_deserialize().unwrap();
    let glyphs = glyphs_of(&mut tables);
    let a = &glyphs[0];
    assert_eq!(
        a,
        &Glyph {
            xMin: 5,
            yMin: 0,
            xMax: 751,
            yMax: 700,
            contours: vec![
                vec![pt(323, 700, true), pt(641, 0, true), pt(751, 0, true), pt(433, 700, true)],
                vec![pt(323, 700, true), pt(5, 0, true), pt(115, 0, true), pt(433, 700, true)],
                vec![pt(567, 204, true), pt(567, 284, true), pt(152, 284, true), pt(152, 204, true)],
            ],
            components: vec![],
            instructions: vec![],
            overlap: false, // There is, though.
        }
    );
    let aacute = &glyphs[1];
    assert_eq!(
        aacute.components[0],
        Component {
            glyph_index: 0,
            transformation: Transform::identity(),
            match_points: None,
            flags: ROUND_XY_TO_GRID | ARGS_ARE_XY_VALUES | MORE_COMPONENTS,
        }
    );
    assert_eq!(
        aacute.components[1],
        Component {
            glyph_index: 7,
            transformation: Transform {
                x_scale: 0x4000,
                scale01: 0,
                scale10: 0,
                y_scale: 0x4000,
                translate_x: 402,
                translate_y: 130,
            },
            match_points: None,
            flags: ROUND_XY_TO_GRID | ARGS_ARE_XY_VALUES | ARG_1_AND_2_ARE_WORDS,
        }
    );
    let component1_bytes = aacute.to_bytes();
    let rede = Glyph::from_bytes(&component1_bytes).unwrap();
    assert_eq!(&rede, aacute);
    assert_eq!(
        component1_bytes,
        vec![
            0xff, 0xff, 0x00, 0x05, 0x00, 0x00, 0x02, 0xef, 0x03, 0x93, 0x00, 0x26, 0x00, 0x00,
            0x00, 0x00, 0x00, 0x07, 0x00, 0x07, 0x01, 0x92, 0x00, 0x82
        ]
    );
    assert!(glyphs[4].is_empty());
    let dollarbold = &glyphs[6];
    assert_eq!(dollarbold.xMin, 29);
    assert_eq!(dollarbold.yMin, -76);
    assert_eq!(dollarbold.xMax, 580);
    assert_eq!(dollarbold.yMax, 759);
    let firstpoint = dollarbold.contours[0][0];
    assert_eq!(firstpoint, pt(264, 715, true));
}

#[test]
fn test_glyf_component() {
    let binary_font = vec![
    0x00, 0x01, 0x00, 0x00, 0x00, 0x06, 0x00, 0x40, 0x00, 0x02, 0x00, 0x20, 0x63, 0x6d,
    0x61, 0x70, 0x00, 0x0c, 0x06, 0xc2, 0x00, 0x00, 0x01, 0x84, 0x00, 0x00, 0x00, 0x34,
    0x67, 0x6c, 0x79, 0x66, 0xc5, 0x94, 0x78, 0xca, 0x00, 0x00, 0x00, 0x6c, 0x00, 0x00,
    0x00, 0x94, 0x68, 0x65, 0x61, 0x64, 0x28, 0xd0, 0x20, 0xfc, 0x00, 0x00, 0x01, 0x28,
    0x00, 0x00, 0x00, 0x36, 0x68, 0x68, 0x65, 0x61, 0x12, 0x54, 0x0f, 0x44, 0x00, 0x00,
    0x01, 0x60, 0x00, 0x00, 0x00, 0x24, 0x6c, 0x6f, 0x63, 0x61, 0x00, 0x4a, 0x00, 0x08,
    0x00, 0x00, 0x01, 0x20, 0x00, 0x00, 0x00, 0x06, 0x6d, 0x61, 0x78, 0x70, 0x00, 0x29,
    0x03, 0x0d, 0x00, 0x00, 0x01, 0x00, 0x00, 0x00, 0x00, 0x20, 0xff, 0xff, 0x00, 0x32,
    0xfe, 0x45, 0x02, 0xd2, 0x01, 0xd6, 0x02, 0x06, 0x00, 0x01, 0x00, 0xfe, 0x00, 0x01,
    0x00, 0x32, 0xfe, 0x47, 0x02, 0xd2, 0x01, 0xd8, 0x00, 0x2c, 0x00, 0x00, 0x01, 0x22,
    0x26, 0x26, 0x35, 0x34, 0x36, 0x37, 0x17, 0x06, 0x06, 0x15, 0x14, 0x16, 0x33, 0x32,
    0x3e, 0x03, 0x35, 0x34, 0x26, 0x27, 0x06, 0x06, 0x23, 0x22, 0x26, 0x35, 0x37, 0x36,
    0x36, 0x33, 0x32, 0x1e, 0x02, 0x15, 0x14, 0x06, 0x07, 0x0e, 0x02, 0x01, 0x19, 0x4c,
    0x67, 0x34, 0x3f, 0x2e, 0x1c, 0x20, 0x34, 0x6e, 0x67, 0x4e, 0x78, 0x56, 0x37, 0x1a,
    0x11, 0x14, 0x10, 0x2b, 0x11, 0x19, 0x2f, 0x36, 0x0b, 0x1a, 0x0a, 0x27, 0x31, 0x1b,
    0x0a, 0x3b, 0x37, 0x23, 0x63, 0x7a, 0xfe, 0x47, 0x4a, 0x7f, 0x4f, 0x62, 0xcd, 0x5e,
    0x0d, 0x4d, 0x98, 0x56, 0x5b, 0x6a, 0x36, 0x5a, 0x6e, 0x74, 0x33, 0x22, 0x40, 0x1b,
    0x12, 0x0f, 0x20, 0x2e, 0x99, 0x09, 0x08, 0x33, 0x52, 0x5e, 0x2b, 0x77, 0xe0, 0x5b,
    0x3b, 0x5f, 0x37, 0x00, 0x00, 0x01, 0x00, 0x00, 0x00, 0x02, 0x02, 0x34, 0x00, 0x13,
    0x00, 0xd7, 0x00, 0x0e, 0x00, 0x01, 0x00, 0x00, 0x00, 0x00, 0x00, 0x00, 0x00, 0x00,
    0x00, 0x00, 0x00, 0x00, 0x00, 0x05, 0x00, 0x01, 0x00, 0x00, 0x00, 0x08, 0x00, 0x4a,
    0x00, 0x00, 0x00, 0x01, 0x00, 0x00, 0x00, 0x01, 0x00, 0x00, 0x39, 0xbf, 0xc4, 0x4c,
    0x5f, 0x0f, 0x3c, 0xf5, 0x00, 0x03, 0x03, 0xe8, 0x00, 0x00, 0x00, 0x00, 0xdd, 0x29,
    0x99, 0xed, 0x00, 0x00, 0x00, 0x00, 0xdd, 0x5e, 0x45, 0xd1, 0xfe, 0xf1, 0xfa, 0xcb,
    0x10, 0x40, 0x05, 0x90, 0x00, 0x00, 0x00, 0x06, 0x00, 0x02, 0x00, 0x00, 0x00, 0x00,
    0x00, 0x00, 0x00, 0x01, 0x00, 0x00, 0x03, 0x20, 0xfc, 0xe0, 0x00, 0x00, 0x10, 0x96,
    0xfe, 0xf1, 0xfd, 0xb9, 0x10, 0x40, 0x00, 0x01, 0x00, 0x00, 0x00, 0x00, 0x00, 0x00,
    0x00, 0x00, 0x00, 0x00, 0x00, 0x00, 0x00, 0x00, 0x04, 0x14, 0x00, 0x00, 0x00, 0x02,
    0x00, 0x00, 0x00, 0x03, 0x00, 0x00, 0x00, 0x14, 0x00, 0x03, 0x00, 0x01, 0x00, 0x00,
    0x00, 0x14, 0x00, 0x04, 0x00, 0x20, 0x00, 0x00, 0x00, 0x04, 0x00, 0x04, 0x00, 0x01,
    0x00, 0x00, 0x06, 0x6f, 0xff, 0xff, 0x00, 0x00, 0x06, 0x6f, 0xff, 0xff, 0xf9, 0x92,
    0x00, 0x01, 0x00, 0x00, 0x00, 0x00,
];
    let mut tables = load_font(&binary_font);
    tables.fully_deserialize().unwrap();
    let glyphs = glyphs_of(&mut tables);
    assert_eq!(
        glyphs[0].components[0].transformation,
        Transform {
            x_scale: 0x4000,
            scale01: 0,
            scale10: 0,
            y_scale: 0x4000,
            translate_x: 0,
            translate_y: -2, // Not 254
        }
    );
}

#[test]
fn loader_reads_head_and_loca() {
    let mut tables = load_font(&two_axis_font());
    assert!(tables.contains(&TAG_HEAD));
    assert!(tables.contains(&TAG_LOCA));
    assert_eq!(tables.len(), 10);
    let keys = tables.keys();
    assert!(keys.windows(2).all(|w| w[0] < w[1]));
    match tables.get(TAG_HEAD).unwrap().unwrap().loaded() {
        LoadedTable::head(h) => assert_eq!(h.unitsPerEm, 1000),
        _ => panic!("not a head table"),
    }
}

#[test]
fn compile_glyf_loca_maxp_rewrites_tables() {
    let mut tables = load_font(&two_axis_font());
    tables.fully_deserialize().unwrap();
    let glyphs = glyphs_of(&mut tables);
    let mut original_loca = vec![];
    tables.write_table(TAG_LOCA, &mut original_loca);
    let mut original_glyf = vec![];
    tables.write_table(TAG_GLYF, &mut original_glyf);
    // Nothing to do while glyf, loca and maxp are as they were read.
    tables.compile_glyf_loca_maxp();
    let mut after = vec![];
    tables.write_table(TAG_GLYF, &mut after);
    assert_eq!(after, original_glyf);
    // Replace maxp by a typed copy: now the glyphs are written again.
    let maxp = match tables.get(TAG_MAXP).unwrap().unwrap().loaded() {
        LoadedTable::maxp(m) => **m,
        _ => panic!("not a maxp table"),
    };
    tables.insert(fonttables::table_store::Table::from_loaded(LoadedTable::maxp(std::rc::Rc::new(maxp))));
    tables.compile_glyf_loca_maxp();
    assert_eq!(glyphs_of(&mut tables), glyphs);
    let mut head_bytes = vec![];
    tables.write_table(TAG_HEAD, &mut head_bytes);
    assert_eq!(head_bytes.len(), 54);
    // Short offsets.
    assert_eq!(&head_bytes[50..52], &[0x00, 0x00]);
    let mut hhea_bytes = vec![];
    tables.write_table(TAG_HHEA, &mut hhea_bytes);
    assert_eq!(hhea_bytes.len(), 36);
}

#[test]
fn get_keeps_the_table_it_reads() {
    let mut tables = load_font(&two_axis_font());
    // hhea is still held as bytes: removing it gives nothing back.
    let mut untouched = load_font(&two_axis_font());
    assert!(untouched.remove(TAG_HHEA).is_none());
    let read = tables.get(TAG_HHEA).unwrap().unwrap();
    let kept = tables.remove(TAG_HHEA).unwrap();
    assert_eq!(kept.tag(), TAG_HHEA);
    match (read.loaded(), kept.loaded()) {
        (LoadedTable::hhea(a), LoadedTable::hhea(b)) => assert_eq!(**a, **b),
        _ => panic!("not an hhea table"),
    }
    assert_eq!(tables.len(), 9);
}

#[test]
fn table_set_reads_cmap_and_post() {
    let mut tables = load_font(&two_axis_font());
    match tables.get(TAG_CMAP).unwrap().unwrap().loaded() {
        LoadedTable::cmap(c) => assert!(!c.subtables.is_empty()),
        _ => panic!("not a cmap table"),
    }
    match tables.get(TAG_POST).unwrap().unwrap().loaded() {
        LoadedTable::post(_) => {}
        _ => panic!("not a post table"),
    }
    // A table this library has no reader for stays as bytes.
    match tables.get(0x6e616d65).unwrap().unwrap().loaded() {
        LoadedTable::Unknown(d) => assert!(!d.is_empty()),
        _ => panic!("name should stay as bytes"),
    }
}

#[test]
fn layout_and_variation_tables_need_their_companions() {
    let mut empty = TableSet::new();
    empty.insert_raw(TAG_GPOS, vec![0, 1, 0, 0]);
    empty.insert_raw(TAG_GSUB, vec![0, 1, 0, 0]);
    empty.insert_raw(TAG_GVAR, vec![0, 1, 0, 0]);
    assert_eq!(empty.get(TAG_GPOS).unwrap_err(), DeserializationError::Missing);
    assert_eq!(empty.get(TAG_GSUB).unwrap_err(), DeserializationError::Missing);
    assert_eq!(empty.get(TAG_GVAR).unwrap_err(), DeserializationError::Missing);
    let mut tables = load_font(&two_axis_font());
    tables.insert_raw(TAG_GPOS, vec![0, 1, 0, 0]);
    tables.insert_raw(TAG_GVAR, vec![0, 1, 0, 0]);
    match tables.get(TAG_GPOS).unwrap().unwrap().loaded() {
        LoadedTable::Unknown(d) => assert_eq!(**d, vec![0, 1, 0, 0]),
        _ => panic!("GPOS should stay as bytes"),
    }
    match tables.get(TAG_GVAR).unwrap().unwrap().loaded() {
        LoadedTable::Unknown(d) => assert_eq!(**d, vec![0, 1, 0, 0]),
        _ => panic!("gvar should stay as bytes"),
    }
}

#[test]
fn an_unknown_table_goes_back_under_its_tag() {
    let mut tables = load_font(&two_axis_font());
    let name = tables.get(0x6e616d65).unwrap().unwrap();
    let count = tables.len();
    tables.insert(name);
    assert_eq!(tables.len(), count);
    assert!(tables.contains(&0x6e616d65));
}

#[test]
fn cow_pointers_share_until_changed() {
    let a = CowPtr::new(5u32);
    let mut b = a.clone();
    assert!(a.ptr_eq(&a));
    assert!(a.ptr_eq(&b));
    assert!(b.ptr_eq(&a));
    *b.make_mut() = 6;
    assert!(!a.ptr_eq(&b));
    assert_eq!(*a.get(), 5);
    assert_eq!(*b.get(), 6);
    let c = CowPtr::new(5u32);
    assert!(!a.ptr_eq(&c));
    assert_eq!(c.into_owned(), 5);
}

#[test]
fn table_set_reads_os2() {
    let mut tables = load_font(&two_axis_font());
    match tables.get(0x4f532f32).unwrap().unwrap().loaded() {
        LoadedTable::os2(t) => {
            let bytes = t.to_bytes();
            assert_eq!(**t, fonttables::os2::os2::from_bytes(&bytes).unwrap());
            assert!(t.version <= 5);
        }
        _ => panic!("not an OS/2 table"),
    }
}
