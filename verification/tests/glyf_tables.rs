use fonttables::glyf::component::{
    Component, Transform, ARGS_ARE_XY_VALUES, ARG_1_AND_2_ARE_WORDS, MORE_COMPONENTS,
    ROUND_XY_TO_GRID,
};
use fonttables::glyf::glyph::{Glyph, Point};
use fonttables::glyf::table::{compile_glyf_loca, glyf};
use fonttables::loca;

fn pt(x: i16, y: i16, on_curve: bool) -> Point {
    Point { x, y, on_curve }
}

fn simple_glyph_bytes() -> Vec<u8> {
    vec![
        0x00, 0x02, // Two contours
        0x00, 0x14, // xMin
        0x00, 0x00, // yMin
        0x02, 0x37, // xMax
        0x01, 0x22, // yMax
        0x00, 0x02, // end of first
        0x00, 0x0e, // end of second
        0x00, 0x00, // No instructions
        0x33, 0x33, 0x27, 0x24, 0x36, 0x33, 0x32, 0x16, 0x15, 0x14, 0x06, 0x23, 0x22, 0x26,
        0x35, // flags
        0x14, 0xc8, 0x78, 0x01, 0x1e, 0x36, 0x25, 0x25, 0x35, 0x35, 0x25, 0x25, 0x36, 0xc8,
        0x25, 0x35, 0x35, 0x25, 0x25, 0x36, 0x36, 0x25,
    ]
}

fn simple_glyph() -> Glyph {
    Glyph {
        xMin: 20,
        xMax: 567,
        yMin: 0,
        yMax: 290,
        contours: vec![
            vec![pt(20, 0, true), pt(220, 0, true), pt(100, 200, true)],
            vec![
                pt(386, 237, false),
                pt(440, 290, false),
                pt(477, 290, true),
                pt(514, 290, false),
                pt(567, 237, false),
                pt(567, 200, true),
                pt(567, 163, false),
                pt(514, 109, false),
                pt(477, 109, true),
                pt(440, 109, false),
                pt(386, 163, false),
                pt(386, 200, true),
            ],
        ],
        instructions: vec![],
        components: vec![],
        overlap: false,
    }
}

#[test]
fn glyf_de() {
    let binary_glyf = simple_glyph_bytes();
    let deserialized = Glyph::from_bytes(&binary_glyf).unwrap();
    let glyph = simple_glyph();
    assert_eq!(deserialized, glyph);
    let serialized = glyph.to_bytes();
    assert_eq!(serialized, binary_glyf);
}

fn translate(x: i16, y: i16) -> Transform {
    Transform { x_scale: 0x4000, scale01: 0, scale10: 0, y_scale: 0x4000, translate_x: x, translate_y: y }
}

fn aacute_bytes() -> Vec<u8> {
    vec![
        0xff, 0xff, 0x00, 0x05, 0x00, 0x00, 0x02, 0xef, 0x03, 0x93, 0x00, 0x26, 0x00, 0x00,
        0x00, 0x00, 0x00, 0x07, 0x00, 0x07, 0x01, 0x92, 0x00, 0x82,
    ]
}

#[test]
fn composite_glyph_de_ser() {
    let aacute = Glyph::from_bytes(&aacute_bytes()).unwrap();
    assert_eq!((aacute.xMin, aacute.yMin, aacute.xMax, aacute.yMax), (5, 0, 751, 915));
    assert_eq!(
        aacute.components[0],
        Component {
            glyph_index: 0,
            transformation: Transform::identity(),
            match_points: None,
            flags: ROUND_XY_TO_GRID | ARGS_ARE_XY_VALUES | MORE_COMPONENTS,
        }
    );
    assert_eq!(
        aacute.components[1],
        Component {
            glyph_index: 7,
            transformation: translate(402, 130),
            match_points: None,
            flags: ROUND_XY_TO_GRID | ARGS_ARE_XY_VALUES | ARG_1_AND_2_ARE_WORDS,
        }
    );
    assert_eq!(aacute.to_bytes(), aacute_bytes());
    assert!(aacute.has_components());
}

fn empty() -> Glyph {
    Glyph {
        xMin: 0,
        xMax: 0,
        yMin: 0,
        yMax: 0,
        contours: vec![],
        instructions: vec![],
        components: vec![],
        overlap: false,
    }
}

#[test]
fn empty_glyph() {
    let g = empty();
    assert!(g.is_empty());
    assert_eq!(g.to_bytes(), Vec::<u8>::new());
    assert!(Glyph::from_bytes(&[]).is_err());
}

#[test]
fn test_insert_implicit_oncurves() {
    let mut glyph = Glyph {
        xMin: 30,
        xMax: 634,
        yMin: -10,
        yMax: 710,
        components: vec![],
        instructions: vec![],
        overlap: false,
        contours: vec![vec![
            pt(634, 650, true),
            pt(634, 160, false),
            pt(484, -10, false),
            pt(332, -10, true),
            pt(181, -10, false),
            pt(30, 169, false),
            pt(30, 350, true),
            pt(30, 531, false),
            pt(181, 710, false),
            pt(332, 710, true),
        ]],
    };
    glyph.insert_explicit_oncurves();
    assert_eq!(
        glyph.contours[0],
        vec![
            pt(634, 650, true),
            pt(634, 160, false),
            pt(559, 75, true),
            pt(484, -10, false),
            pt(332, -10, true),
            pt(181, -10, false),
            pt(105, 79, true),
            pt(30, 169, false),
            pt(30, 350, true),
            pt(30, 531, false),
            pt(105, 620, true),
            pt(181, 710, false),
            pt(332, 710, true)
        ]
    );
}

#[test]
fn recalc_bounds_of_outline() {
    let mut g = simple_glyph();
    g.xMin = 0;
    g.yMax = 0;
    g.recalc_bounds();
    assert_eq!((g.xMin, g.yMin, g.xMax, g.yMax), (20, 0, 567, 290));
    let mut composite = Glyph::from_bytes(&aacute_bytes()).unwrap();
    let before = composite.clone();
    composite.recalc_bounds();
    assert_eq!(composite, before);
}

#[test]
fn point_transform() {
    let t = Transform { x_scale: 0x2000, scale01: 0, scale10: 0x4000, y_scale: -0x4000, translate_x: 10, translate_y: -5 };
    // x' = 0.5·x + 1·y + 10, y' = -1·y - 5
    assert_eq!(pt(7, 3, false).transform(t), pt(16, -8, false));
    // -3.5 + 10 = 6.5 is truncated toward zero.
    assert_eq!(pt(-7, 0, true).transform(t), pt(6, -5, true));
}

#[test]
fn decompose_components() {
    let base = Glyph {
        xMin: 0,
        yMin: 0,
        xMax: 10,
        yMax: 10,
        contours: vec![vec![pt(0, 0, true), pt(10, 0, true), pt(10, 10, true)]],
        instructions: vec![],
        components: vec![],
        overlap: false,
    };
    let composite = Glyph {
        xMin: 0,
        yMin: 0,
        xMax: 0,
        yMax: 0,
        contours: vec![],
        instructions: vec![1, 2],
        components: vec![
            Component { glyph_index: 0, transformation: translate(100, 50), match_points: None, flags: 0 },
            Component { glyph_index: 9, transformation: Transform::identity(), match_points: None, flags: 0 },
        ],
        overlap: false,
    };
    let flat = composite.decompose(&[base]);
    assert!(flat.components.is_empty());
    assert!(flat.instructions.is_empty());
    assert_eq!(flat.contours, vec![vec![pt(100, 50, true), pt(110, 50, true), pt(110, 60, true)]]);
    assert_eq!((flat.xMin, flat.yMin, flat.xMax, flat.yMax), (100, 50, 110, 60));
}

#[test]
fn gvar_points_of_glyph() {
    let (coords, ends) = simple_glyph().gvar_coords_and_ends();
    assert_eq!(coords.len(), 15 + 4);
    assert_eq!(coords[0], (20, 0));
    assert_eq!(coords[14], (386, 200));
    assert_eq!(&coords[15..], &[(0, 0), (0, 0), (0, 0), (0, 0)]);
    assert_eq!(ends, vec![2, 14, 15, 16, 17, 18]);
    let composite = Glyph::from_bytes(&aacute_bytes()).unwrap();
    let (coords, ends) = composite.gvar_coords_and_ends();
    assert_eq!(coords, vec![(0, 0), (402, 130), (0, 0), (0, 0), (0, 0), (0, 0)]);
    assert_eq!(ends, vec![0, 1, 2, 3, 4, 5]);
    assert_eq!(*ends.last().unwrap() + 1, coords.len());
}

#[test]
fn glyph_end_points() {
    assert_eq!(simple_glyph().end_points(), vec![2, 14]);
    assert_eq!(simple_glyph().flat_points().len(), 15);
}

#[test]
fn compile_and_read_glyf_table() {
    let glyphs = vec![simple_glyph(), empty(), simple_glyph()];
    let (glyf_bytes, loca_bytes, is_32bit) = compile_glyf_loca(&glyphs);
    let one = simple_glyph_bytes();
    // Each glyph's data is padded to a multiple of four bytes.
    let padded = (one.len() + 3) / 4 * 4;
    assert_eq!(glyf_bytes.len(), 2 * padded);
    assert!(!is_32bit);
    let offsets = loca::from_bytes(&loca_bytes, is_32bit);
    assert_eq!(offsets.indices, vec![Some(0), None, Some(padded as u32)]);
    let table = glyf::from_bytes(&glyf_bytes, &offsets.indices).unwrap();
    assert_eq!(table.glyphs.len(), 3);
    assert_eq!(table.glyphs[0], simple_glyph());
    assert!(table.glyphs[1].is_empty());
    assert_eq!(table.glyphs[2], simple_glyph());
}

#[test]
fn point_matched_component_reads_its_scale() {
    let data = [0x00, 0x08, 0x00, 0x01, 0x01, 0x02, 0x40, 0x00];
    let (c, next) = Component::from_bytes(&data, 0).unwrap();
    assert_eq!(next, 8);
    assert_eq!(c.glyph_index, 1);
    assert_eq!(c.match_points, Some((1, 2)));
    assert_eq!(c.transformation.x_scale, 0x4000);
    assert_eq!(c.transformation.y_scale, 0x4000);
    assert_eq!((c.transformation.translate_x, c.transformation.translate_y), (0, 0));
}

#[test]
fn point_matched_component_with_every_matrix_flag_is_refused() {
    let data = [0x00, 0xC8, 0x00, 0x01, 0x01, 0x02, 0x40, 0x00, 0x00, 0x00, 0x00, 0x00, 0x40, 0x00];
    assert_eq!(Component::from_bytes(&data, 0).unwrap_err(), fonttables::binary::DeserializationError::BadFormat);
}

#[test]
fn composite_glyph_round_trip_recomputes_flags() {
    let placed = Component {
        glyph_index: 7,
        transformation: Transform { x_scale: 0x2000, scale01: 0, scale10: 0, y_scale: 0x2000, translate_x: 300, translate_y: -5 },
        match_points: None,
        flags: MORE_COMPONENTS | ROUND_XY_TO_GRID,
    };
    let matched = Component {
        glyph_index: 9,
        transformation: Transform { x_scale: 0x4000, scale01: 0, scale10: 0, y_scale: 0x3000, translate_x: 12, translate_y: 34 },
        match_points: Some((3, 400)),
        flags: 0,
    };
    let glyph = Glyph {
        xMin: -1,
        yMin: -2,
        xMax: 3,
        yMax: 4,
        contours: vec![],
        instructions: vec![0xB0, 0x01],
        components: vec![placed, matched],
        overlap: false,
    };
    let back = Glyph::from_bytes(&glyph.to_bytes()).unwrap();
    assert_eq!((back.xMin, back.yMin, back.xMax, back.yMax), (-1, -2, 3, 4));
    assert_eq!(back.instructions, vec![0xB0, 0x01]);
    assert_eq!(back.components.len(), 2);
    assert_eq!(back.components[0].flags, placed.recompute_flags(true, true));
    assert_eq!(back.components[0].transformation, placed.transformation);
    assert_eq!(back.components[1].flags, matched.recompute_flags(false, true));
    assert_eq!(back.components[1].match_points, Some((3, 400)));
    assert_eq!(back.components[1].transformation.x_scale, 0x4000);
    assert_eq!(back.components[1].transformation.y_scale, 0x3000);
    assert_eq!((back.components[1].transformation.translate_x, back.components[1].transformation.translate_y), (0, 0));
}
