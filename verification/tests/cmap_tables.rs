use fonttables::cmap::{cmap, cmap0, cmap4, get_search_range, is_contiguous_list, split_range, CmapSubtable};
use std::collections::BTreeMap;

fn mapping(pairs: &[(u32, u16)]) -> BTreeMap<u32, u16> {
    pairs.iter().cloned().collect()
}

fn two_subtables() -> cmap {
    cmap {
        subtables: vec![
            CmapSubtable {
                format: 4,
                platformID: 0,
                encodingID: 3,
                languageID: 0,
                mapping: mapping(&[(32, 1), (160, 1), (65, 2)]),
            },
            CmapSubtable {
                format: 4,
                platformID: 3,
                encodingID: 1,
                languageID: 0,
                mapping: mapping(&[(32, 1), (160, 1), (65, 2)]),
            },
        ],
    }
}

fn two_subtables_bytes() -> Vec<u8> {
    vec![
        0x00, 0x00, 0x00, 0x02, 0x00, 0x00, 0x00, 0x03, 0x00, 0x00, 0x00, 0x14, 0x00, 0x03,
        0x00, 0x01, 0x00, 0x00, 0x00, 0x14, 0x00, 0x04, 0x00, 0x30, 0x00, 0x00, 0x00, 0x08,
        0x00, 0x08, 0x00, 0x02, 0x00, 0x00, 0x00, 0x20, 0x00, 0x41, 0x00, 0xa0, 0xff, 0xff,
        0x00, 0x00, 0x00, 0x20, 0x00, 0x41, 0x00, 0xa0, 0xff, 0xff, 0xff, 0xe1, 0xff, 0xc1,
        0xff, 0x61, 0x00, 0x01, 0x00, 0x00, 0x00, 0x00, 0x00, 0x00, 0x00, 0x00,
    ]
}

#[test]
fn cmap_de() {
    let deserialized = cmap::from_bytes(&two_subtables_bytes()).unwrap();
    assert_eq!(deserialized, two_subtables());
}

#[test]
fn cmap_ser() {
    let serialized = two_subtables().to_bytes();
    assert_eq!(serialized, two_subtables_bytes());
}

#[test]
fn cmap_serde_notosansarmenian() {
    let binary_cmap = vec![
        0x00, 0x00, 0x00, 0x01, 0x00, 0x03, 0x00, 0x01, 0x00, 0x00, 0x00, 0x0c, 0x00, 0x04,
        0x00, 0x70, 0x00, 0x00, 0x00, 0x18, 0x00, 0x10, 0x00, 0x03, 0x00, 0x08, 0x00, 0x00,
        0x00, 0x0d, 0x00, 0x20, 0x00, 0xa0, 0x05, 0x56, 0x05, 0x5f, 0x05, 0x87, 0x05, 0x8a,
        0x05, 0x8f, 0xfb, 0x17, 0xfe, 0xff, 0xff, 0xff, 0x00, 0x00, 0x00, 0x00, 0x00, 0x0d,
        0x00, 0x20, 0x00, 0xa0, 0x05, 0x31, 0x05, 0x59, 0x05, 0x61, 0x05, 0x89, 0x05, 0x8f,
        0xfb, 0x13, 0xfe, 0xff, 0xff, 0xff, 0x00, 0x01, 0xff, 0xf5, 0xff, 0xe3, 0xff, 0x63,
        0xfa, 0xd3, 0xfa, 0xd1, 0xfa, 0xd0, 0xfa, 0xcf, 0xfa, 0xd0, 0x05, 0x47, 0x01, 0x02,
        0x00, 0x01, 0x00, 0x00, 0x00, 0x00, 0x00, 0x00, 0x00, 0x00, 0x00, 0x00, 0x00, 0x00,
        0x00, 0x00, 0x00, 0x00, 0x00, 0x00, 0x00, 0x00, 0x00, 0x00, 0x00, 0x00,
    ];
    let bt = mapping(&[
        (0, 1), (13, 2), (32, 3), (160, 3), (1329, 4), (1330, 5), (1331, 6), (1332, 7),
        (1333, 8), (1334, 9), (1335, 10), (1336, 11), (1337, 12), (1338, 13), (1339, 14),
        (1340, 15), (1341, 16), (1342, 17), (1343, 18), (1344, 19), (1345, 20), (1346, 21),
        (1347, 22), (1348, 23), (1349, 24), (1350, 25), (1351, 26), (1352, 27), (1353, 28),
        (1354, 29), (1355, 30), (1356, 31), (1357, 32), (1358, 33), (1359, 34), (1360, 35),
        (1361, 36), (1362, 37), (1363, 38), (1364, 39), (1365, 40), (1366, 41), (1369, 42),
        (1370, 43), (1371, 44), (1372, 45), (1373, 46), (1374, 47), (1375, 48), (1377, 49),
        (1378, 50), (1379, 51), (1380, 52), (1381, 53), (1382, 54), (1383, 55), (1384, 56),
        (1385, 57), (1386, 58), (1387, 59), (1388, 60), (1389, 61), (1390, 62), (1391, 63),
        (1392, 64), (1393, 65), (1394, 66), (1395, 67), (1396, 68), (1397, 69), (1398, 70),
        (1399, 71), (1400, 72), (1401, 73), (1402, 74), (1403, 75), (1404, 76), (1405, 77),
        (1406, 78), (1407, 79), (1408, 80), (1409, 81), (1410, 82), (1411, 83), (1412, 84),
        (1413, 85), (1414, 86), (1415, 87), (1417, 88), (1418, 89), (1423, 95), (64275, 90),
        (64276, 91), (64277, 92), (64278, 93), (64279, 94), (65279, 1),
    ]);
    let fcmap = cmap {
        subtables: vec![CmapSubtable {
            format: 4,
            platformID: 3,
            encodingID: 1,
            languageID: 0,
            mapping: bt,
        }],
    };
    let deserialized = cmap::from_bytes(&binary_cmap).unwrap();
    let serialized = deserialized.to_bytes();
    assert_eq!(deserialized, fcmap);
    assert_eq!(serialized, binary_cmap);
}

#[test]
fn cmap_reversed() {
    let fcmap = two_subtables();
    let revmap = fcmap.reversed();
    assert!(revmap.get(&2).unwrap().contains(&65));
    assert!(revmap.get(&1).unwrap().contains(&32));
    assert!(revmap.get(&1).unwrap().contains(&160));
    assert_eq!(revmap.get(&1).unwrap().len(), 2);
    assert_eq!(revmap.len(), 2);
}

#[test]
fn cmap_mapping_lookup() {
    let fcmap = two_subtables();
    assert_eq!(fcmap.getMapping(3, 1), Some(&fcmap.subtables[1].mapping));
    assert_eq!(fcmap.getMapping(3, 10), None);
    // (3, 1) is preferred over (0, 3).
    assert!(std::ptr::eq(fcmap.getBestMapping().unwrap(), &fcmap.subtables[1].mapping));
    let empty = cmap { subtables: vec![] };
    assert_eq!(empty.getBestMapping(), None);
}

#[test]
fn cmap_subtable_kinds() {
    let fcmap = two_subtables();
    assert!(fcmap.subtables[0].is_unicode());
    assert!(fcmap.subtables[1].is_unicode());
    assert!(!fcmap.subtables[1].is_symbol());
    let sym = CmapSubtable {
        format: 4,
        platformID: 3,
        encodingID: 0,
        languageID: 0,
        mapping: BTreeMap::new(),
    };
    assert!(sym.is_symbol());
    // The Windows symbol encoding counts as Unicode too.
    assert!(sym.is_unicode());
    let mac = CmapSubtable { format: 4, platformID: 1, encodingID: 0, languageID: 0, mapping: BTreeMap::new() };
    assert!(!mac.is_unicode());
    assert!(!mac.is_symbol());
}

#[test]
fn split_range_runs() {
    // Codes 10..=12 go to consecutive glyphs, 13 breaks the run, 14..=18 is a
    // long consecutive run again.
    let map = mapping(&[
        (10, 1), (11, 2), (12, 3), (13, 40), (14, 50), (15, 51), (16, 52), (17, 53), (18, 54),
    ]);
    let (starts, ends) = split_range(10, 18, &map);
    assert_eq!(ends.len(), starts.len() + 1);
    assert_eq!(ends.last(), Some(&18));
    // Every segment boundary lies within the range.
    for e in &ends {
        assert!(*e >= 10 && *e <= 18);
    }
    let (s1, e1) = split_range(5, 5, &map);
    assert!(s1.is_empty());
    assert_eq!(e1, vec![5]);
}

#[test]
fn search_range_values() {
    assert_eq!(get_search_range(2, 2), (4, 1, 0));
    assert_eq!(get_search_range(13, 2), (16, 3, 10));
    assert_eq!(get_search_range(1, 16), (16, 0, 0));
}

#[test]
fn contiguous_lists() {
    assert!(is_contiguous_list(&[3, 4, 5]));
    assert!(is_contiguous_list(&[]));
    assert!(!is_contiguous_list(&[3, 5]));
}

#[test]
fn cmap4_mapping_roundtrip() {
    let map = mapping(&[(32, 1), (160, 1), (65, 2), (66, 3), (67, 4)]);
    let sub = cmap4::from_mapping(0, &map);
    assert_eq!(sub.format, 4);
    assert_eq!(sub.endCode.last(), Some(&0xffff));
    assert_eq!(sub.to_mapping(), map);
    let bytes = sub.to_bytes();
    assert_eq!(bytes.len(), sub.length as usize);
    let back = cmap4::from_bytes(&bytes).unwrap();
    assert_eq!(back.to_mapping(), map);
}

#[test]
fn cmap0_bytes() {
    let map = mapping(&[(65, 3), (66, 4)]);
    let sub = cmap0::from_mapping(7, &map);
    let bytes = sub.to_bytes();
    assert_eq!(bytes, vec![0x00, 0x00, 0x00, 0x00, 0x00, 0x07]);
    assert!(sub.clone().to_mapping().is_empty());
    let back = cmap0::from_bytes(&[0x00, 0x00, 0x00, 0x02, 0x00, 0x07, 0x05, 0x09]).unwrap();
    assert_eq!(back.language, 7);
    assert_eq!(back.glyphIdArray, vec![5, 9]);
    assert!(cmap0::from_bytes(&[0x00, 0x00, 0x00, 0x03, 0x00, 0x07, 0x05, 0x09]).is_err());
}

#[test]
fn cmap_truncated_is_error() {
    let bytes = two_subtables_bytes();
    assert!(cmap::from_bytes(&bytes[..10]).is_err());
}
