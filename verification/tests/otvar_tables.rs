use fonttables::otvar::header::{TupleVariationHeader, EMBEDDED_PEAK_TUPLE, INTERMEDIATE_REGION, PRIVATE_POINT_NUMBERS};
use fonttables::otvar::item_variation::{ItemVariationData, ItemVariationStore, RegionAxisCoordinates, VariationRegionList};
use fonttables::otvar::store::{Delta, TupleVariationStore};

fn f2dot14(v: f64) -> i16 {
    (v * 16384.0).round() as i16
}

#[test]
fn test_tvh_serde() {
    let tvh = TupleVariationHeader {
        size: 33,
        flags: EMBEDDED_PEAK_TUPLE,
        sharedTupleIndex: 0,
        peakTuple: Some(vec![f2dot14(0.5)]),
        startTuple: None,
        endTuple: None,
    };
    let serialized = tvh.to_bytes();
    let (deserialized, next) = TupleVariationHeader::from_bytes(&serialized, 0, 1).unwrap();
    assert_eq!(deserialized, tvh);
    assert_eq!(next, serialized.len());
}

#[test]
fn test_tvh_deser() {
    let binary_tvh: Vec<u8> = vec![0, 33, 128, 0, 32, 0];
    let (deserialized, _) = TupleVariationHeader::from_bytes(&binary_tvh, 0, 1).unwrap();
    let serialized = deserialized.to_bytes();
    assert_eq!(serialized, binary_tvh);
}

#[test]
fn tvh_intermediate_region_and_shared_index() {
    let bytes: Vec<u8> = vec![0x00, 0x10, 0x40, 0x03, 0x00, 0x00, 0x40, 0x00];
    let (h, next) = TupleVariationHeader::from_bytes(&bytes, 0, 1).unwrap();
    assert_eq!(next, 8);
    assert_eq!(h.flags, INTERMEDIATE_REGION | 3);
    assert_eq!(h.sharedTupleIndex, 3);
    assert_eq!(h.peakTuple, None);
    assert_eq!(h.startTuple, Some(vec![0]));
    assert_eq!(h.endTuple, Some(vec![f2dot14(1.0)]));
    assert_eq!(h.to_bytes(), bytes);
    assert!(TupleVariationHeader::from_bytes(&bytes[..7], 0, 1).is_err());
}

#[test]
fn tuple_variation_store_shared_and_private_points() {
    let data: Vec<u8> = vec![
        0x80, 0x02, // two variations, shared points follow the headers
        0x00, 0x10, // data offset (not used)
        0x00, 0x08, 0x80, 0x00, 0x40, 0x00, // header: embedded peak 1.0
        0x00, 0x06, 0xa0, 0x00, 0xc0, 0x00, // header: embedded peak -1.0, private points
        0x00, // shared points: all of them
        0x02, 0x01, 0x02, 0x03, // x deltas 1, 2, 3
        0x82, // y deltas: three zeros
        0x01, 0x00, 0x02, // private points: one point, number 2
        0x00, 0x05, // x delta 5
        0x00, 0xfb, // y delta -5
    ];
    let (tvs, next) = TupleVariationStore::from_bytes(&data, 0, 1, true, 3).unwrap();
    assert_eq!(next, data.len());
    assert_eq!(tvs.0.len(), 2);
    assert_eq!(tvs.0[0].0.peakTuple, Some(vec![f2dot14(1.0)]));
    assert_eq!(
        tvs.0[0].1,
        vec![Some(Delta::Delta2D((1, 0))), Some(Delta::Delta2D((2, 0))), Some(Delta::Delta2D((3, 0)))]
    );
    assert_eq!(tvs.0[1].0.flags & PRIVATE_POINT_NUMBERS, PRIVATE_POINT_NUMBERS);
    assert_eq!(tvs.0[1].0.peakTuple, Some(vec![f2dot14(-1.0)]));
    assert_eq!(tvs.0[1].1, vec![None, None, Some(Delta::Delta2D((5, -5)))]);
    assert!(TupleVariationStore::from_bytes(&data[..data.len() - 1], 0, 1, true, 3).is_err());
}

#[test]
fn tuple_variation_store_one_dimensional() {
    let data: Vec<u8> = vec![
        0x00, 0x01, 0x00, 0x0a, // one variation, no shared points
        0x00, 0x04, 0xa0, 0x00, 0x20, 0x00, // header: embedded peak 0.5, private points
        0x02, 0x01, 0x00, 0x02, // points 0 and 2
        0x01, 0x07, 0xf9, // deltas 7, -7
    ];
    let (tvs, _) = TupleVariationStore::from_bytes(&data, 0, 1, false, 4).unwrap();
    assert_eq!(
        tvs.0[0].1,
        vec![Some(Delta::Delta1D(7)), None, Some(Delta::Delta1D(-7)), None]
    );
}

#[test]
fn otvar_de() {
    let binary_ivd = vec![
        0x00, 0x04, 0x00, 0x01, 0x00, 0x01, 0x00, 0x00, 0xFF, 0x38, 0xFF, 0xCE, 0x00, 0x64,
        0x00, 0xC8,
    ];
    let fivd = ItemVariationData {
        region_indexes: vec![0],
        delta_values: vec![vec![-200], vec![-50], vec![100], vec![200]],
    };
    let (deserialized, next) = ItemVariationData::from_bytes(&binary_ivd, 0).unwrap();
    assert_eq!(deserialized, fivd);
    assert_eq!(next, binary_ivd.len());
}

#[test]
fn item_variation_data_byte_columns() {
    // Two regions, no short deltas: column 0 is still a word, column 1 a byte.
    let bytes = vec![0x00, 0x02, 0x00, 0x00, 0x00, 0x02, 0x00, 0x00, 0x00, 0x01, 0xff, 0x9c, 0x05, 0x00, 0x0a, 0xfb];
    let (d, next) = ItemVariationData::from_bytes(&bytes, 0).unwrap();
    assert_eq!(d.region_indexes, vec![0, 1]);
    assert_eq!(d.delta_values, vec![vec![-100, 5], vec![10, -5]]);
    assert_eq!(next, bytes.len());
    assert!(ItemVariationData::from_bytes(&bytes[..15], 0).is_err());
}

#[test]
fn item_variation_store_de() {
    let mut bytes = vec![
        0x00, 0x01, // format
        0x00, 0x00, 0x00, 0x0c, // region list offset
        0x00, 0x01, // one data subtable
        0x00, 0x00, 0x00, 0x16, // at 22
    ];
    // Region list: one axis, one region (0, 1, 1).
    bytes.extend([0x00, 0x01, 0x00, 0x01, 0x00, 0x00, 0x40, 0x00, 0x40, 0x00]);
    bytes.extend([0x00, 0x04, 0x00, 0x01, 0x00, 0x01, 0x00, 0x00, 0xFF, 0x38, 0xFF, 0xCE, 0x00, 0x64, 0x00, 0xC8]);
    let store = ItemVariationStore::from_bytes(&bytes, 0).unwrap();
    assert_eq!(store.format, 1);
    assert_eq!(store.axisCount, 1);
    assert_eq!(
        store.variationRegions,
        vec![vec![RegionAxisCoordinates { startCoord: 0, peakCoord: 0x4000, endCoord: 0x4000 }]]
    );
    assert_eq!(store.variationData[0].delta_values, vec![vec![-200], vec![-50], vec![100], vec![200]]);
    let list = VariationRegionList::from_bytes(&bytes, 12).unwrap();
    assert_eq!(list.regionCount, 1);
    assert!(ItemVariationStore::from_bytes(&bytes[..30], 0).is_err());
}
