use heatmap::{
    decode, encode, HeatMapLayer, HeatMapTenant, HeatMapTimeline, LayerFileMetadata, LayerName,
};

fn layer(name: &str, file_size: u64, access_time: i64, cold: bool) -> HeatMapLayer {
    HeatMapLayer::new(
        LayerName::new(name.as_bytes().to_vec()),
        LayerFileMetadata { file_size },
        access_time,
        cold,
    )
}

fn tenant(
    generation: u32,
    timelines: Vec<HeatMapTimeline>,
    upload_period_ms: Option<u128>,
) -> HeatMapTenant {
    HeatMapTenant { generation, timelines, upload_period_ms }
}

#[test]
fn encode_exact_json() {
    let t = tenant(
        1,
        vec![HeatMapTimeline::new(0xabcu128, vec![layer("L1", 100, 5, false)])],
        Some(2000),
    );
    let expected = "{\"generation\":1,\"timelines\":[{\"timeline_id\":\"00000000000000000000000000000abc\",\"layers\":[{\"name\":\"L1\",\"metadata\":{\"file_size\":100},\"access_time\":5,\"cold\":false}]}],\"upload_period_ms\":2000}";
    assert_eq!(encode(&t), expected.as_bytes().to_vec());
}

#[test]
fn encode_omits_absent_upload_period() {
    let t = tenant(7, vec![], None);
    let expected = "{\"generation\":7,\"timelines\":[]}";
    assert_eq!(encode(&t), expected.as_bytes().to_vec());
}

#[test]
fn encode_negative_access_time() {
    let t = tenant(
        0,
        vec![HeatMapTimeline::new(1u128, vec![layer("a", 1, -42, true)])],
        None,
    );
    let expected = "{\"generation\":0,\"timelines\":[{\"timeline_id\":\"00000000000000000000000000000001\",\"layers\":[{\"name\":\"a\",\"metadata\":{\"file_size\":1},\"access_time\":-42,\"cold\":true}]}]}";
    assert_eq!(encode(&t), expected.as_bytes().to_vec());
}

#[test]
fn round_trip_full() {
    let name1 = "000000067F0000000000000000000001-0000000003000000000000000000000002__00000000016B59D8-00000000016B5A51";
    let t = tenant(
        11,
        vec![
            HeatMapTimeline::new(
                0x0102030405060708090a0b0c0d0e0f10u128,
                vec![
                    layer(name1, 26059232, 1700000000, false),
                    layer("image_layer_7", 1024, -3, true),
                ],
            ),
            HeatMapTimeline::new(u128::MAX, vec![]),
        ],
        Some(300000),
    );
    let bytes = encode(&t);
    let back = decode(&bytes).expect("canonical encoding must decode");
    assert_eq!(back, t);
}

#[test]
fn round_trip_absent_upload_period() {
    let t = tenant(3, vec![HeatMapTimeline::new(5u128, vec![layer("x", 9, 0, false)])], None);
    let bytes = encode(&t);
    let back = decode(&bytes).expect("canonical encoding must decode");
    assert_eq!(back, t);
    assert_eq!(back.upload_period_ms, None);
}

#[test]
fn round_trip_empty_tenant() {
    let t = tenant(0, vec![], None);
    let back = decode(&encode(&t)).expect("empty descriptor must decode");
    assert_eq!(back, t);
}

#[test]
fn round_trip_extreme_values() {
    let t = tenant(
        u32::MAX,
        vec![HeatMapTimeline::new(
            0u128,
            vec![layer("", u64::MAX, i64::MIN, true), layer("b", 0, i64::MAX, false)],
        )],
        Some(u128::MAX),
    );
    let back = decode(&encode(&t)).expect("extreme values must round trip");
    assert_eq!(back, t);
}

#[test]
fn decode_legacy_defaults() {
    // A descriptor written before `cold` and `upload_period_ms` existed.
    let legacy = "{\"generation\":2,\"timelines\":[{\"timeline_id\":\"000000000000000000000000000000ff\",\"layers\":[{\"name\":\"old1\",\"metadata\":{\"file_size\":10},\"access_time\":111},{\"name\":\"old2\",\"metadata\":{\"file_size\":20},\"access_time\":222}]}]}";
    let t = decode(&legacy.as_bytes().to_vec()).expect("legacy shape must decode");
    assert_eq!(t.generation, 2);
    assert_eq!(t.upload_period_ms, None);
    assert_eq!(t.timelines.len(), 1);
    let layers = t.timelines[0].all_layers();
    assert_eq!(layers.len(), 2);
    assert!(!layers[0].cold);
    assert!(!layers[1].cold);
    assert_eq!(layers[0].access_time, 111);
    assert_eq!(layers[1].metadata.file_size, 20);
}

#[test]
fn decode_rejects_garbage() {
    assert!(decode(&b"not a heatmap".to_vec()).is_err());
    assert!(decode(&Vec::new()).is_err());
}

#[test]
fn decode_rejects_trailing_input() {
    let t = tenant(1, vec![], None);
    let mut bytes = encode(&t);
    bytes.push(b' ');
    assert!(decode(&bytes).is_err());
}

#[test]
fn decode_rejects_truncated_input() {
    let t = tenant(1, vec![HeatMapTimeline::new(2u128, vec![layer("n", 1, 1, false)])], None);
    let bytes = encode(&t);
    let truncated = bytes[..bytes.len() - 1].to_vec();
    assert!(decode(&truncated).is_err());
}

#[test]
fn decode_rejects_missing_required_field() {
    // No `generation` field at all.
    assert!(decode(&b"{\"timelines\":[]}".to_vec()).is_err());
    // No `metadata` on a layer.
    let bad = "{\"generation\":1,\"timelines\":[{\"timeline_id\":\"00000000000000000000000000000001\",\"layers\":[{\"name\":\"x\",\"access_time\":1,\"cold\":false}]}]}";
    assert!(decode(&bad.as_bytes().to_vec()).is_err());
}

#[test]
fn decode_rejects_bad_timeline_id() {
    // Too short, and uppercase hex: both malformed.
    let short = "{\"generation\":1,\"timelines\":[{\"timeline_id\":\"abc\",\"layers\":[]}]}";
    assert!(decode(&short.as_bytes().to_vec()).is_err());
    let upper = "{\"generation\":1,\"timelines\":[{\"timeline_id\":\"00000000000000000000000000000ABC\",\"layers\":[]}]}";
    assert!(decode(&upper.as_bytes().to_vec()).is_err());
}

#[test]
fn decode_rejects_out_of_range_numbers() {
    // Generation is 32-bit: 4294967296 is one too many.
    let g = "{\"generation\":4294967296,\"timelines\":[]}";
    assert!(decode(&g.as_bytes().to_vec()).is_err());
    // 2^128 does not fit the upload period.
    let p = "{\"generation\":1,\"timelines\":[],\"upload_period_ms\":340282366920938463463374607431768211456}";
    assert!(decode(&p.as_bytes().to_vec()).is_err());
}

#[test]
fn decode_rejects_escape_in_name() {
    let bad = "{\"generation\":1,\"timelines\":[{\"timeline_id\":\"00000000000000000000000000000001\",\"layers\":[{\"name\":\"a\\\\b\",\"metadata\":{\"file_size\":1},\"access_time\":1,\"cold\":false}]}]}";
    assert!(decode(&bad.as_bytes().to_vec()).is_err());
}

#[test]
fn decode_minimal() {
    let t = decode(&b"{\"generation\":0,\"timelines\":[]}".to_vec()).expect("minimal decodes");
    assert_eq!(t.generation, 0);
    assert_eq!(t.timelines.len(), 0);
    assert_eq!(t.upload_period_ms, None);
}
