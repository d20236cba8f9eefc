use heatmap::{
    HeatMapLayer, HeatMapTenant, HeatMapTimeline, LayerFileMetadata, LayerName,
};

fn layer(name: &str, file_size: u64, access_time: i64, cold: bool) -> HeatMapLayer {
    HeatMapLayer::new(
        LayerName::new(name.as_bytes().to_vec()),
        LayerFileMetadata { file_size },
        access_time,
        cold,
    )
}

#[test]
fn hot_layers_filters_cold_and_keeps_order() {
    let tl = HeatMapTimeline::new(
        1u128,
        vec![
            layer("h1", 1, 10, false),
            layer("c1", 2, 20, true),
            layer("h2", 3, 30, false),
            layer("c2", 4, 40, true),
        ],
    );
    let all: Vec<&HeatMapLayer> = tl.all_layers().iter().collect();
    assert_eq!(all.len(), 4);
    let hot = tl.hot_layers();
    assert_eq!(hot.len(), 2);
    assert_eq!(hot[0].name.as_bytes(), &b"h1".to_vec());
    assert_eq!(hot[1].name.as_bytes(), &b"h2".to_vec());
    assert!(hot.iter().all(|l| !l.cold));
    let owned = tl.into_hot_layers();
    assert_eq!(owned.len(), 2);
    assert_eq!(owned[0].name.as_bytes(), &b"h1".to_vec());
    assert_eq!(owned[1].name.as_bytes(), &b"h2".to_vec());
}

#[test]
fn hot_layers_all_hot_and_all_cold() {
    let all_hot = HeatMapTimeline::new(1u128, vec![layer("a", 1, 0, false), layer("b", 2, 0, false)]);
    assert_eq!(all_hot.hot_layers().len(), 2);
    let all_cold = HeatMapTimeline::new(2u128, vec![layer("a", 1, 0, true), layer("b", 2, 0, true)]);
    assert_eq!(all_cold.hot_layers().len(), 0);
    assert_eq!(all_cold.into_hot_layers().len(), 0);
}

#[test]
fn stats_exact_scenario() {
    // T1 has two hot layers of sizes 100 and 200 and one cold layer of size
    // 50; T2 has one hot layer of size 300. Expected: 3 layers, 600 bytes.
    let t = HeatMapTenant {
        generation: 1,
        timelines: vec![
            HeatMapTimeline::new(
                1u128,
                vec![
                    layer("a", 100, 1, false),
                    layer("b", 200, 2, false),
                    layer("c", 50, 3, true),
                ],
            ),
            HeatMapTimeline::new(2u128, vec![layer("d", 300, 4, false)]),
        ],
        upload_period_ms: None,
    };
    let stats = t.get_stats();
    assert_eq!(stats.layers, 3);
    assert_eq!(stats.bytes, 600);
}

#[test]
fn stats_empty() {
    let t = HeatMapTenant { generation: 0, timelines: vec![], upload_period_ms: None };
    let stats = t.get_stats();
    assert_eq!(stats.layers, 0);
    assert_eq!(stats.bytes, 0);
}

#[test]
fn index_last_wins_on_duplicate_ids() {
    let a: u128 = 0xa;
    let b: u128 = 0xb;
    let t = HeatMapTenant {
        generation: 1,
        timelines: vec![
            HeatMapTimeline::new(a, vec![layer("first", 1, 1, false)]),
            HeatMapTimeline::new(b, vec![layer("other", 2, 2, false)]),
            HeatMapTimeline::new(a, vec![layer("third", 3, 3, false)]),
        ],
        upload_period_ms: None,
    };
    let index = t.into_timelines_index();
    assert_eq!(index.len(), 2);
    let at_a = index.get(&a).expect("key a present");
    assert_eq!(at_a.all_layers().len(), 1);
    assert_eq!(at_a.all_layers()[0].name.as_bytes(), &b"third".to_vec());
    let at_b = index.get(&b).expect("key b present");
    assert_eq!(at_b.all_layers()[0].name.as_bytes(), &b"other".to_vec());
}

#[test]
fn index_of_empty_tenant() {
    let t = HeatMapTenant { generation: 0, timelines: vec![], upload_period_ms: None };
    assert!(t.into_timelines_index().is_empty());
}

#[test]
fn strip_atimes_resets_and_keeps_everything_else() {
    let t = HeatMapTenant {
        generation: 9,
        timelines: vec![
            HeatMapTimeline::new(
                1u128,
                vec![layer("a", 100, 123456, false), layer("b", 200, -7, true)],
            ),
            HeatMapTimeline::new(2u128, vec![]),
        ],
        upload_period_ms: Some(5000),
    };
    let stripped = t.strip_atimes();
    assert_eq!(stripped.generation, 9);
    assert_eq!(stripped.upload_period_ms, Some(5000));
    assert_eq!(stripped.timelines.len(), 2);
    let layers = stripped.timelines[0].all_layers();
    assert_eq!(layers.len(), 2);
    assert_eq!(layers[0].access_time, 0);
    assert_eq!(layers[1].access_time, 0);
    assert_eq!(layers[0].name.as_bytes(), &b"a".to_vec());
    assert_eq!(layers[0].metadata.file_size, 100);
    assert!(!layers[0].cold);
    assert!(layers[1].cold);
}

#[test]
fn strip_atimes_idempotent() {
    let make = || HeatMapTenant {
        generation: 4,
        timelines: vec![HeatMapTimeline::new(
            3u128,
            vec![layer("a", 1, 77, false), layer("b", 2, 88, true)],
        )],
        upload_period_ms: None,
    };
    let once = make().strip_atimes();
    let twice = make().strip_atimes().strip_atimes();
    assert_eq!(once, twice);
}

#[test]
fn layer_new_sets_fields() {
    let l = layer("name-1", 42, 7, true);
    assert_eq!(l.name.as_bytes(), &b"name-1".to_vec());
    assert_eq!(l.metadata.file_size, 42);
    assert_eq!(l.access_time, 7);
    assert!(l.cold);
}
