use metrics_dashboard::registry::{
    count_duplicates, metric_kind_str, result_if_matched, search_results, unit_str, DescriptionKey, DescriptionStore,
    MetricDescription, MetricKey, MetricKind, SearchResult, Unit,
};

fn key(name: &str, kind: MetricKind) -> MetricKey {
    MetricKey::new(name.to_string(), Vec::new(), kind)
}

#[test]
fn first_description_wins() {
    let mut store = DescriptionStore::new();
    store.describe("frame_time".to_string(), MetricKind::Gauge, Some(Unit::Milliseconds), "a".to_string());
    store.describe("frame_time".to_string(), MetricKind::Gauge, Some(Unit::Seconds), "b".to_string());
    let d = store
        .get(&DescriptionKey { name: "frame_time".to_string(), kind: MetricKind::Gauge })
        .unwrap();
    assert_eq!(d.unit, Some(Unit::Milliseconds));
    assert_eq!(d.text, "a");
}

#[test]
fn descriptions_are_per_kind() {
    let mut store = DescriptionStore::new();
    store.add_if_missing(
        DescriptionKey { name: "x".to_string(), kind: MetricKind::Gauge },
        MetricDescription { unit: None, text: "gauge".to_string() },
    );
    store.add_if_missing(
        DescriptionKey { name: "x".to_string(), kind: MetricKind::Histogram },
        MetricDescription { unit: Some(Unit::Bytes), text: "hist".to_string() },
    );
    let h = store.get(&DescriptionKey { name: "x".to_string(), kind: MetricKind::Histogram }).unwrap();
    assert_eq!(h.text, "hist");
    assert!(store.get(&DescriptionKey { name: "x".to_string(), kind: MetricKind::Counter }).is_none());
}

#[test]
fn empty_query_matches_everything() {
    let keys = vec![key("alpha", MetricKind::Counter), key("beta", MetricKind::Gauge)];
    let store = DescriptionStore::new();
    let results = search_results(&keys, &store, "");
    assert_eq!(results.len(), 2);
    assert_eq!(results[0].key.name, "alpha");
    assert_eq!(results[1].key.kind, MetricKind::Gauge);
}

#[test]
fn query_filters_by_name_and_attaches_descriptions() {
    let keys = vec![
        key("frame_time", MetricKind::Histogram),
        key("entities", MetricKind::Gauge),
        key("frames_per_second", MetricKind::Gauge),
    ];
    let mut store = DescriptionStore::new();
    store.describe("frame_time".to_string(), MetricKind::Histogram, Some(Unit::Milliseconds), "Frame time delta".to_string());
    let results = search_results(&keys, &store, "frame");
    let names: Vec<&str> = results.iter().map(|r| r.key.name.as_str()).collect();
    assert_eq!(names, vec!["frame_time", "frames_per_second"]);
    assert_eq!(results[0].description.as_ref().unwrap().text, "Frame time delta");
    assert!(results[1].description.is_none());
    assert!(search_results(&keys, &store, "zzzz").is_empty());
}

#[test]
fn default_title_formats_kind_and_duplicates() {
    let k = key("frame_time", MetricKind::Gauge);
    assert_eq!(k.default_title(0), "frame_time (gauge)");
    assert_eq!(k.default_title(3), "frame_time (gauge) 3");
    assert_eq!(key("n", MetricKind::Histogram).default_title(12), "n (histogram) 12");
}

#[test]
fn kind_and_unit_symbols() {
    assert_eq!(metric_kind_str(MetricKind::Counter), "counter");
    assert_eq!(unit_str(Unit::Milliseconds), "ms");
    assert_eq!(unit_str(Unit::Microseconds), "μs");
    assert_eq!(unit_str(Unit::CountPerSecond), "hz");
    assert_eq!(unit_str(Unit::Percent), "%");
}

#[test]
fn duplicate_copies_labels() {
    let k = MetricKey::new(
        "visible".to_string(),
        vec![("entity".to_string(), "3v0".to_string())],
        MetricKind::Gauge,
    );
    let d = k.duplicate();
    assert_eq!(d, k);
}

#[test]
fn dropdown_lists_title_labels_and_description() {
    let result = SearchResult {
        key: MetricKey::new(
            "visible".to_string(),
            vec![("entity".to_string(), "3v0".to_string()), ("camera".to_string(), "main".to_string())],
            MetricKind::Gauge,
        ),
        description: Some(MetricDescription { unit: Some(Unit::Count), text: "Visible entities".to_string() }),
    };
    assert_eq!(
        result.dropdown_description(),
        vec!["visible (gauge)", "entity=3v0", "camera=main", "Visible entities"]
    );
    let bare = SearchResult { key: key("x", MetricKind::Counter), description: None };
    assert_eq!(bare.dropdown_description(), vec!["x (counter)"]);
}

#[test]
fn same_metric_needs_same_name_labels_and_kind() {
    let labelled = |v: &str| {
        MetricKey::new("hits".to_string(), vec![("route".to_string(), v.to_string())], MetricKind::Counter)
    };
    assert!(labelled("a").same_as(&labelled("a")));
    assert!(!labelled("a").same_as(&labelled("b")));
    assert!(!labelled("a").same_as(&key("hits", MetricKind::Counter)));
    assert!(!key("hits", MetricKind::Gauge).same_as(&key("hits", MetricKind::Counter)));
}

#[test]
fn duplicates_are_counted_by_identity() {
    let keys = vec![
        key("a", MetricKind::Counter),
        key("a", MetricKind::Gauge),
        key("a", MetricKind::Counter),
        key("b", MetricKind::Counter),
    ];
    assert_eq!(count_duplicates(&keys, &key("a", MetricKind::Counter)), 2);
    assert_eq!(count_duplicates(&keys, &key("c", MetricKind::Counter)), 0);
    assert_eq!(count_duplicates(&Vec::new(), &key("a", MetricKind::Counter)), 0);
}

#[test]
fn a_score_keeps_the_key_with_its_description() {
    let mut store = DescriptionStore::new();
    store.describe("hits".to_string(), MetricKind::Counter, Some(Unit::Count), "Total hits".to_string());
    let k = key("hits", MetricKind::Counter);
    let found = result_if_matched(&k, Some(42), &store).unwrap();
    assert_eq!(found.key, k);
    assert_eq!(found.description.unwrap().text, "Total hits");
    assert!(result_if_matched(&k, None, &store).is_none());
    let other = result_if_matched(&key("hits", MetricKind::Gauge), Some(0), &store).unwrap();
    assert!(other.description.is_none());
}
