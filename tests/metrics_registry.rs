use metrics::Key;
use metrics_dashboard::registry::{DescriptionKey, MetricKind, MetricsRegistry, Unit};
use std::sync::atomic::Ordering;

#[test]
fn registered_metrics_are_listed_and_searched() {
    let registry = MetricsRegistry::new();
    let cells = &registry.inner_registry().registry;
    cells.get_or_create_counter(&Key::from_name("requests"), |_| ());
    cells.get_or_create_gauge(&Key::from_name("queue_depth"), |_| ());
    cells.get_or_create_histogram(&Key::from_name("request_time"), |_| ());

    let all = registry.all_keys();
    assert_eq!(all.len(), 3);
    assert_eq!(all[0].kind, MetricKind::Counter);
    assert_eq!(all[0].name, "requests");
    assert_eq!(all[2].kind, MetricKind::Histogram);

    let mut found: Vec<String> = registry
        .fuzzy_search_by_name("req")
        .into_iter()
        .map(|r| r.key.name)
        .collect();
    found.sort();
    assert_eq!(found, vec!["request_time".to_string(), "requests".to_string()]);
    assert_eq!(registry.fuzzy_search_by_name("").len(), 3);
}

#[test]
fn labels_are_carried_into_keys() {
    let registry = MetricsRegistry::new();
    let key = Key::from_parts("visible", vec![metrics::Label::new("entity", "3v0")]);
    registry.inner_registry().registry.get_or_create_gauge(&key, |_| ());
    let all = registry.all_keys();
    assert_eq!(all[0].labels, vec![("entity".to_string(), "3v0".to_string())]);
}

#[test]
fn registry_descriptions_keep_the_first() {
    let registry = MetricsRegistry::new();
    registry
        .inner_registry()
        .registry
        .get_or_create_histogram(&Key::from_name("frame_time"), |_| ());
    registry.describe_histogram("frame_time".to_string(), Some(Unit::Milliseconds), "a".to_string());
    registry.describe_histogram("frame_time".to_string(), Some(Unit::Seconds), "b".to_string());
    registry.describe_gauge("frame_time".to_string(), None, "gauge".to_string());
    let results = registry.fuzzy_search_by_name("frame_time");
    assert_eq!(results.len(), 1);
    let d = results[0].description.as_ref().unwrap();
    assert_eq!(d.unit, Some(Unit::Milliseconds));
    assert_eq!(d.text, "a");
    let _ = DescriptionKey { name: "frame_time".to_string(), kind: MetricKind::Histogram };
}

#[test]
fn same_key_handles_share_one_cell() {
    let registry = MetricsRegistry::new();
    let shared = registry.clone();
    let key = Key::from_name("hits");
    let a = registry.inner_registry().registry.get_or_create_counter(&key, |c| c.clone());
    let b = shared.inner_registry().registry.get_or_create_counter(&key, |c| c.clone());
    for _ in 0..5 {
        a.fetch_add(1, Ordering::Relaxed);
        b.fetch_add(2, Ordering::Relaxed);
    }
    assert_eq!(a.load(Ordering::Relaxed), 15);
    assert_eq!(b.load(Ordering::Relaxed), 15);
    assert_eq!(registry.all_keys().len(), 1);
}
