use metrics_dashboard::plots::{CounterData, CounterPlotConfig};

#[test]
fn counter_config_defaults() {
    let c = CounterPlotConfig::default();
    assert_eq!(c.window_size, 500);
    assert!(!c.derivative);
}

#[test]
fn counter_data_keeps_a_window_of_readings() {
    let mut d = CounterData::new(CounterPlotConfig { window_size: 2, derivative: false });
    d.update(1);
    d.update(2);
    d.update(3);
    assert_eq!(d.ring.iter_chronological(), vec![2, 3]);
    d.handle_global_window_size(None);
    assert_eq!(d.config.window_size, 2);
    d.handle_global_window_size(Some(1));
    assert_eq!(d.ring.iter_chronological(), vec![3]);
    assert_eq!(d.config.window_size, 1);
}
