use metrics_dashboard::histogram::{bucket_index, order_key, sorted_bound_keys, HistogramData};

fn bits(values: &[f64]) -> Vec<u64> {
    values.iter().map(|v| v.to_bits()).collect()
}

#[test]
fn order_key_orders_floats() {
    let values: [f64; 7] = [-1.0e9, -2.5, -0.0, 0.0, 1.0e-300, 3.0, 1.0e9];
    for w in values.windows(2) {
        assert!(order_key(w[0].to_bits()) < order_key(w[1].to_bits()));
    }
    assert_eq!(order_key(0.0f64.to_bits()), 0x8000_0000_0000_0000);
    assert_eq!(order_key((-0.0f64).to_bits()), 0x7fff_ffff_ffff_ffff);
}

#[test]
fn sample_lands_in_first_bucket_at_or_above_it() {
    let keys = sorted_bound_keys(&bits(&[0.0, 10.0]));
    assert_eq!(bucket_index(&keys, order_key(5.0f64.to_bits())), 1);
    assert_eq!(bucket_index(&keys, order_key((-1.0f64).to_bits())), 0);
    assert_eq!(bucket_index(&keys, order_key(15.0f64.to_bits())), 2);
    assert_eq!(bucket_index(&keys, order_key(10.0f64.to_bits())), 1);
    assert_eq!(bucket_index(&keys, order_key(0.0f64.to_bits())), 0);
}

#[test]
fn single_sample_increments_exactly_one_bucket() {
    let mut h = HistogramData::new(&bits(&[0.0, 10.0]), None).unwrap();
    h.update(&bits(&[5.0]));
    assert_eq!(h.bucket_counts(), vec![0, 1, 0]);
    h.update(&bits(&[-1.0]));
    assert_eq!(h.bucket_counts(), vec![1, 1, 0]);
    h.update(&bits(&[15.0]));
    assert_eq!(h.bucket_counts(), vec![1, 1, 1]);
}

#[test]
fn equal_samples_count_in_one_bucket() {
    let mut h = HistogramData::new(&bits(&[1.0, 2.0, 3.0]), None).unwrap();
    h.update(&bits(&[2.5, 2.5]));
    assert_eq!(h.bucket_counts(), vec![0, 0, 2, 0]);
}

#[test]
fn bounds_are_sorted_and_deduplicated() {
    let keys = sorted_bound_keys(&bits(&[10.0, -3.0, 2.0, 10.0]));
    assert_eq!(keys, bits(&[-3.0, 2.0, 10.0]).iter().map(|b| order_key(*b)).collect::<Vec<_>>());
    let h = HistogramData::new(&bits(&[10.0, -3.0, 2.0, 10.0]), None).unwrap();
    assert_eq!(h.bucket_counts(), vec![0, 0, 0, 0]);
    assert_eq!(h.bounds().len(), 3);
}

#[test]
fn empty_bounds_are_refused() {
    assert!(HistogramData::new(&Vec::new(), Some(5)).is_none());
    let mut h = HistogramData::new(&bits(&[1.0]), None).unwrap();
    h.update(&bits(&[0.5, 2.0, 3.0]));
    assert!(!h.reconfigure(&Vec::new()));
    assert_eq!(h.bucket_counts(), vec![1, 2]);
    assert_eq!(h.bounds().len(), 1);
}

#[test]
fn reconfigure_resets_counts() {
    let mut h = HistogramData::new(&bits(&[1.0]), None).unwrap();
    h.update(&bits(&[0.5, 2.0]));
    assert!(h.reconfigure(&bits(&[0.0, 1.0, 2.0])));
    assert_eq!(h.bucket_counts(), vec![0, 0, 0, 0]);
}

#[test]
fn cumulative_counts_keep_growing() {
    let mut h = HistogramData::new(&bits(&[0.0, 10.0]), None).unwrap();
    h.update(&bits(&[1.0, 2.0, 20.0]));
    h.update(&bits(&[3.0, -5.0]));
    assert_eq!(h.bucket_counts(), vec![1, 3, 1]);
    assert_eq!(h.window_size(), None);
}

#[test]
fn window_of_n_counts_only_newest_n_samples() {
    let mut h = HistogramData::new(&bits(&[0.0, 10.0]), Some(3)).unwrap();
    h.update(&bits(&[-1.0, 5.0, 6.0, 15.0]));
    let counts = h.bucket_counts();
    assert_eq!(counts.iter().sum::<u32>(), 3);
    assert_eq!(counts, vec![0, 2, 1]);
    assert_eq!(h.windowed_samples(), bits(&[5.0, 6.0, 15.0]));
}

#[test]
fn window_recounts_from_whole_window() {
    let mut h = HistogramData::new(&bits(&[0.0]), Some(3)).unwrap();
    h.update(&bits(&[-1.0, -2.0]));
    assert_eq!(h.bucket_counts(), vec![2, 0]);
    h.update(&bits(&[1.0, 2.0]));
    assert_eq!(h.bucket_counts(), vec![1, 2]);
    h.update(&Vec::new());
    assert_eq!(h.bucket_counts(), vec![1, 2]);
}

#[test]
fn switching_to_cumulative_clears_counts() {
    let mut h = HistogramData::new(&bits(&[0.0]), Some(2)).unwrap();
    h.update(&bits(&[1.0]));
    h.set_window_size(None);
    assert_eq!(h.bucket_counts(), vec![0, 0]);
    assert!(h.windowed_samples().is_empty());
    h.set_window_size(Some(4));
    assert_eq!(h.window_size(), Some(4));
    h.update(&bits(&[1.0, 2.0]));
    assert_eq!(h.bucket_counts(), vec![0, 2]);
}

#[test]
fn window_three_of_four_samples_excludes_the_oldest() {
    let mut h = HistogramData::new(&bits(&[0.0, 10.0]), Some(3)).unwrap();
    h.update(&bits(&[-5.0, 5.0, 15.0, 20.0]));
    assert_eq!(h.bucket_counts(), vec![0, 1, 2]);
}

#[test]
fn reconfigured_bounds_ascend_with_one_more_count() {
    let mut h = HistogramData::new(&bits(&[1.0]), None).unwrap();
    assert!(h.reconfigure(&bits(&[3.0, 1.0, 2.0])));
    let keys = h.bounds().clone();
    assert!(keys.windows(2).all(|w| w[0] < w[1]));
    assert_eq!(keys.len(), 3);
    assert_eq!(h.bucket_counts().len(), 4);
}

#[test]
fn window_keeps_newest_samples_across_drains() {
    let mut h = HistogramData::new(&bits(&[0.0]), Some(3)).unwrap();
    h.update(&bits(&[-1.0, -2.0, 3.0]));
    h.update(&bits(&[4.0]));
    assert_eq!(h.windowed_samples(), bits(&[-2.0, 3.0, 4.0]));
    assert_eq!(h.bucket_counts(), vec![1, 2]);
}
