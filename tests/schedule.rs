use metrics_dashboard::schedule::{RefreshSchedule, SearchSchedule};

#[test]
fn search_waits_for_the_debounce_delay() {
    let mut s = SearchSchedule::new();
    assert!(!s.step(false, false, 100));
    assert!(s.step(false, false, 300));
    assert!(s.in_flight);
    assert!(!s.input_dirty);
}

#[test]
fn search_is_deferred_while_a_task_runs() {
    let mut s = SearchSchedule::new();
    assert!(s.step(false, false, 1000));
    assert!(!s.step(true, false, 1000));
    assert!(s.input_dirty);
    assert!(s.step(false, true, 1000));
    assert!(!s.step(false, true, 1000));
    assert!(!s.in_flight);
}

#[test]
fn refresh_runs_first_then_by_period() {
    let mut r = RefreshSchedule::new();
    assert!(r.step(false, 0));
    assert!(!r.step(true, 10));
    r.set_refresh_period(100);
    assert!(r.step(false, 101));
    assert!(!r.step(false, 500));
    assert!(r.step(true, 500));
}
