//! Readiness.

use rsigma::health::HealthState;

#[test]
fn set_ready_records_transition_correctly() {
    let mut state = HealthState::new();
    assert!(!state.is_ready());
    assert!(state.set_ready(true));
    assert!(state.is_ready());
    // No-op transition: still ready, no panic, no flip.
    assert!(!state.set_ready(true));
    assert!(state.is_ready());
    assert!(state.set_ready(false));
    assert!(!state.is_ready());
}

#[test]
fn the_last_record_counts() {
    let mut state = HealthState::new();
    for ready in [true, true, false, false, true] {
        let before = state.is_ready();
        assert_eq!(state.set_ready(ready), before != ready);
        assert_eq!(state.is_ready(), ready);
    }
}
