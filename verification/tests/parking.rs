use gil::parking::{notify_wakes, NOT_PARKED, PARKED};

#[test]
fn notifier_wakes_only_a_parked_side() {
    assert!(notify_wakes(PARKED));
    assert!(!notify_wakes(NOT_PARKED));
    assert_ne!(PARKED, NOT_PARKED);
}
