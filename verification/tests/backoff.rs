use gil::{Backoff, BackoffAction, ParkingAction, ParkingBackoff};

#[test]
fn backoff_doc_with_spin_count() {
    let mut backoff = Backoff::with_spin_count(128);
    assert_eq!(backoff.next_action(), BackoffAction::Spin);
}

#[test]
fn backoff_doc_set_spin_count() {
    let mut backoff = Backoff::with_spin_count(64);
    backoff.set_spin_count(256);
    for _ in 0..256 {
        assert_eq!(backoff.next_action(), BackoffAction::Spin);
    }
    assert_eq!(backoff.next_action(), BackoffAction::Yield);
}

#[test]
fn backoff_first_four_spin_fifth_yields() {
    let mut backoff = Backoff::with_spin_count(4);
    let mut actions = Vec::new();
    for _ in 0..5 {
        actions.push(backoff.next_action());
    }
    assert_eq!(
        actions,
        vec![
            BackoffAction::Spin,
            BackoffAction::Spin,
            BackoffAction::Spin,
            BackoffAction::Spin,
            BackoffAction::Yield
        ]
    );
    // the cycle starts over after the yield
    assert_eq!(backoff.next_action(), BackoffAction::Spin);
}

#[test]
fn backoff_steps_run() {
    let mut backoff = Backoff::with_spin_count(4);
    for _ in 0..5 {
        backoff.backoff();
    }
    // after a full cycle the counter was reset: four more spins follow
    for _ in 0..4 {
        assert_eq!(backoff.next_action(), BackoffAction::Spin);
    }
    assert_eq!(backoff.next_action(), BackoffAction::Yield);
}

#[test]
fn backoff_reset_restarts_spinning() {
    let mut backoff = Backoff::with_spin_count(4);
    for _ in 0..3 {
        backoff.backoff();
    }
    backoff.reset();
    for _ in 0..4 {
        assert_eq!(backoff.next_action(), BackoffAction::Spin);
    }
    assert_eq!(backoff.next_action(), BackoffAction::Yield);
}

#[test]
fn backoff_zero_spin_count_always_yields() {
    let mut backoff = Backoff::with_spin_count(0);
    for _ in 0..3 {
        assert_eq!(backoff.next_action(), BackoffAction::Yield);
    }
}

#[test]
fn parking_backoff_doc_example() {
    let mut backoff = ParkingBackoff::new(128, 10);
    // First 128 calls spin, next 10 yield, then returns false
    for _ in 0..138 {
        assert!(backoff.backoff());
    }
    assert!(!backoff.backoff()); // ready to park
    backoff.reset();
    assert!(backoff.backoff()); // spinning again
}

#[test]
fn parking_backoff_phases() {
    let mut backoff = ParkingBackoff::new(2, 3);
    let mut actions = Vec::new();
    for _ in 0..7 {
        actions.push(backoff.next_action());
    }
    assert_eq!(
        actions,
        vec![
            ParkingAction::Spin,
            ParkingAction::Spin,
            ParkingAction::Yield,
            ParkingAction::Yield,
            ParkingAction::Yield,
            ParkingAction::Park,
            ParkingAction::Park
        ]
    );
}

#[test]
fn parking_backoff_stays_exhausted_until_reset() {
    let mut backoff = ParkingBackoff::new(0, 0);
    assert!(!backoff.backoff());
    assert!(!backoff.backoff());
    backoff.reset();
    assert!(!backoff.backoff());
}
