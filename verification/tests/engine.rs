use strafe_timing::tracker::{KeySnapshot, KeyTracker, TimingEvent};

const A: u64 = 1;
const B: u64 = 2;
const C: u64 = 3;
const D: u64 = 4;

fn snap(codes: Vec<u64>) -> KeySnapshot {
    KeySnapshot::new(codes)
}

#[test]
fn clean_strafe_scenario() {
    let mut t = KeyTracker::new();
    // Press A at t=0: no prior release, event with absent timing.
    let ev = t.process_snapshot(snap(vec![A]), 0);
    assert_eq!(ev.len(), 1);
    assert_eq!(ev[0], TimingEvent { key: A, time_since_release_ms: None });
    // Release A at t=100 with nothing else held: no event.
    let ev = t.process_snapshot(snap(vec![]), 100);
    assert_eq!(ev.len(), 0);
    // Press B at t=250 with nothing held: clean event, 250 - 100 = 150.
    let ev = t.process_snapshot(snap(vec![B]), 250);
    assert_eq!(ev.len(), 1);
    assert_eq!(ev[0], TimingEvent { key: B, time_since_release_ms: Some(150) });
}

#[test]
fn counter_strafe_scenario() {
    let mut t = KeyTracker::new();
    // Press A at t=0: held set was empty, clean event with absent timing.
    let ev = t.process_snapshot(snap(vec![A]), 0);
    assert_eq!(ev, vec![TimingEvent { key: A, time_since_release_ms: None }]);
    // Press B at t=50 while A is still held: no event.
    let ev = t.process_snapshot(snap(vec![A, B]), 50);
    assert_eq!(ev.len(), 0);
    // Release A at t=80 while B is still held: counter event -(80 - 50).
    let ev = t.process_snapshot(snap(vec![B]), 80);
    assert_eq!(ev, vec![TimingEvent { key: A, time_since_release_ms: Some(-30) }]);
}

#[test]
fn multi_key_hold_then_release_all() {
    let mut t = KeyTracker::new();
    // Press A, B, C in sequence, each while the prior ones are held.
    let ev = t.process_snapshot(snap(vec![A]), 0);
    assert_eq!(ev, vec![TimingEvent { key: A, time_since_release_ms: None }]);
    let ev = t.process_snapshot(snap(vec![A, B]), 10);
    assert_eq!(ev.len(), 0);
    let ev = t.process_snapshot(snap(vec![A, B, C]), 20);
    assert_eq!(ev.len(), 0);
    // Release C at t=30: most recent press among still-held {A, B} is B at 10.
    let ev = t.process_snapshot(snap(vec![A, B]), 30);
    assert_eq!(ev, vec![TimingEvent { key: C, time_since_release_ms: Some(-20) }]);
    // Release B at t=40: A is still held, pressed at 0.
    let ev = t.process_snapshot(snap(vec![A]), 40);
    assert_eq!(ev, vec![TimingEvent { key: B, time_since_release_ms: Some(-40) }]);
    // Release A at t=50: nothing held any more, no event.
    let ev = t.process_snapshot(snap(vec![]), 50);
    assert_eq!(ev.len(), 0);
    // The release at t=50 is now the clean-strafe reference.
    let ev = t.process_snapshot(snap(vec![D]), 60);
    assert_eq!(ev, vec![TimingEvent { key: D, time_since_release_ms: Some(10) }]);
}

#[test]
fn no_key_both_pressed_and_released() {
    let mut t = KeyTracker::new();
    t.process_snapshot(snap(vec![A, B]), 0);
    // Swap: A leaves, C enters, B stays. A's release sees B still held;
    // C's press sees keys held, so only the counter event for A comes out.
    let ev = t.process_snapshot(snap(vec![B, C]), 25);
    assert_eq!(ev, vec![TimingEvent { key: A, time_since_release_ms: Some(-25) }]);
}

#[test]
fn identical_snapshot_is_silent() {
    let mut t = KeyTracker::new();
    let ev = t.process_snapshot(snap(vec![A, B]), 10);
    assert_eq!(ev.len(), 1);
    // The very same key set again: no transitions, no events.
    let ev = t.process_snapshot(snap(vec![A, B]), 20);
    assert_eq!(ev.len(), 0);
    // Even with the keys in another order.
    let ev = t.process_snapshot(snap(vec![B, A]), 30);
    assert_eq!(ev.len(), 0);
}

#[test]
fn replay_is_deterministic() {
    let inputs: Vec<(Vec<u64>, u64)> = vec![
        (vec![A], 0),
        (vec![A, B], 7),
        (vec![B], 31),
        (vec![], 40),
        (vec![C], 55),
    ];
    let mut t1 = KeyTracker::new();
    let mut t2 = KeyTracker::new();
    let mut out1: Vec<TimingEvent> = Vec::new();
    let mut out2: Vec<TimingEvent> = Vec::new();
    for (codes, at) in inputs.iter() {
        out1.extend(t1.process_snapshot(snap(codes.clone()), *at));
    }
    for (codes, at) in inputs.iter() {
        out2.extend(t2.process_snapshot(snap(codes.clone()), *at));
    }
    assert_eq!(out1, out2);
}

#[test]
fn same_cycle_release_supplies_reference() {
    let mut t = KeyTracker::new();
    t.process_snapshot(snap(vec![A]), 0);
    // A is released and B pressed in the same cycle: the release is handled
    // first, so B's clean timing counts from this very instant.
    let ev = t.process_snapshot(snap(vec![B]), 100);
    assert_eq!(ev, vec![TimingEvent { key: B, time_since_release_ms: Some(0) }]);
}

#[test]
fn simultaneous_first_presses() {
    let mut t = KeyTracker::new();
    // Two keys appear in the first cycle: only the first processed press
    // sees an empty held set and yields an event.
    let ev = t.process_snapshot(snap(vec![A, B]), 0);
    assert_eq!(ev, vec![TimingEvent { key: A, time_since_release_ms: None }]);
    // Releasing A while B is held: counter event against B's press at 0.
    let ev = t.process_snapshot(snap(vec![B]), 10);
    assert_eq!(ev, vec![TimingEvent { key: A, time_since_release_ms: Some(-10) }]);
}

#[test]
fn snapshot_deduplicates_codes() {
    let s = KeySnapshot::new(vec![A, A, B, A]);
    assert_eq!(s.len(), 2);
    assert!(s.contains_key(A));
    assert!(s.contains_key(B));
    assert!(!s.contains_key(C));

    let mut t = KeyTracker::new();
    let ev = t.process_snapshot(s, 0);
    assert_eq!(ev, vec![TimingEvent { key: A, time_since_release_ms: None }]);
}

#[test]
fn release_without_record_emits_nothing() {
    let mut t = KeyTracker::new();
    // A release the tracker never saw pressed: nothing was held before, so
    // no event; but the release time is recorded.
    let ev = t.handle_key_release(A, 10);
    assert_eq!(ev, None);
    let ev = t.handle_key_press(B, 25);
    assert_eq!(ev, Some(TimingEvent { key: B, time_since_release_ms: Some(15) }));
}

#[test]
fn clean_timing_counts_from_latest_release() {
    let mut t = KeyTracker::new();
    t.process_snapshot(snap(vec![A]), 0);
    t.process_snapshot(snap(vec![]), 40);
    t.process_snapshot(snap(vec![B]), 100);
    t.process_snapshot(snap(vec![]), 130);
    // The release at 130 supersedes the one at 40.
    let ev = t.process_snapshot(snap(vec![C]), 200);
    assert_eq!(ev, vec![TimingEvent { key: C, time_since_release_ms: Some(70) }]);
}

#[test]
fn counter_timing_uses_most_recent_press() {
    let mut t = KeyTracker::new();
    t.process_snapshot(snap(vec![A]), 0);
    t.process_snapshot(snap(vec![A, B]), 30);
    t.process_snapshot(snap(vec![A, B, C]), 45);
    // Release A at 50: among still-held {B, C} the most recent press is C
    // at 45, so the timing is -(50 - 45).
    let ev = t.process_snapshot(snap(vec![B, C]), 50);
    assert_eq!(ev, vec![TimingEvent { key: A, time_since_release_ms: Some(-5) }]);
}

#[test]
fn large_timestamps_do_not_overflow() {
    let mut t = KeyTracker::new();
    t.process_snapshot(snap(vec![A]), 0);
    t.process_snapshot(snap(vec![]), 1);
    let ev = t.process_snapshot(snap(vec![B]), u64::MAX);
    assert_eq!(
        ev,
        vec![TimingEvent { key: B, time_since_release_ms: Some(u64::MAX as i128 - 1) }]
    );
    let ev = t.process_snapshot(snap(vec![]), u64::MAX);
    assert_eq!(ev.len(), 0);
}

#[test]
fn calculate_timings_directly() {
    let mut t = KeyTracker::new();
    assert_eq!(t.calculate_clean_strafe_timing(5), None);
    t.handle_key_release(A, 10);
    assert_eq!(t.calculate_clean_strafe_timing(25), Some(15));

    let mut t2 = KeyTracker::new();
    t2.handle_key_press(A, 3);
    t2.handle_key_press(B, 8);
    let held = KeySnapshot::new(vec![A, B]);
    assert_eq!(t2.calculate_counter_strafe_timing(20, &held), Some(-12));
    let none_held = KeySnapshot::new(vec![C]);
    assert_eq!(t2.calculate_counter_strafe_timing(20, &none_held), None);
}
