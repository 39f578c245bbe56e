use minit_rs::{next_restart_delay, should_restart, ChildStatus, RestartPolicy, NANOS_PER_SEC};
use std::time::Duration;

#[test]
fn respawn_delay_grows_exponentially_and_caps() {
    let base: u64 = 1_000 * NANOS_PER_SEC;
    let mut restart_count = 0;

    let delay1 = next_restart_delay(base, base, &mut restart_count, 2, 60, 0).unwrap();
    let delay2 = next_restart_delay(base, base, &mut restart_count, 2, 60, 0).unwrap();
    let delay3 = next_restart_delay(base, base, &mut restart_count, 2, 60, 0).unwrap();

    assert_eq!(Duration::from_secs(delay1), Duration::from_secs(2));
    assert_eq!(Duration::from_secs(delay2), Duration::from_secs(4));
    assert_eq!(Duration::from_secs(delay3), Duration::from_secs(8));
}

#[test]
fn respawn_count_resets_after_window() {
    let now: u64 = 1_000 * NANOS_PER_SEC;
    let mut restart_count = 4;

    let delay = next_restart_delay(now, now - 61 * NANOS_PER_SEC, &mut restart_count, 3, 60, 0).unwrap();

    assert_eq!(Duration::from_secs(delay), Duration::from_secs(3));
    assert_eq!(restart_count, 1);
}

#[test]
fn respawn_max_stops_restarts() {
    let now: u64 = 1_000 * NANOS_PER_SEC;
    let mut restart_count = 2;

    let delay = next_restart_delay(now, now, &mut restart_count, 1, 60, 2);

    assert!(delay.is_none());
}

#[test]
fn respawn_delay_caps_at_sixty_four_times_base() {
    let now: u64 = 5 * NANOS_PER_SEC;
    let mut restart_count = 0;
    let mut delays = Vec::new();
    for _ in 0..9 {
        delays.push(next_restart_delay(now, now, &mut restart_count, 3, 60, 0).unwrap());
    }
    assert_eq!(delays, vec![3, 6, 12, 24, 48, 96, 192, 192, 192]);
    assert_eq!(restart_count, 9);
}

#[test]
fn respawn_delay_saturates() {
    let mut restart_count = 6;
    let delay = next_restart_delay(0, 0, &mut restart_count, u64::MAX / 2, 60, 0);
    assert_eq!(delay, Some(u64::MAX));
}

#[test]
fn window_boundary_is_exclusive() {
    // Exactly the window since the last start: no reset.
    let mut restart_count = 3;
    let delay = next_restart_delay(60 * NANOS_PER_SEC, 0, &mut restart_count, 1, 60, 0);
    assert_eq!(delay, Some(8));
    assert_eq!(restart_count, 4);
    // One nanosecond more: reset.
    let mut restart_count = 3;
    let delay = next_restart_delay(60 * NANOS_PER_SEC + 1, 0, &mut restart_count, 1, 60, 0);
    assert_eq!(delay, Some(1));
    assert_eq!(restart_count, 1);
}

#[test]
fn start_in_the_future_counts_as_no_time() {
    let mut restart_count = 1;
    let delay = next_restart_delay(0, 500 * NANOS_PER_SEC, &mut restart_count, 1, 60, 0);
    assert_eq!(delay, Some(2));
    assert_eq!(restart_count, 2);
}

#[test]
fn respawn_limit_after_reset_allows_restart() {
    let mut restart_count = 5;
    let delay = next_restart_delay(100 * NANOS_PER_SEC, 0, &mut restart_count, 1, 10, 5);
    assert_eq!(delay, Some(1));
    assert_eq!(restart_count, 1);
    let mut restart_count = 5;
    let delay = next_restart_delay(5 * NANOS_PER_SEC, 0, &mut restart_count, 1, 10, 5);
    assert_eq!(delay, None);
    assert_eq!(restart_count, 5);
}

#[test]
fn restart_policies() {
    assert!(should_restart(ChildStatus::Exited(0), RestartPolicy::Always));
    assert!(should_restart(ChildStatus::Stopped(19), RestartPolicy::Always));
    assert!(!should_restart(ChildStatus::Exited(1), RestartPolicy::Never));
    assert!(!should_restart(ChildStatus::Signaled(9), RestartPolicy::Never));
    assert!(should_restart(ChildStatus::Exited(1), RestartPolicy::OnFailure));
    assert!(should_restart(ChildStatus::Exited(-1), RestartPolicy::OnFailure));
    assert!(!should_restart(ChildStatus::Exited(0), RestartPolicy::OnFailure));
    assert!(should_restart(ChildStatus::Signaled(15), RestartPolicy::OnFailure));
    assert!(!should_restart(ChildStatus::Stopped(19), RestartPolicy::OnFailure));
    assert!(!should_restart(ChildStatus::Continued, RestartPolicy::OnFailure));
    assert!(!should_restart(ChildStatus::Traced, RestartPolicy::OnFailure));
}

#[test]
fn respawn_max_grants_exactly_max_restarts_in_window() {
    let last: u64 = 0;
    let mut restart_count = 0;
    let mut granted = Vec::new();
    for k in 0..6u64 {
        let now = k * NANOS_PER_SEC;
        granted.push(next_restart_delay(now, last, &mut restart_count, 1, 60, 3).is_some());
    }
    assert_eq!(granted, vec![true, true, true, false, false, false]);
    assert_eq!(restart_count, 3);
}
