use minit_rs::{
    has_pending_restarts, ChildStatus, ExitOutcome, RestartPolicy, ServiceConfig, ServiceRuntime, Supervisor,
    NANOS_PER_SEC, SHUTDOWN_TIMEOUT_NS,
};

fn svc(name: &str, depends: &[&str], restart: RestartPolicy) -> ServiceConfig {
    ServiceConfig {
        name: name.to_string(),
        command: vec!["/bin/true".to_string()],
        depends: depends.iter().map(|s| s.to_string()).collect(),
        provides: Vec::new(),
        restart,
        respawn_delay_secs: 2,
        respawn_max: 0,
        respawn_window_secs: 60,
    }
}

fn started(services: Vec<ServiceConfig>, now: u64) -> Supervisor {
    let mut sup = Supervisor::new(services).unwrap();
    let mut n = 0;
    while let Some(idx) = sup.next_initial_start() {
        assert!(!sup.is_running(idx));
        sup.record_start(idx, 100 + n, now);
        n += 1;
    }
    sup
}

#[test]
fn initial_starts_follow_the_start_order() {
    let mut sup = Supervisor::new(vec![
        svc("web", &["db"], RestartPolicy::Always),
        svc("db", &[], RestartPolicy::Always),
        svc("cache", &[], RestartPolicy::Always),
    ])
    .unwrap();
    assert_eq!(sup.start_order, vec![1, 2, 0]);
    let mut seen = Vec::new();
    while let Some(idx) = sup.next_initial_start() {
        seen.push(idx);
        sup.record_start(idx, 10 + idx as i32, 0);
    }
    assert_eq!(seen, vec![1, 2, 0]);
    assert_eq!(sup.next_initial_start(), None);
}

#[test]
fn new_runtime_is_idle() {
    let rt = ServiceRuntime::new();
    assert_eq!(rt.last_start, None);
    assert_eq!(rt.restart_count, 0);
    assert_eq!(rt.next_restart_at, None);
    assert!(!has_pending_restarts(&[rt, rt]));
    let mut other = rt;
    other.next_restart_at = Some(5);
    assert!(has_pending_restarts(&[rt, other]));
}

#[test]
fn supervisor_refuses_cycles() {
    let services = vec![svc("a", &["b"], RestartPolicy::Always), svc("b", &["a"], RestartPolicy::Always)];
    assert!(Supervisor::new(services).is_err());
}

#[test]
fn initial_start_records_children() {
    let sup = started(vec![svc("b", &["a"], RestartPolicy::Always), svc("a", &[], RestartPolicy::Always)], 7);
    assert_eq!(sup.start_order, vec![1, 0]);
    assert_eq!(sup.runtimes[0].last_start, Some(7));
    assert_eq!(sup.runtimes[1].last_start, Some(7));
    assert!(sup.is_running(0) && sup.is_running(1));
    assert!(sup.should_continue());
    // Stop order is the reverse of the start order: b (pid 101) first.
    assert_eq!(sup.ordered_running_pids(), vec![101, 100]);
}

#[test]
fn unknown_child_changes_nothing() {
    let mut sup = started(vec![svc("a", &[], RestartPolicy::Always)], 0);
    assert_eq!(sup.child_exited(999, ChildStatus::Exited(0), false, 5), ExitOutcome::Unmanaged);
    assert!(sup.is_running(0));
}

#[test]
fn failed_service_is_scheduled_again() {
    let mut sup = started(vec![svc("a", &[], RestartPolicy::OnFailure)], 0);
    let now = 10 * NANOS_PER_SEC;
    assert!(!sup.restart_counter_exhausted(100, ChildStatus::Exited(3), false, now));
    let outcome = sup.child_exited(100, ChildStatus::Exited(3), false, now);
    assert_eq!(outcome, ExitOutcome::RestartScheduled { service: 0, delay_secs: 2 });
    assert_eq!(sup.runtimes[0].next_restart_at, Some(now + 2 * NANOS_PER_SEC));
    assert_eq!(sup.runtimes[0].restart_count, 1);
    assert!(!sup.is_running(0));
    assert!(sup.should_continue());
    // Not due yet, then due.
    assert_eq!(sup.next_ready_service(0, now + NANOS_PER_SEC), None);
    assert_eq!(sup.next_ready_service(0, now + 2 * NANOS_PER_SEC), Some(0));
    sup.record_start(0, 200, now + 2 * NANOS_PER_SEC);
    assert_eq!(sup.runtimes[0].next_restart_at, None);
    assert_eq!(sup.runtimes[0].last_start, Some(now + 2 * NANOS_PER_SEC));
    assert!(sup.is_running(0));
}

#[test]
fn clean_exit_under_on_failure_stays_stopped() {
    let mut sup = started(vec![svc("a", &[], RestartPolicy::OnFailure)], 0);
    let outcome = sup.child_exited(100, ChildStatus::Exited(0), false, 5);
    assert_eq!(outcome, ExitOutcome::Stopped { service: 0 });
    assert!(!sup.should_continue());
}

#[test]
fn no_restart_during_shutdown() {
    let mut sup = started(vec![svc("a", &[], RestartPolicy::Always)], 0);
    let outcome = sup.child_exited(100, ChildStatus::Signaled(15), true, 5);
    assert_eq!(outcome, ExitOutcome::Stopped { service: 0 });
    assert_eq!(sup.runtimes[0].next_restart_at, None);
}

#[test]
fn respawn_limit_keeps_service_stopped() {
    let mut s = svc("a", &[], RestartPolicy::Always);
    s.respawn_max = 1;
    let mut sup = started(vec![s], 0);
    let outcome = sup.child_exited(100, ChildStatus::Exited(1), false, NANOS_PER_SEC);
    assert_eq!(outcome, ExitOutcome::RestartScheduled { service: 0, delay_secs: 2 });
    sup.record_start(0, 101, 3 * NANOS_PER_SEC);
    let outcome = sup.child_exited(101, ChildStatus::Exited(1), false, 4 * NANOS_PER_SEC);
    assert_eq!(outcome, ExitOutcome::RespawnLimitReached { service: 0 });
    assert_eq!(sup.runtimes[0].next_restart_at, None);
}

#[test]
fn restart_waits_for_dependencies() {
    let mut sup = started(vec![svc("db", &[], RestartPolicy::Always), svc("web", &["db"], RestartPolicy::Always)], 0);
    // Both die; web is due first but db is not running.
    sup.child_exited(100, ChildStatus::Exited(1), false, NANOS_PER_SEC);
    sup.child_exited(101, ChildStatus::Exited(1), false, NANOS_PER_SEC);
    assert!(!sup.dependencies_ready(1));
    assert!(sup.dependencies_ready(0));
    let now = 10 * NANOS_PER_SEC;
    assert_eq!(sup.next_ready_service(0, now), Some(0));
    sup.record_start(0, 300, now);
    assert!(sup.dependencies_ready(1));
    assert_eq!(sup.next_ready_service(1, now), Some(1));
}

#[test]
fn shutdown_terms_then_kills_in_reverse_start_order() {
    let mut sup = started(vec![svc("a", &[], RestartPolicy::Always), svc("b", &["a"], RestartPolicy::Always)], 0);
    let now = 5 * NANOS_PER_SEC;
    assert_eq!(sup.begin_shutdown(now), Some(vec![101, 100]));
    assert_eq!(sup.shutdown_deadline, Some(now + SHUTDOWN_TIMEOUT_NS));
    assert_eq!(sup.begin_shutdown(now + 1), None);
    // Before the deadline nothing is killed.
    assert_eq!(sup.kill_overdue(now + SHUTDOWN_TIMEOUT_NS - 1), None);
    sup.child_exited(101, ChildStatus::Signaled(15), true, now + 2);
    assert_eq!(sup.kill_overdue(now + SHUTDOWN_TIMEOUT_NS), Some(vec![100]));
    assert_eq!(sup.shutdown_deadline, None);
    assert_eq!(sup.kill_overdue(now + 2 * SHUTDOWN_TIMEOUT_NS), None);
}

#[test]
fn pid_reuse_replaces_the_old_child() {
    let mut sup = started(vec![svc("a", &[], RestartPolicy::Never), svc("b", &[], RestartPolicy::Never)], 0);
    sup.child_exited(101, ChildStatus::Exited(0), false, 1);
    sup.record_start(1, 100, 2);
    assert!(!sup.is_running(0));
    assert!(sup.is_running(1));
    assert_eq!(sup.ordered_running_pids(), vec![100]);
}

#[test]
fn counter_exhaustion_is_detected() {
    let mut sup = started(vec![svc("a", &[], RestartPolicy::Always)], 0);
    sup.runtimes[0].restart_count = u32::MAX;
    assert!(sup.restart_counter_exhausted(100, ChildStatus::Exited(1), false, 1));
    assert!(!sup.restart_counter_exhausted(100, ChildStatus::Exited(1), true, 1));
    assert!(!sup.restart_counter_exhausted(100, ChildStatus::Exited(1), false, 61 * NANOS_PER_SEC));
}
