use vstd::prelude::*;

use crate::runtime::{
    after_exit, after_kill, after_shutdown, after_start, add_secs, dependencies_satisfied, first_due,
    fresh_runtime, is_first_due, is_first_unstarted, is_running, lemma_after_exit_wf, lemma_after_start_wf,
    lemma_shutdown_reaches_every_child, next_initial, shutdown_deadline_for, stop_order_pids, ExitOutcome,
    SupervisorView,
};
use crate::supervisor::{restart_wanted, ChildStatus};

verus! {

/// One step of the supervision loop, in the terms of the supervisor's
/// methods as the driving program performs them.
pub enum Step {
    /// `next_initial_start`, then the spawn of that service as `pid` and `record_start`.
    InitialStart { pid: i32, now_ns: u64 },
    /// `begin_shutdown` once the shutdown flag is seen.
    BeginShutdown { now_ns: u64 },
    /// `child_exited` for a reaped child.
    Exit { pid: i32, status: ChildStatus, shutdown_requested: bool, now_ns: u64 },
    /// `next_ready_service(from, now_ns)`, then the spawn of that service as `pid` and `record_start`.
    Respawn { from: usize, pid: i32, now_ns: u64 },
    /// `kill_overdue` on an idle pass.
    KillOverdue { now_ns: u64 },
}

/// What a step does outside the supervisor's state.
pub enum Effect {
    Nothing,
    /// The service was spawned.
    Started { service: usize },
    /// The termination signal goes to these processes, in this order.
    Term { pids: Seq<i32> },
    /// The kill signal goes to these processes, in this order.
    Kill { pids: Seq<i32> },
    /// A reaped child was recorded.
    Exited { outcome: ExitOutcome },
}

/// The state after a step, and its effect.
pub open spec fn apply(v: SupervisorView, step: Step) -> (SupervisorView, Effect) {
    match step {
        Step::InitialStart { pid, now_ns } => match next_initial(v) {
            Some(s) => (after_start(v, s, pid, now_ns), Effect::Started { service: s }),
            None => (v, Effect::Nothing),
        },
        Step::BeginShutdown { now_ns } => match after_shutdown(v, now_ns).1 {
            Some(pids) => (after_shutdown(v, now_ns).0, Effect::Term { pids }),
            None => (after_shutdown(v, now_ns).0, Effect::Nothing),
        },
        Step::Exit { pid, status, shutdown_requested, now_ns } => (
            after_exit(v, pid, status, shutdown_requested, now_ns).0,
            Effect::Exited { outcome: after_exit(v, pid, status, shutdown_requested, now_ns).1 },
        ),
        Step::Respawn { from, pid, now_ns } => match first_due(v, from as int, now_ns) {
            Some(s) => (after_start(v, s, pid, now_ns), Effect::Started { service: s }),
            None => (v, Effect::Nothing),
        },
        Step::KillOverdue { now_ns } => match after_kill(v, now_ns).1 {
            Some(pids) => (after_kill(v, now_ns).0, Effect::Kill { pids }),
            None => (after_kill(v, now_ns).0, Effect::Nothing),
        },
    }
}

/// The state before step `j` of `steps`, starting from `v`.
pub open spec fn state_at(v: SupervisorView, steps: Seq<Step>, j: int) -> SupervisorView
    decreases j,
{
    if j <= 0 {
        v
    } else {
        apply(state_at(v, steps, j - 1), steps[j - 1]).0
    }
}

/// The effect of step `j` of `steps`, starting from `v`.
pub open spec fn effect_at(v: SupervisorView, steps: Seq<Step>, j: int) -> Effect {
    apply(state_at(v, steps, j), steps[j]).1
}

/// The state of a supervisor just made by `Supervisor::new`.
pub open spec fn is_fresh(v: SupervisorView) -> bool {
    &&& v.wf()
    &&& forall|i: int| 0 <= i < v.runtimes.len() ==> #[trigger] v.runtimes[i] == fresh_runtime()
    &&& v.running.len() == 0
    &&& !v.shutdown_signal_sent
    &&& v.shutdown_deadline is None
}

/// Every step keeps the invariant and leaves the services and the start
/// order as they are.
pub proof fn lemma_apply_wf(v: SupervisorView, step: Step)
    requires
        v.wf(),
    ensures
        apply(v, step).0.wf(),
        apply(v, step).0.services == v.services,
        apply(v, step).0.start_order == v.start_order,
        apply(v, step).0.runtimes.len() == v.runtimes.len(),
        apply(v, step).1 matches Effect::Started { service } ==> service < v.services.len(),
{
    match step {
        Step::InitialStart { pid, now_ns } => {
            match next_initial(v) {
                Some(s) => {
                    let a = choose|a: int| is_first_unstarted(v, a);
                    assert(s == v.start_order[a]);
                    assert(s < v.services.len());
                    if is_running(v.running, s as int) {
                        let k = choose|k: int| 0 <= k < v.running.len() && (#[trigger] v.running[k]).service == s as int;
                        assert(v.runtimes[v.running[k].service as int].last_start is Some);
                    }
                    lemma_after_start_wf(v, s, pid, now_ns);
                },
                None => {},
            }
        },
        Step::Respawn { from, pid, now_ns } => {
            match first_due(v, from as int, now_ns) {
                Some(s) => {
                    let t = choose|t: int| is_first_due(v, from as int, now_ns, t);
                    assert(s as int == t);
                    if is_running(v.running, s as int) {
                        let k = choose|k: int| 0 <= k < v.running.len() && (#[trigger] v.running[k]).service == s as int;
                        assert(v.runtimes[v.running[k].service as int].next_restart_at is None);
                    }
                    lemma_after_start_wf(v, s, pid, now_ns);
                },
                None => {},
            }
        },
        Step::Exit { pid, status, shutdown_requested, now_ns } => {
            lemma_after_exit_wf(v, pid, status, shutdown_requested, now_ns);
        },
        _ => {},
    }
}

/// Along any run of steps the invariant holds and the services and the
/// start order stay as they are.
pub proof fn lemma_trace_wf(v: SupervisorView, steps: Seq<Step>, j: int)
    requires
        v.wf(),
        0 <= j <= steps.len(),
    ensures
        state_at(v, steps, j).wf(),
        state_at(v, steps, j).services == v.services,
        state_at(v, steps, j).start_order == v.start_order,
        state_at(v, steps, j).runtimes.len() == v.runtimes.len(),
    decreases j,
{
    if j > 0 {
        lemma_trace_wf(v, steps, j - 1);
        lemma_apply_wf(state_at(v, steps, j - 1), steps[j - 1]);
    }
}

// ---------------------------------------------------------------------------
// Initial starts
// ---------------------------------------------------------------------------

proof fn lemma_initial_state(v: SupervisorView, steps: Seq<Step>, j: int)
    requires
        is_fresh(v),
        0 <= j <= steps.len(),
        forall|i: int| 0 <= i < steps.len() ==> #[trigger] steps[i] is InitialStart,
    ensures
        forall|a: int|
            0 <= a < v.start_order.len() ==> ((#[trigger] state_at(v, steps, j).runtimes[v.start_order[a] as int]).last_start
                is Some <==> a < j),
    decreases j,
{
    lemma_trace_wf(v, steps, j);
    let n = v.start_order.len() as int;
    if j > 0 {
        lemma_initial_state(v, steps, j - 1);
        lemma_trace_wf(v, steps, j - 1);
        let w = state_at(v, steps, j - 1);
        if j - 1 < n {
            assert(is_first_unstarted(w, j - 1));
            let c = choose|c: int| is_first_unstarted(w, c);
            assert(c == j - 1) by {
                if c < j - 1 {
                    assert(w.runtimes[w.start_order[c] as int].last_start is Some);
                } else if c > j - 1 {
                    assert(w.runtimes[w.start_order[j - 1] as int].last_start is Some);
                }
            }
            assert forall|a: int| 0 <= a < n implies ((#[trigger] state_at(v, steps, j).runtimes[v.start_order[a] as int]).last_start
                is Some <==> a < j) by {
                assert(v.start_order[a] < v.services.len());
                if a != j - 1 {
                    assert(v.start_order[a] != v.start_order[j - 1]);
                }
            }
        } else {
            if exists|c: int| is_first_unstarted(w, c) {
                let c = choose|c: int| is_first_unstarted(w, c);
                assert(w.runtimes[w.start_order[c] as int].last_start is Some);
            }
        }
    } else {
        assert forall|a: int| 0 <= a < n implies ((#[trigger] state_at(v, steps, j).runtimes[v.start_order[a] as int]).last_start
            is Some <==> a < j) by {
            assert(v.start_order[a] < v.services.len());
            assert(v.runtimes[v.start_order[a] as int] == fresh_runtime());
        }
    }
}

/// From a supervisor just made, the initial starts spawn the services in the
/// start order, one after the other, each once; once all are started there
/// is nothing more to start initially.
pub proof fn lemma_initial_starts_in_order(v: SupervisorView, steps: Seq<Step>, j: int)
    requires
        is_fresh(v),
        0 <= j < steps.len(),
        forall|i: int| 0 <= i < steps.len() ==> #[trigger] steps[i] is InitialStart,
    ensures
        j < v.start_order.len() ==> effect_at(v, steps, j) == (Effect::Started { service: v.start_order[j] }),
        j >= v.start_order.len() ==> effect_at(v, steps, j) == Effect::Nothing,
{
    lemma_initial_state(v, steps, j);
    lemma_trace_wf(v, steps, j);
    let w = state_at(v, steps, j);
    if j < v.start_order.len() {
        assert(is_first_unstarted(w, j));
        let c = choose|c: int| is_first_unstarted(w, c);
        assert(c == j) by {
            if c < j {
                assert(w.runtimes[w.start_order[c] as int].last_start is Some);
            } else if c > j {
                assert(w.runtimes[w.start_order[j] as int].last_start is Some);
            }
        }
    } else {
        if exists|c: int| is_first_unstarted(w, c) {
            let c = choose|c: int| is_first_unstarted(w, c);
            assert(w.runtimes[w.start_order[c] as int].last_start is Some);
        }
    }
}

// ---------------------------------------------------------------------------
// Shutdown
// ---------------------------------------------------------------------------

/// Once the termination signal went out, it stays sent.
proof fn lemma_sent_stays(v: SupervisorView, steps: Seq<Step>, j: int, j2: int)
    requires
        0 <= j <= j2 <= steps.len(),
        state_at(v, steps, j).shutdown_signal_sent,
    ensures
        state_at(v, steps, j2).shutdown_signal_sent,
    decreases j2,
{
    if j2 > j {
        lemma_sent_stays(v, steps, j, j2 - 1);
    }
}

/// Only a shutdown step sends the termination signal.
proof fn lemma_sent_only_by_shutdown(v: SupervisorView, steps: Seq<Step>, j: int)
    requires
        !v.shutdown_signal_sent,
        0 <= j <= steps.len(),
        state_at(v, steps, j).shutdown_signal_sent,
    ensures
        exists|i: int| 0 <= i < j && #[trigger] steps[i] is BeginShutdown,
    decreases j,
{
    if j > 0 {
        if steps[j - 1] is BeginShutdown {
        } else {
            lemma_sent_only_by_shutdown(v, steps, j - 1);
            let i = choose|i: int| 0 <= i < j - 1 && #[trigger] steps[i] is BeginShutdown;
        }
    }
}

/// The termination signal goes out at most once in a run.
pub proof fn lemma_term_at_most_once(v: SupervisorView, steps: Seq<Step>, j1: int, j2: int)
    requires
        0 <= j1 <= j2 < steps.len(),
        effect_at(v, steps, j1) is Term,
        effect_at(v, steps, j2) is Term,
    ensures
        j1 == j2,
{
    if j1 < j2 {
        lemma_sent_stays(v, steps, j1 + 1, j2);
    }
}

/// The first shutdown step of a run that started before any shutdown sends
/// the termination signal to every running child, once each, in the reverse
/// of the start order.
pub proof fn lemma_first_shutdown_terms_all(v: SupervisorView, steps: Seq<Step>, j: int)
    requires
        v.wf(),
        !v.shutdown_signal_sent,
        0 <= j < steps.len(),
        steps[j] is BeginShutdown,
        forall|i: int| 0 <= i < j ==> !(#[trigger] steps[i] is BeginShutdown),
    ensures
        effect_at(v, steps, j) == (Effect::Term {
            pids: stop_order_pids(v.start_order, state_at(v, steps, j).running),
        }),
        stop_order_pids(v.start_order, state_at(v, steps, j).running).no_duplicates(),
        forall|pid: i32|
            #[trigger] stop_order_pids(v.start_order, state_at(v, steps, j).running).contains(pid) <==> exists|k: int|
                0 <= k < state_at(v, steps, j).running.len() && state_at(v, steps, j).running[k].pid == pid,
{
    lemma_trace_wf(v, steps, j);
    if state_at(v, steps, j).shutdown_signal_sent {
        lemma_sent_only_by_shutdown(v, steps, j);
    }
    lemma_shutdown_reaches_every_child(state_at(v, steps, j));
}

/// A kill deadline exists only after a step that sent the termination
/// signal, and it is that step's time plus the shutdown timeout.
proof fn lemma_deadline_origin(v: SupervisorView, steps: Seq<Step>, j: int)
    requires
        v.shutdown_deadline is None,
        0 <= j <= steps.len(),
        state_at(v, steps, j).shutdown_deadline is Some,
    ensures
        exists|j0: int|
            0 <= j0 < j && #[trigger] effect_at(v, steps, j0) is Term && (steps[j0] matches Step::BeginShutdown {
                now_ns,
            } && state_at(v, steps, j).shutdown_deadline == Some(shutdown_deadline_for(now_ns))),
    decreases j,
{
    if j > 0 {
        let w = state_at(v, steps, j - 1);
        match steps[j - 1] {
            Step::BeginShutdown { now_ns } => {
                if w.shutdown_signal_sent {
                    lemma_deadline_origin(v, steps, j - 1);
                    let j0 = choose|j0: int|
                        0 <= j0 < j - 1 && #[trigger] effect_at(v, steps, j0) is Term && (steps[j0] matches Step::BeginShutdown {
                            now_ns,
                        } && w.shutdown_deadline == Some(shutdown_deadline_for(now_ns)));
                } else {
                    assert(effect_at(v, steps, j - 1) is Term);
                }
            },
            _ => {
                lemma_deadline_origin(v, steps, j - 1);
                let j0 = choose|j0: int|
                    0 <= j0 < j - 1 && #[trigger] effect_at(v, steps, j0) is Term && (steps[j0] matches Step::BeginShutdown {
                        now_ns,
                    } && w.shutdown_deadline == Some(shutdown_deadline_for(now_ns)));
            },
        }
    }
}

/// The kill signal goes out only after the termination signal, and only
/// once the shutdown timeout has passed since it.
pub proof fn lemma_kill_after_timeout(v: SupervisorView, steps: Seq<Step>, j: int)
    requires
        v.shutdown_deadline is None,
        0 <= j < steps.len(),
        effect_at(v, steps, j) is Kill,
    ensures
        exists|j0: int|
            0 <= j0 < j && #[trigger] effect_at(v, steps, j0) is Term && (steps[j0] matches Step::BeginShutdown {
                now_ns: t0,
            } && steps[j] matches Step::KillOverdue { now_ns: t } && t >= shutdown_deadline_for(t0)),
{
    lemma_deadline_origin(v, steps, j);
}

/// After the kill signal went out, no kill deadline remains.
proof fn lemma_no_deadline_after_kill(v: SupervisorView, steps: Seq<Step>, j1: int, j: int)
    requires
        v.shutdown_deadline is None,
        0 <= j1 < j <= steps.len(),
        effect_at(v, steps, j1) is Kill,
    ensures
        state_at(v, steps, j).shutdown_deadline is None,
    decreases j,
{
    lemma_kill_after_timeout(v, steps, j1);
    let j0 = choose|j0: int|
        0 <= j0 < j1 && #[trigger] effect_at(v, steps, j0) is Term && (steps[j0] matches Step::BeginShutdown {
            now_ns: t0,
        } && steps[j1] matches Step::KillOverdue { now_ns: t } && t >= shutdown_deadline_for(t0));
    lemma_sent_stays(v, steps, j0 + 1, j - 1);
    if j > j1 + 1 {
        lemma_no_deadline_after_kill(v, steps, j1, j - 1);
    }
}

/// The kill signal goes out at most once in a run.
pub proof fn lemma_kill_at_most_once(v: SupervisorView, steps: Seq<Step>, j1: int, j2: int)
    requires
        v.shutdown_deadline is None,
        0 <= j1 <= j2 < steps.len(),
        effect_at(v, steps, j1) is Kill,
        effect_at(v, steps, j2) is Kill,
    ensures
        j1 == j2,
{
    if j1 < j2 {
        lemma_no_deadline_after_kill(v, steps, j1, j2);
    }
}

/// Between the termination signal at step `j0` and a step `j` with no kill
/// signal in between, the kill deadline stays at `j0`'s time plus the timeout.
proof fn lemma_deadline_kept(v: SupervisorView, steps: Seq<Step>, j0: int, j: int, t0: u64)
    requires
        0 <= j0 < j <= steps.len(),
        effect_at(v, steps, j0) is Term,
        steps[j0] == (Step::BeginShutdown { now_ns: t0 }),
        forall|i: int| j0 < i < j ==> !(#[trigger] effect_at(v, steps, i) is Kill),
    ensures
        state_at(v, steps, j).shutdown_deadline == Some(shutdown_deadline_for(t0)),
        state_at(v, steps, j).shutdown_signal_sent,
    decreases j,
{
    if j > j0 + 1 {
        lemma_deadline_kept(v, steps, j0, j - 1, t0);
        assert(!(effect_at(v, steps, j - 1) is Kill));
    }
}

/// When the shutdown timeout has passed since the termination signal and
/// children still run, the first kill check sends the kill signal to every
/// running child, once each, in the reverse of the start order.
pub proof fn lemma_kill_when_overdue(v: SupervisorView, steps: Seq<Step>, j0: int, j: int, t0: u64, t: u64)
    requires
        v.wf(),
        0 <= j0 < j < steps.len(),
        effect_at(v, steps, j0) is Term,
        steps[j0] == (Step::BeginShutdown { now_ns: t0 }),
        steps[j] == (Step::KillOverdue { now_ns: t }),
        t >= shutdown_deadline_for(t0),
        state_at(v, steps, j).running.len() > 0,
        forall|i: int| j0 < i < j ==> !(#[trigger] effect_at(v, steps, i) is Kill),
    ensures
        effect_at(v, steps, j) == (Effect::Kill {
            pids: stop_order_pids(v.start_order, state_at(v, steps, j).running),
        }),
        forall|pid: i32|
            #[trigger] stop_order_pids(v.start_order, state_at(v, steps, j).running).contains(pid) <==> exists|k: int|
                0 <= k < state_at(v, steps, j).running.len() && state_at(v, steps, j).running[k].pid == pid,
{
    lemma_deadline_kept(v, steps, j0, j, t0);
    lemma_trace_wf(v, steps, j);
    lemma_shutdown_reaches_every_child(state_at(v, steps, j));
}

// ---------------------------------------------------------------------------
// Restarts
// ---------------------------------------------------------------------------

/// After the exit of service `i` at step `j1`, and as long as `i` is not
/// started again, `i` does not run and what is remembered of it stays as the
/// exit left it.
proof fn lemma_after_exit_kept(v: SupervisorView, steps: Seq<Step>, j1: int, j: int, i: usize)
    requires
        v.wf(),
        0 <= j1 < j <= steps.len(),
        effect_at(v, steps, j1) matches Effect::Exited { outcome } && outcome != ExitOutcome::Unmanaged
            && exit_service(outcome) == i,
        forall|k: int| j1 < k < j ==> #[trigger] effect_at(v, steps, k) != (Effect::Started { service: i }),
    ensures
        !is_running(state_at(v, steps, j).running, i as int),
        state_at(v, steps, j).runtimes[i as int] == state_at(v, steps, j1 + 1).runtimes[i as int],
        i < v.services.len(),
    decreases j,
{
    lemma_trace_wf(v, steps, j1);
    let w = state_at(v, steps, j1);
    match steps[j1] {
        Step::Exit { pid, status, shutdown_requested, now_ns } => {
            let k = pid_index_witness(w, pid);
            assert(w.running[k].service == i);
            assert(i < v.services.len());
            if j == j1 + 1 {
                let u = state_at(v, steps, j);
                assert(u.running == w.running.remove(k));
                if is_running(u.running, i as int) {
                    let c = choose|c: int| 0 <= c < u.running.len() && (#[trigger] u.running[c]).service == i as int;
                    let d = if c < k { c } else { c + 1 };
                    assert(u.running[c] == w.running[d]);
                }
            } else {
                lemma_after_exit_kept(v, steps, j1, j - 1, i);
                lemma_trace_wf(v, steps, j - 1);
                let p = state_at(v, steps, j - 1);
                let u = state_at(v, steps, j);
                assert(effect_at(v, steps, j - 1) != (Effect::Started { service: i }));
                lemma_apply_wf(p, steps[j - 1]);
                match steps[j - 1] {
                    Step::InitialStart { pid: pid2, now_ns: t2 } => {
                        lemma_start_keeps(p, next_initial(p), pid2, t2, i);
                    },
                    Step::Respawn { from, pid: pid2, now_ns: t2 } => {
                        lemma_start_keeps(p, first_due(p, from as int, t2), pid2, t2, i);
                    },
                    Step::Exit { pid: pid2, status: st2, shutdown_requested: sh2, now_ns: t2 } => {
                        match crate::runtime::pid_index(p.running, pid2) {
                            Some(k2) => {
                                assert(0 <= k2 < p.running.len() && p.running[k2].pid == pid2);
                                assert(p.running[k2].service != i);
                                assert(u.running == p.running.remove(k2));
                                if is_running(u.running, i as int) {
                                    let c = choose|c: int| 0 <= c < u.running.len() && (#[trigger] u.running[c]).service == i as int;
                                    let d = if c < k2 { c } else { c + 1 };
                                    assert(u.running[c] == p.running[d]);
                                }
                            },
                            None => {},
                        }
                    },
                    _ => {},
                }
            }
        },
        _ => {},
    }
}

/// The service an exit outcome is about.
pub open spec fn exit_service(outcome: ExitOutcome) -> usize {
    match outcome {
        ExitOutcome::Unmanaged => 0,
        ExitOutcome::Stopped { service } => service,
        ExitOutcome::RestartScheduled { service, .. } => service,
        ExitOutcome::RespawnLimitReached { service } => service,
    }
}

/// An exit that is not unmanaged concerns a recorded child.
proof fn pid_index_witness(w: SupervisorView, pid: i32) -> (k: int)
    requires
        crate::runtime::pid_index(w.running, pid) is Some,
    ensures
        crate::runtime::pid_index(w.running, pid) == Some(k),
        0 <= k < w.running.len(),
        w.running[k].pid == pid,
{
    crate::runtime::pid_index(w.running, pid)->0
}

/// Starting a service other than `i` leaves `i` not running and its
/// runtime as it was.
proof fn lemma_start_keeps(p: SupervisorView, started: Option<usize>, pid: i32, now_ns: u64, i: usize)
    requires
        (i as int) < p.runtimes.len(),
        started matches Some(s) ==> (s as int) < p.runtimes.len(),
        !is_running(p.running, i as int),
        started != Some(i),
    ensures
        ({
            let u = match started {
                Some(s) => after_start(p, s, pid, now_ns),
                None => p,
            };
            &&& !is_running(u.running, i as int)
            &&& u.runtimes[i as int] == p.runtimes[i as int]
        }),
{
    if let Some(s) = started {
        let u = after_start(p, s, pid, now_ns);
        let mid = match crate::runtime::pid_index(p.running, pid) {
            Some(k) => p.running.remove(k),
            None => p.running,
        };
        assert(u.running == mid.push(crate::runtime::RunningChild { pid, service: s }));
        if is_running(u.running, i as int) {
            let c = choose|c: int| 0 <= c < u.running.len() && (#[trigger] u.running[c]).service == i as int;
            if c < mid.len() {
                match crate::runtime::pid_index(p.running, pid) {
                    Some(k) => {
                        let d = if c < k { c } else { c + 1 };
                        assert(mid[c] == p.running[d]);
                    },
                    None => {
                        assert(mid[c] == p.running[c]);
                    },
                }
            }
        }
    }
}

/// A service that exited is spawned again only when its exit scheduled a
/// restart: no shutdown was asked for, its policy wants a restart and its
/// limit allows one. The next spawn of it is a restart no earlier than the
/// scheduled delay after the exit, when its dependencies are satisfied.
pub proof fn lemma_restart_only_when_scheduled(v: SupervisorView, steps: Seq<Step>, j1: int, j2: int, i: usize)
    requires
        v.wf(),
        0 <= j1 < j2 < steps.len(),
        effect_at(v, steps, j1) matches Effect::Exited { outcome } && outcome != ExitOutcome::Unmanaged
            && exit_service(outcome) == i,
        effect_at(v, steps, j2) == (Effect::Started { service: i }),
        forall|k: int| j1 < k < j2 ==> #[trigger] effect_at(v, steps, k) != (Effect::Started { service: i }),
    ensures
        steps[j1] matches Step::Exit { status, shutdown_requested, now_ns: t1, .. } && !shutdown_requested
            && restart_wanted(status, v.services[i as int].restart),
        effect_at(v, steps, j1) matches Effect::Exited { outcome } && outcome matches ExitOutcome::RestartScheduled {
            delay_secs,
            ..
        } && steps[j1] matches Step::Exit { now_ns: t1, .. } && steps[j2] matches Step::Respawn { now_ns: t2, .. }
            && t2 >= add_secs(t1, delay_secs),
        dependencies_satisfied(v.services, state_at(v, steps, j2).running, i as int),
{
    lemma_after_exit_kept(v, steps, j1, j2, i);
    lemma_trace_wf(v, steps, j1);
    lemma_trace_wf(v, steps, j2);
    let w = state_at(v, steps, j1);
    let u = state_at(v, steps, j2);
    match steps[j1] {
        Step::Exit { pid, status, shutdown_requested, now_ns } => {
            let k = pid_index_witness(w, pid);
            // Before the exit the service ran: a recorded start, no pending restart.
            assert(w.runtimes[w.running[k].service as int].last_start is Some);
            assert(w.runtimes[w.running[k].service as int].next_restart_at is None);
            match steps[j2] {
                Step::InitialStart { pid: p2, now_ns: t2 } => {
                    let a = choose|a: int| is_first_unstarted(u, a);
                    assert(u.start_order[a] == i);
                },
                Step::Respawn { from, pid: p2, now_ns: t2 } => {
                    let t = choose|t: int| is_first_due(u, from as int, t2, t);
                    assert(t == i as int);
                },
                _ => {},
            }
        },
        _ => {},
    }
}

/// A service whose exit scheduled no restart is never spawned again.
pub proof fn lemma_stopped_stays_stopped(v: SupervisorView, steps: Seq<Step>, j1: int, j: int, i: usize)
    requires
        v.wf(),
        0 <= j1 < j < steps.len(),
        effect_at(v, steps, j1) matches Effect::Exited { outcome } && outcome != ExitOutcome::Unmanaged
            && exit_service(outcome) == i && !(outcome is RestartScheduled),
    ensures
        effect_at(v, steps, j) != (Effect::Started { service: i }),
    decreases j,
{
    if j > j1 + 1 {
        lemma_stopped_stays_stopped(v, steps, j1, j - 1, i);
    }
    if effect_at(v, steps, j) == (Effect::Started { service: i }) {
        assert forall|k: int| j1 < k < j implies #[trigger] effect_at(v, steps, k) != (Effect::Started {
            service: i,
        }) by {
            lemma_stopped_stays_stopped(v, steps, j1, k, i);
        }
        lemma_restart_only_when_scheduled(v, steps, j1, j, i);
    }
}

} // verus!
