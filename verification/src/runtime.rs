use vstd::prelude::*;

use crate::deps::{
    lemma_distinct_indices, dep_view, find_provider, is_queue_order, is_start_order, provides_token, refusal_explained, resolve_start_order, DepsError,
};
use crate::service::ServiceConfig;
use crate::supervisor::{
    backoff_delay, effective_count, limit_reached, next_restart_delay, restart_decision, restart_wanted, should_restart,
    window_passed, ChildStatus, NANOS_PER_SEC,
};

verus! {

/// How long, in nanoseconds, services get between the termination signal and
/// the kill signal at shutdown.
pub const SHUTDOWN_TIMEOUT_NS: u64 = 30_000_000_000;

/// What the supervisor remembers of one service between its runs.
#[derive(Clone, Copy, Debug, PartialEq, Eq, Structural)]
pub struct ServiceRuntime {
    /// When the service was last started (nanoseconds).
    pub last_start: Option<u64>,
    /// Quick restarts counted inside the current respawn window.
    pub restart_count: u32,
    /// When the service is due to be started again (nanoseconds).
    pub next_restart_at: Option<u64>,
}

impl ServiceRuntime {
    /// A service that has never run.
    pub fn new() -> (rt: Self)
        ensures
            rt.last_start is None,
            rt.restart_count == 0,
            rt.next_restart_at is None,
    {
        ServiceRuntime { last_start: None, restart_count: 0, next_restart_at: None }
    }
}

/// What is remembered of a service that has never run.
pub open spec fn fresh_runtime() -> ServiceRuntime {
    ServiceRuntime { last_start: None, restart_count: 0, next_restart_at: None }
}

/// Some service is waiting to be started again.
pub open spec fn pending_restart(runtimes: Seq<ServiceRuntime>) -> bool {
    exists|i: int| 0 <= i < runtimes.len() && (#[trigger] runtimes[i]).next_restart_at is Some
}

/// Whether some service is waiting to be started again.
pub fn has_pending_restarts(runtimes: &[ServiceRuntime]) -> (res: bool)
    ensures
        res == pending_restart(runtimes@),
{
    let mut i: usize = 0;
    while i < runtimes.len()
        invariant
            0 <= i <= runtimes@.len(),
            forall|k: int| 0 <= k < i ==> (#[trigger] runtimes@[k]).next_restart_at is None,
        decreases runtimes@.len() - i,
    {
        if runtimes[i].next_restart_at.is_some() {
            return true;
        }
        i = i + 1;
    }
    false
}

/// A running child process and the service it runs.
#[derive(Clone, Copy, Debug, PartialEq, Eq, Structural)]
pub struct RunningChild {
    pub pid: i32,
    pub service: usize,
}

/// Some running child runs service `s`.
pub open spec fn is_running(running: Seq<RunningChild>, s: int) -> bool {
    exists|k: int| 0 <= k < running.len() && (#[trigger] running[k]).service == s
}

/// The process id of the child that runs service `s` (meaningful when it runs).
pub open spec fn pid_of(running: Seq<RunningChild>, s: int) -> i32 {
    running[choose|k: int| 0 <= k < running.len() && (#[trigger] running[k]).service == s].pid
}

/// The process ids of the running services, in the reverse of `order`.
pub open spec fn stop_order_pids(order: Seq<usize>, running: Seq<RunningChild>) -> Seq<i32>
    decreases order.len(),
{
    if order.len() == 0 {
        Seq::empty()
    } else {
        let s = order.last() as int;
        let rest = stop_order_pids(order.drop_last(), running);
        if is_running(running, s) {
            seq![pid_of(running, s)] + rest
        } else {
            rest
        }
    }
}

/// `p` is the first service that provides `token`.
pub open spec fn is_first_provider(services: Seq<ServiceConfig>, token: Seq<char>, p: int) -> bool {
    &&& 0 <= p < services.len()
    &&& provides_token(services[p], token)
    &&& forall|q: int| 0 <= q < p ==> !provides_token(#[trigger] services[q], token)
}

/// The `j`-th dependency of service `s` is satisfied: its first provider is
/// `s` itself or is running.
pub open spec fn dependency_satisfied(
    services: Seq<ServiceConfig>,
    running: Seq<RunningChild>,
    s: int,
    j: int,
) -> bool {
    exists|p: int|
        #[trigger] is_first_provider(services, dep_view(services, s, j), p) && (p == s || is_running(
            running,
            p,
        ))
}

/// Every dependency of service `s` is satisfied.
pub open spec fn dependencies_satisfied(services: Seq<ServiceConfig>, running: Seq<RunningChild>, s: int) -> bool {
    forall|j: int|
        0 <= j < services[s].depends@.len() ==> #[trigger] dependency_satisfied(services, running, s, j)
}

/// `now_ns` plus `secs` seconds, saturated at `u64::MAX`.
pub open spec fn add_secs(now_ns: u64, secs: u64) -> u64 {
    if now_ns + secs * NANOS_PER_SEC > u64::MAX {
        u64::MAX
    } else {
        (now_ns + secs * NANOS_PER_SEC) as u64
    }
}

/// `now_ns` plus the shutdown timeout, saturated at `u64::MAX`.
pub open spec fn shutdown_deadline_for(now_ns: u64) -> u64 {
    if now_ns + SHUTDOWN_TIMEOUT_NS > u64::MAX {
        u64::MAX
    } else {
        (now_ns + SHUTDOWN_TIMEOUT_NS) as u64
    }
}

/// What became of a child that exited.
#[derive(Clone, Copy, Debug, PartialEq, Eq, Structural)]
pub enum ExitOutcome {
    /// The process is not one the supervisor started.
    Unmanaged,
    /// The service stays stopped: its policy or a shutdown says so.
    Stopped { service: usize },
    /// The service will be started again after `delay_secs` seconds.
    RestartScheduled { service: usize, delay_secs: u64 },
    /// The service reached its restart limit and stays stopped.
    RespawnLimitReached { service: usize },
}

/// The state of the supervisor: the services, the order they were started
/// in, what it remembers of each, the running children and where a shutdown is.
pub struct Supervisor {
    pub services: Vec<ServiceConfig>,
    pub start_order: Vec<usize>,
    pub runtimes: Vec<ServiceRuntime>,
    pub running: Vec<RunningChild>,
    pub shutdown_signal_sent: bool,
    pub shutdown_deadline: Option<u64>,
}

/// The supervisor's state as plain mathematical values.
pub struct SupervisorView {
    pub services: Seq<ServiceConfig>,
    pub start_order: Seq<usize>,
    pub runtimes: Seq<ServiceRuntime>,
    pub running: Seq<RunningChild>,
    pub shutdown_signal_sent: bool,
    pub shutdown_deadline: Option<u64>,
}

impl View for Supervisor {
    type V = SupervisorView;

    open spec fn view(&self) -> SupervisorView {
        SupervisorView {
            services: self.services@,
            start_order: self.start_order@,
            runtimes: self.runtimes@,
            running: self.running@,
            shutdown_signal_sent: self.shutdown_signal_sent,
            shutdown_deadline: self.shutdown_deadline,
        }
    }
}

impl SupervisorView {
    /// The supervisor's invariant: one runtime per service; the start order is
    /// a start order of the services; every running child runs a known
    /// service, no service runs twice and no process id occurs twice; a running
    /// service has a recorded start and no restart pending; a kill deadline
    /// exists only once the termination signal went out. (The number of
    /// services fits a `usize`, as it does for any vector.)
    pub open spec fn wf(self) -> bool {
        &&& self.services.len() <= usize::MAX
        &&& self.runtimes.len() == self.services.len()
        &&& is_start_order(self.services, self.start_order)
        &&& forall|k: int| 0 <= k < self.running.len() ==> (#[trigger] self.running[k]).service < self.services.len()
        &&& forall|k1: int, k2: int|
            0 <= k1 < self.running.len() && 0 <= k2 < self.running.len() && k1 != k2 ==> {
                &&& (#[trigger] self.running[k1]).service != (#[trigger] self.running[k2]).service
                &&& self.running[k1].pid != self.running[k2].pid
            }
        &&& forall|k: int|
            0 <= k < self.running.len() ==> {
                &&& self.runtimes[(#[trigger] self.running[k]).service as int].last_start is Some
                &&& self.runtimes[self.running[k].service as int].next_restart_at is None
            }
        &&& self.shutdown_deadline is Some ==> self.shutdown_signal_sent
    }

    /// Service `s` is due to be started again at `now_ns`: its restart time
    /// has come and its dependencies are satisfied.
    pub open spec fn restart_due(self, s: int, now_ns: u64) -> bool {
        &&& self.runtimes[s].next_restart_at matches Some(t) && now_ns >= t
        &&& dependencies_satisfied(self.services, self.running, s)
    }

    /// The restart counter of the service that ran as `pid` would have to go
    /// past `u32::MAX` if that exit were recorded at `now_ns`.
    pub open spec fn counter_exhausted(self, pid: i32, status: ChildStatus, shutdown_requested: bool, now_ns: u64) -> bool {
        match pid_index(self.running, pid) {
            None => false,
            Some(k) => {
                let s = self.running[k].service as int;
                let service = self.services[s];
                let rt = self.runtimes[s];
                &&& !shutdown_requested
                &&& restart_wanted(status, service.restart)
                &&& service.respawn_max == 0
                &&& !window_passed(now_ns, rt.last_start->0, service.respawn_window_secs)
                &&& rt.restart_count == u32::MAX
            },
        }
    }
}

impl Supervisor {
    /// The supervisor's invariant; see `SupervisorView::wf`.
    pub open spec fn wf(&self) -> bool {
        self@.wf()
    }

    /// A supervisor for `services`, with the order in which to start them;
    /// nothing runs yet. It fails as `resolve_start_order` does.
    pub fn new(services: Vec<ServiceConfig>) -> (res: Result<Self, DepsError>)
        ensures
            match res {
                Ok(sup) => {
                    &&& sup.wf()
                    &&& is_queue_order(sup.services@, sup.start_order@)
                    &&& sup.services@ == services@
                    &&& forall|i: int| 0 <= i < sup.runtimes@.len() ==> #[trigger] sup.runtimes@[i] == fresh_runtime()
                    &&& sup.running@.len() == 0
                    &&& !sup.shutdown_signal_sent
                    &&& sup.shutdown_deadline is None
                },
                Err(e) => refusal_explained(services@, e),
            },
    {
        let count = services.len();
        let start_order = match resolve_start_order(services.as_slice()) {
            Ok(order) => order,
            Err(e) => {
                return Err(e);
            },
        };
        let mut runtimes: Vec<ServiceRuntime> = Vec::new();
        let mut i: usize = 0;
        while i < services.len()
            invariant
                0 <= i <= services@.len(),
                runtimes@.len() == i,
                forall|k: int| 0 <= k < i ==> #[trigger] runtimes@[k] == fresh_runtime(),
            decreases services@.len() - i,
        {
            runtimes.push(ServiceRuntime::new());
            i = i + 1;
        }
        Ok(Supervisor {
            services,
            start_order,
            runtimes,
            running: Vec::new(),
            shutdown_signal_sent: false,
            shutdown_deadline: None,
        })
    }

    /// Whether service `s` has a running child.
    pub fn is_running(&self, s: usize) -> (res: bool)
        ensures
            res == is_running(self.running@, s as int),
    {
        let mut k: usize = 0;
        while k < self.running.len()
            invariant
                0 <= k <= self.running@.len(),
                forall|i: int| 0 <= i < k ==> (#[trigger] self.running@[i]).service != s,
            decreases self.running@.len() - k,
        {
            if self.running[k].service == s {
                return true;
            }
            k = k + 1;
        }
        false
    }

    /// The position in `running` of the child with process id `pid`.
    fn position_of_pid(&self, pid: i32) -> (res: Option<usize>)
        ensures
            match res {
                Some(k) => k < self.running@.len() && self.running@[k as int].pid == pid,
                None => forall|k: int| 0 <= k < self.running@.len() ==> (#[trigger] self.running@[k]).pid != pid,
            },
    {
        let mut k: usize = 0;
        while k < self.running.len()
            invariant
                0 <= k <= self.running@.len(),
                forall|i: int| 0 <= i < k ==> (#[trigger] self.running@[i]).pid != pid,
            decreases self.running@.len() - k,
        {
            if self.running[k].pid == pid {
                return Some(k);
            }
            k = k + 1;
        }
        None
    }

    /// The position in `running` of the child that runs service `s`.
    fn position_of_service(&self, s: usize) -> (res: Option<usize>)
        ensures
            match res {
                Some(k) => k < self.running@.len() && self.running@[k as int].service == s,
                None => !is_running(self.running@, s as int),
            },
    {
        let mut k: usize = 0;
        while k < self.running.len()
            invariant
                0 <= k <= self.running@.len(),
                forall|i: int| 0 <= i < k ==> (#[trigger] self.running@[i]).service != s,
            decreases self.running@.len() - k,
        {
            if self.running[k].service == s {
                return Some(k);
            }
            k = k + 1;
        }
        None
    }

    /// Whether supervision goes on: a child runs or a restart is pending.
    pub fn should_continue(&self) -> (res: bool)
        ensures
            res == (self.running@.len() > 0 || pending_restart(self.runtimes@)),
    {
        self.running.len() > 0 || has_pending_restarts(self.runtimes.as_slice())
    }

    /// The process ids of the running children, in the reverse of the start order.
    pub fn ordered_running_pids(&self) -> (pids: Vec<i32>)
        requires
            self.wf(),
        ensures
            pids@ == stop_order_pids(self.start_order@, self.running@),
    {
        let order = &self.start_order;
        let mut pids: Vec<i32> = Vec::new();
        let mut i: usize = order.len();
        proof {
            assert(order@.take(i as int) =~= order@);
            assert(pids@ + stop_order_pids(order@.take(i as int), self.running@) =~= stop_order_pids(
                order@,
                self.running@,
            ));
        }
        while i > 0
            invariant
                self.wf(),
                order == &self.start_order,
                0 <= i <= order@.len(),
                pids@ + stop_order_pids(order@.take(i as int), self.running@) == stop_order_pids(
                    order@,
                    self.running@,
                ),
            decreases i,
        {
            let s = order[i - 1];
            let ghost before = pids@;
            proof {
                assert(order@.take(i as int).drop_last() =~= order@.take(i - 1));
                assert(order@.take(i as int).last() == s);
            }
            let found = self.position_of_service(s);
            match found {
                Some(k) => {
                    proof {
                        lemma_service_index(self.running@, s as int, k as int);
                    }
                    pids.push(self.running[k].pid);
                    proof {
                        assert(pids@ =~= before + seq![pid_of(self.running@, s as int)]);
                        assert(stop_order_pids(order@.take(i as int), self.running@) == seq![pid_of(self.running@, s as int)]
                            + stop_order_pids(order@.take(i - 1), self.running@));
                        assert(before + stop_order_pids(order@.take(i as int), self.running@) =~= pids@
                            + stop_order_pids(order@.take(i - 1), self.running@));
                    }
                },
                None => {
                    proof {
                        assert(!is_running(self.running@, s as int));
                        assert(stop_order_pids(order@.take(i as int), self.running@) == stop_order_pids(
                            order@.take(i - 1),
                            self.running@,
                        ));
                    }
                },
            }
            i = i - 1;
        }
        proof {
            assert(order@.take(0) =~= Seq::<usize>::empty());
            assert(pids@ + Seq::<i32>::empty() =~= pids@);
        }
        pids
    }

    /// Whether every dependency of service `s` is provided by `s` itself or by
    /// a running service (the first service that provides the token counts).
    pub fn dependencies_ready(&self, s: usize) -> (res: bool)
        requires
            s < self.services@.len(),
        ensures
            res == dependencies_satisfied(self.services@, self.running@, s as int),
            res <==> forall|j: int|
                0 <= j < self.services@[s as int].depends@.len() ==> #[trigger] dependency_satisfied(
                    self.services@,
                    self.running@,
                    s as int,
                    j,
                ),
    {
        proof {
            lemma_dependencies_meaning(self.services@, self.running@, s as int);
        }
        let deps = &self.services[s].depends;
        let mut j: usize = 0;
        while j < deps.len()
            invariant
                s < self.services@.len(),
                deps == &self.services@[s as int].depends,
                0 <= j <= deps@.len(),
                forall|j2: int| 0 <= j2 < j ==> #[trigger] dependency_satisfied(self.services@, self.running@, s as int, j2),
            decreases deps@.len() - j,
        {
            let dep = &deps[j];
            assert(dep@ == dep_view(self.services@, s as int, j as int));
            match find_provider(self.services.as_slice(), self.services.len(), dep) {
                None => {
                    proof {
                        if dependency_satisfied(self.services@, self.running@, s as int, j as int) {
                            let p = choose|p: int|
                                is_first_provider(self.services@, dep_view(self.services@, s as int, j as int), p)
                                    && (p == s || is_running(self.running@, p));
                            assert(!provides_token(self.services@[p], dep@));
                        }
                        assert(!dependency_satisfied(self.services@, self.running@, s as int, j as int));
                    }
                    return false;
                },
                Some(p) => {
                    proof {
                        assert(is_first_provider(self.services@, dep@, p as int));
                        // The first provider is unique.
                        assert forall|q: int| is_first_provider(self.services@, dep@, q) implies q == p by {
                            if q < p {
                                assert(!provides_token(self.services@[q], dep@));
                            } else if q > p {
                                assert(!provides_token(self.services@[p as int], dep@));
                            }
                        }
                    }
                    if p != s && !self.is_running(p) {
                        proof {
                            assert(!dependency_satisfied(self.services@, self.running@, s as int, j as int));
                        }
                        return false;
                    }
                    proof {
                        assert(is_first_provider(self.services@, dep_view(self.services@, s as int, j as int), p as int));
                        assert(p == s || is_running(self.running@, p as int));
                        assert(dependency_satisfied(self.services@, self.running@, s as int, j as int));
                    }
                },
            }
            j = j + 1;
        }
        true
    }

    /// Records that service `s` was started as process `pid` at `now_ns`.
    /// A child already recorded under the same process id is forgotten.
    pub fn record_start(&mut self, s: usize, pid: i32, now_ns: u64)
        requires
            old(self).wf(),
            s < old(self).services@.len(),
            !is_running(old(self).running@, s as int),
        ensures
            final(self).wf(),
            final(self).services == old(self).services,
            final(self).start_order == old(self).start_order,
            final(self).shutdown_signal_sent == old(self).shutdown_signal_sent,
            final(self).shutdown_deadline == old(self).shutdown_deadline,
            final(self).runtimes@ == old(self).runtimes@.update(
                s as int,
                (ServiceRuntime {
                    last_start: Some(now_ns),
                    restart_count: old(self).runtimes@[s as int].restart_count,
                    next_restart_at: None,
                }),
            ),
            final(self).running@ == match pid_index(old(self).running@, pid) {
                Some(k) => old(self).running@.remove(k),
                None => old(self).running@,
            }.push((RunningChild { pid, service: s })),
            final(self)@ == after_start(old(self)@, s, pid, now_ns),
    {
        let ghost old_running = self.running@;
        match self.position_of_pid(pid) {
            Some(k) => {
                proof {
                    lemma_pid_index(old_running, pid, k as int);
                }
                self.running.remove(k);
            },
            None => {},
        }
        let ghost mid = self.running@;
        self.running.push(RunningChild { pid, service: s });
        let mut rt = self.runtimes[s];
        rt.last_start = Some(now_ns);
        rt.next_restart_at = None;
        self.runtimes.set(s, rt);
        proof {
            assert(self.running@ == mid.push(RunningChild { pid, service: s }));
            assert(self@ == after_start(old(self)@, s, pid, now_ns));
            lemma_after_start_wf(old(self)@, s, pid, now_ns);
        }
    }
}

impl Supervisor {
    /// Starts a shutdown at `now_ns` unless one was started before: the
    /// termination signal goes to the running children in the reverse of the
    /// start order, and the kill deadline is set the shutdown timeout later.
    pub fn begin_shutdown(&mut self, now_ns: u64) -> (targets: Option<Vec<i32>>)
        requires
            old(self).wf(),
        ensures
            final(self).wf(),
            final(self).services == old(self).services,
            final(self).start_order == old(self).start_order,
            final(self).runtimes == old(self).runtimes,
            final(self).running == old(self).running,
            final(self).shutdown_signal_sent,
            old(self).shutdown_signal_sent ==> {
                &&& targets is None
                &&& final(self).shutdown_deadline == old(self).shutdown_deadline
            },
            !old(self).shutdown_signal_sent ==> {
                &&& targets matches Some(pids) && pids@ == stop_order_pids(old(self).start_order@, old(self).running@)
                &&& final(self).shutdown_deadline == Some(shutdown_deadline_for(now_ns))
            },
            (final(self)@, opt_pids(targets)) == after_shutdown(old(self)@, now_ns),
            targets matches Some(pids) ==> {
                &&& pids@.no_duplicates()
                &&& forall|pid: i32|
                    #[trigger] pids@.contains(pid) <==> exists|k: int| 0 <= k < old(self).running@.len() && old(self).running@[k].pid == pid
                &&& forall|a: int, b: int, ka: int, kb: int, ia: int, ib: int|
                    #![trigger pids@[a], pids@[b], old(self).running@[ka], old(self).running@[kb], old(self).start_order@[ia], old(self).start_order@[ib]]
                    {
                        &&& 0 <= a < b < pids@.len()
                        &&& 0 <= ka < old(self).running@.len() && old(self).running@[ka].pid == pids@[a]
                        &&& 0 <= kb < old(self).running@.len() && old(self).running@[kb].pid == pids@[b]
                        &&& 0 <= ia < old(self).start_order@.len() && old(self).running@[ka].service == old(self).start_order@[ia]
                        &&& 0 <= ib < old(self).start_order@.len() && old(self).running@[kb].service == old(self).start_order@[ib]
                    } ==> ib < ia
            },
    {
        proof {
            lemma_shutdown_reaches_every_child(self@);
        }
        if self.shutdown_signal_sent {
            return None;
        }
        let pids = self.ordered_running_pids();
        self.shutdown_signal_sent = true;
        let deadline = match now_ns.checked_add(SHUTDOWN_TIMEOUT_NS) {
            Some(t) => t,
            None => u64::MAX,
        };
        self.shutdown_deadline = Some(deadline);
        Some(pids)
    }

    /// Once the kill deadline has passed and children still run: the kill
    /// signal goes to them in the reverse of the start order, and the
    /// deadline is cleared.
    pub fn kill_overdue(&mut self, now_ns: u64) -> (targets: Option<Vec<i32>>)
        requires
            old(self).wf(),
        ensures
            final(self).wf(),
            final(self).services == old(self).services,
            final(self).start_order == old(self).start_order,
            final(self).runtimes == old(self).runtimes,
            final(self).running == old(self).running,
            final(self).shutdown_signal_sent == old(self).shutdown_signal_sent,
            (old(self).shutdown_deadline matches Some(d) && now_ns >= d && old(self).running@.len() > 0) ==> {
                &&& targets matches Some(pids) && pids@ == stop_order_pids(old(self).start_order@, old(self).running@)
                &&& final(self).shutdown_deadline is None
            },
            !(old(self).shutdown_deadline matches Some(d) && now_ns >= d && old(self).running@.len() > 0) ==> {
                &&& targets is None
                &&& final(self).shutdown_deadline == old(self).shutdown_deadline
            },
            (final(self)@, opt_pids(targets)) == after_kill(old(self)@, now_ns),
            targets matches Some(pids) ==> {
                &&& pids@.no_duplicates()
                &&& forall|pid: i32|
                    #[trigger] pids@.contains(pid) <==> exists|k: int| 0 <= k < old(self).running@.len() && old(self).running@[k].pid == pid
                &&& forall|a: int, b: int, ka: int, kb: int, ia: int, ib: int|
                    #![trigger pids@[a], pids@[b], old(self).running@[ka], old(self).running@[kb], old(self).start_order@[ia], old(self).start_order@[ib]]
                    {
                        &&& 0 <= a < b < pids@.len()
                        &&& 0 <= ka < old(self).running@.len() && old(self).running@[ka].pid == pids@[a]
                        &&& 0 <= kb < old(self).running@.len() && old(self).running@[kb].pid == pids@[b]
                        &&& 0 <= ia < old(self).start_order@.len() && old(self).running@[ka].service == old(self).start_order@[ia]
                        &&& 0 <= ib < old(self).start_order@.len() && old(self).running@[kb].service == old(self).start_order@[ib]
                    } ==> ib < ia
            },
    {
        proof {
            lemma_shutdown_reaches_every_child(self@);
        }
        match self.shutdown_deadline {
            Some(deadline) => {
                if now_ns >= deadline && self.running.len() > 0 {
                    let pids = self.ordered_running_pids();
                    self.shutdown_deadline = None;
                    return Some(pids);
                }
                None
            },
            None => None,
        }
    }

    /// The next service to start initially: the first in the start order
    /// that has never started.
    pub fn next_initial_start(&self) -> (res: Option<usize>)
        requires
            self.wf(),
        ensures
            res == next_initial(self@),
            res matches Some(s) ==> s < self.services@.len() && !is_running(self.running@, s as int),
    {
        let mut a: usize = 0;
        while a < self.start_order.len()
            invariant
                self.wf(),
                0 <= a <= self.start_order@.len(),
                forall|a2: int| 0 <= a2 < a ==> (#[trigger] self@.runtimes[self@.start_order[a2] as int]).last_start is Some,
            decreases self.start_order@.len() - a,
        {
            let s = self.start_order[a];
            assert(self.start_order@[a as int] < self.services@.len());
            if self.runtimes[s].last_start.is_none() {
                proof {
                    if is_running(self.running@, s as int) {
                        let k = choose|k: int| 0 <= k < self.running@.len() && (#[trigger] self.running@[k]).service == s as int;
                        assert(self.runtimes@[self.running@[k].service as int].last_start is Some);
                    }
                    assert(is_first_unstarted(self@, a as int));
                    let c = choose|c: int| is_first_unstarted(self@, c);
                    assert(c == a) by {
                        if c < a {
                            assert(self@.runtimes[self@.start_order[c] as int].last_start is Some);
                        } else if c > a {
                            assert(self@.runtimes[self@.start_order[a as int] as int].last_start is Some);
                        }
                    }
                }
                return Some(s);
            }
            a = a + 1;
        }
        proof {
            if exists|c: int| is_first_unstarted(self@, c) {
                let c = choose|c: int| is_first_unstarted(self@, c);
                assert(self@.runtimes[self@.start_order[c] as int].last_start is Some);
            }
        }
        None
    }

    /// Service `s` is due to be started again at `now_ns`; see `SupervisorView::restart_due`.
    pub open spec fn restart_due(&self, s: int, now_ns: u64) -> bool {
        self@.restart_due(s, now_ns)
    }

    /// The first service, from index `from` on, that is due to be started
    /// again at `now_ns`.
    pub fn next_ready_service(&self, from: usize, now_ns: u64) -> (res: Option<usize>)
        requires
            self.wf(),
        ensures
            match res {
                Some(s) => {
                    &&& from <= s < self.services@.len()
                    &&& self.restart_due(s as int, now_ns)
                    &&& !is_running(self.running@, s as int)
                    &&& forall|t: int| from <= t < s ==> !#[trigger] self.restart_due(t, now_ns)
                },
                None => forall|t: int| from <= t < self.services@.len() ==> !#[trigger] self.restart_due(t, now_ns),
            },
            res == first_due(self@, from as int, now_ns),
    {
        let mut s: usize = from;
        while s < self.services.len()
            invariant
                self.wf(),
                from <= s,
                forall|t: int| from <= t < s ==> !#[trigger] self.restart_due(t, now_ns),
            decreases self.services@.len() - s,
        {
            match self.runtimes[s].next_restart_at {
                Some(restart_at) => {
                    if now_ns >= restart_at && self.dependencies_ready(s) {
                        proof {
                            if is_running(self.running@, s as int) {
                                let k = choose|k: int| 0 <= k < self.running@.len() && (#[trigger] self.running@[k]).service == s as int;
                                assert(self.runtimes@[self.running@[k].service as int].next_restart_at is None);
                            }
                        }
                        proof {
                            assert forall|t2: int| from <= t2 < s implies !#[trigger] self@.restart_due(t2, now_ns) by {
                                assert(!self.restart_due(t2, now_ns));
                            }
                            assert(is_first_due(self@, from as int, now_ns, s as int));
                            let t = choose|t: int| is_first_due(self@, from as int, now_ns, t);
                            assert(t == s) by {
                                if t < s {
                                    assert(!self.restart_due(t, now_ns));
                                } else if t > s {
                                    assert(!self@.restart_due(s as int, now_ns));
                                }
                            }
                        }
                        return Some(s);
                    }
                },
                None => {},
            }
            s = s + 1;
        }
        proof {
            if exists|t: int| is_first_due(self@, from as int, now_ns, t) {
                let t = choose|t: int| is_first_due(self@, from as int, now_ns, t);
                assert(!self.restart_due(t, now_ns));
            }
        }
        None
    }

    /// See `SupervisorView::counter_exhausted`.
    pub open spec fn counter_exhausted(&self, pid: i32, status: ChildStatus, shutdown_requested: bool, now_ns: u64) -> bool {
        self@.counter_exhausted(pid, status, shutdown_requested, now_ns)
    }

    /// Whether recording this exit would push a restart counter past `u32::MAX`.
    pub fn restart_counter_exhausted(&self, pid: i32, status: ChildStatus, shutdown_requested: bool, now_ns: u64) -> (res: bool)
        requires
            self.wf(),
        ensures
            res == self.counter_exhausted(pid, status, shutdown_requested, now_ns),
    {
        match self.position_of_pid(pid) {
            None => false,
            Some(k) => {
                proof {
                    lemma_pid_index(self.running@, pid, k as int);
                }
                let s = self.running[k].service;
                let service = &self.services[s];
                let rt = self.runtimes[s];
                let last = match rt.last_start {
                    Some(t) => t,
                    None => 0,
                };
                let elapsed = now_ns.saturating_sub(last);
                assert((service.respawn_window_secs as u128) * (NANOS_PER_SEC as u128) <= u128::MAX) by (nonlinear_arith)
                    requires
                        service.respawn_window_secs <= u64::MAX,
                        NANOS_PER_SEC == 1_000_000_000u64,
                ;
                let window_ns = (service.respawn_window_secs as u128) * (NANOS_PER_SEC as u128);
                !shutdown_requested && should_restart(status, service.restart) && service.respawn_max == 0
                    && !((elapsed as u128) > window_ns) && rt.restart_count == u32::MAX
            },
        }
    }

    /// Records that the child `pid` exited with `status` at `now_ns`.
    ///
    /// An unknown process changes nothing. Otherwise the child is no longer
    /// running, and its service is scheduled to start again when no shutdown
    /// was requested, its policy asks for a restart and its restart limit
    /// allows one (see `next_restart_delay`).
    pub fn child_exited(&mut self, pid: i32, status: ChildStatus, shutdown_requested: bool, now_ns: u64) -> (outcome: ExitOutcome)
        requires
            old(self).wf(),
            !old(self).counter_exhausted(pid, status, shutdown_requested, now_ns),
        ensures
            final(self).wf(),
            final(self).services == old(self).services,
            final(self).start_order == old(self).start_order,
            final(self).shutdown_signal_sent == old(self).shutdown_signal_sent,
            (final(self)@, outcome) == after_exit(old(self)@, pid, status, shutdown_requested, now_ns),
            (forall|k: int| 0 <= k < old(self).running@.len() ==> (#[trigger] old(self).running@[k]).pid != pid) ==> {
                &&& outcome == ExitOutcome::Unmanaged
                &&& final(self)@ == old(self)@
            },
            forall|k: int|
                0 <= k < old(self).running@.len() && (#[trigger] old(self).running@[k]).pid == pid ==> ({
                let s = old(self)@.running[k].service;
                let svc = old(self)@.services[s as int];
                let rt = old(self)@.runtimes[s as int];
                let c: int = if now_ns - rt.last_start->0 > svc.respawn_window_secs * 1_000_000_000 {
                    0
                } else {
                    rt.restart_count as int
                };
                &&& rt.last_start is Some
                &&& final(self)@.running == old(self)@.running.remove(k)
                &&& final(self)@.runtimes.len() == old(self)@.runtimes.len()
                &&& forall|t: int| 0 <= t < old(self)@.runtimes.len() && t != s ==> #[trigger] final(self)@.runtimes[t] == old(self)@.runtimes[t]
                &&& if shutdown_requested || !restart_wanted(status, svc.restart) {
                    &&& outcome == (ExitOutcome::Stopped { service: s })
                    &&& final(self)@.runtimes[s as int] == rt
                } else if svc.respawn_max > 0 && c >= svc.respawn_max {
                    &&& outcome == (ExitOutcome::RespawnLimitReached { service: s })
                    &&& final(self)@.runtimes[s as int] == (ServiceRuntime {
                        last_start: rt.last_start,
                        restart_count: c as u32,
                        next_restart_at: None,
                    })
                    &&& restart_decision(
                        rt.restart_count,
                        now_ns,
                        rt.last_start->0,
                        svc.respawn_delay_secs,
                        svc.respawn_window_secs,
                        svc.respawn_max,
                    ) == (None::<u64>, c as u32)
                } else {
                    let d = backoff_delay(svc.respawn_delay_secs, c as u32);
                    &&& outcome == (ExitOutcome::RestartScheduled { service: s, delay_secs: d })
                    &&& final(self)@.runtimes[s as int] == (ServiceRuntime {
                        last_start: rt.last_start,
                        restart_count: (c + 1) as u32,
                        next_restart_at: Some(add_secs(now_ns, d)),
                    })
                    &&& restart_decision(
                        rt.restart_count,
                        now_ns,
                        rt.last_start->0,
                        svc.respawn_delay_secs,
                        svc.respawn_window_secs,
                        svc.respawn_max,
                    ) == (Some(d), (c + 1) as u32)
                }
            }),
    {
        proof {
            if exists|k: int| 0 <= k < self.running@.len() && (#[trigger] self.running@[k]).pid == pid {
                let k = choose|k: int| 0 <= k < self.running@.len() && (#[trigger] self.running@[k]).pid == pid;
                lemma_exit_decision(self@, pid, status, shutdown_requested, now_ns, k);
            }
        }
        let k = match self.position_of_pid(pid) {
            None => {
                proof {
                    assert(!exists|k: int| 0 <= k < self.running@.len() && (#[trigger] self.running@[k]).pid == pid);
                }
                return ExitOutcome::Unmanaged;
            },
            Some(k) => k,
        };
        proof {
            lemma_pid_index(self.running@, pid, k as int);
        }
        let ghost old_running = self.running@;
        let child = self.running.remove(k);
        let s = child.service;
        proof {
            assert(old_running[k as int] == child);
            assert forall|c: int| 0 <= c < self.running@.len() implies #[trigger] self.running@[c] == old_running[
                if c < k { c } else { c + 1 }
            ] by {}
        }
        let mut rt = self.runtimes[s];
        rt.next_restart_at = None;
        let policy = self.services[s].restart;
        if shutdown_requested || !should_restart(status, policy) {
            self.runtimes.set(s, rt);
            proof {
                assert(self.runtimes@ =~= old(self).runtimes@);
                lemma_wf_after_removal(self@, old_running, k as int);
                assert(self@ == after_exit(old(self)@, pid, status, shutdown_requested, now_ns).0);
            }
            return ExitOutcome::Stopped { service: s };
        }
        let last_start = match rt.last_start {
            Some(t) => t,
            None => 0,
        };
        let delay_secs = self.services[s].respawn_delay_secs;
        let window_secs = self.services[s].respawn_window_secs;
        let respawn_max = self.services[s].respawn_max;
        let outcome = match next_restart_delay(now_ns, last_start, &mut rt.restart_count, delay_secs, window_secs, respawn_max) {
            Some(delay) => {
                let at = match delay.checked_mul(NANOS_PER_SEC) {
                    Some(nanos) => match now_ns.checked_add(nanos) {
                        Some(t) => t,
                        None => u64::MAX,
                    },
                    None => u64::MAX,
                };
                rt.next_restart_at = Some(at);
                ExitOutcome::RestartScheduled { service: s, delay_secs: delay }
            },
            None => ExitOutcome::RespawnLimitReached { service: s },
        };
        self.runtimes.set(s, rt);
        proof {
            lemma_wf_after_removal(self@, old_running, k as int);
            assert(self@ == after_exit(old(self)@, pid, status, shutdown_requested, now_ns).0);
        }
        outcome
    }

}

/// What recording the exit of the child at position `k` does, stated over
/// that child's service and what was remembered of it: the child leaves the
/// running set and no other service's record changes. A shutdown or a policy
/// that wants no restart leaves the service stopped. Otherwise the counter
/// starts again from zero only when more than the respawn window lies between
/// the service's last start and now; a positive limit that the counter has
/// reached stops the service, and any other exit schedules a restart after the
/// back-off delay and counts it. This is the decision of `next_restart_delay`
/// taken on the service's last start.
pub proof fn lemma_exit_decision(
    v: SupervisorView,
    pid: i32,
    status: ChildStatus,
    shutdown_requested: bool,
    now_ns: u64,
    k: int,
)
    requires
        v.wf(),
        0 <= k < v.running.len(),
        v.running[k].pid == pid,
    ensures
        after_exit(v, pid, status, shutdown_requested, now_ns).0.services == v.services,
        after_exit(v, pid, status, shutdown_requested, now_ns).0.start_order == v.start_order,
        after_exit(v, pid, status, shutdown_requested, now_ns).0.shutdown_deadline == v.shutdown_deadline,
({
            let s = v.running[k].service;
            let svc = v.services[s as int];
            let rt = v.runtimes[s as int];
            let c: int = if now_ns - rt.last_start->0 > svc.respawn_window_secs * 1_000_000_000 {
                0
            } else {
                rt.restart_count as int
            };
            &&& rt.last_start is Some
            &&& after_exit(v, pid, status, shutdown_requested, now_ns).0.running == v.running.remove(k)
            &&& after_exit(v, pid, status, shutdown_requested, now_ns).0.runtimes.len() == v.runtimes.len()
            &&& forall|t: int| 0 <= t < v.runtimes.len() && t != s ==> #[trigger] after_exit(v, pid, status, shutdown_requested, now_ns).0.runtimes[t] == v.runtimes[t]
            &&& if shutdown_requested || !restart_wanted(status, svc.restart) {
                &&& after_exit(v, pid, status, shutdown_requested, now_ns).1 == (ExitOutcome::Stopped { service: s })
                &&& after_exit(v, pid, status, shutdown_requested, now_ns).0.runtimes[s as int] == rt
            } else if svc.respawn_max > 0 && c >= svc.respawn_max {
                &&& after_exit(v, pid, status, shutdown_requested, now_ns).1 == (ExitOutcome::RespawnLimitReached { service: s })
                &&& after_exit(v, pid, status, shutdown_requested, now_ns).0.runtimes[s as int] == (ServiceRuntime {
                    last_start: rt.last_start,
                    restart_count: c as u32,
                    next_restart_at: None,
                })
                &&& restart_decision(
                    rt.restart_count,
                    now_ns,
                    rt.last_start->0,
                    svc.respawn_delay_secs,
                    svc.respawn_window_secs,
                    svc.respawn_max,
                ) == (None::<u64>, c as u32)
            } else {
                let d = backoff_delay(svc.respawn_delay_secs, c as u32);
                &&& after_exit(v, pid, status, shutdown_requested, now_ns).1 == (ExitOutcome::RestartScheduled { service: s, delay_secs: d })
                &&& after_exit(v, pid, status, shutdown_requested, now_ns).0.runtimes[s as int] == (ServiceRuntime {
                    last_start: rt.last_start,
                    restart_count: (c + 1) as u32,
                    next_restart_at: Some(add_secs(now_ns, d)),
                })
                &&& restart_decision(
                    rt.restart_count,
                    now_ns,
                    rt.last_start->0,
                    svc.respawn_delay_secs,
                    svc.respawn_window_secs,
                    svc.respawn_max,
                ) == (Some(d), (c + 1) as u32)
            }
        }),
{
    lemma_pid_index(v.running, pid, k);
}

/// The exit of a process that runs no service changes nothing.
pub proof fn lemma_exit_unmanaged(v: SupervisorView, pid: i32, status: ChildStatus, shutdown_requested: bool, now_ns: u64)
    requires
        forall|k: int| 0 <= k < v.running.len() ==> (#[trigger] v.running[k]).pid != pid,
    ensures
        after_exit(v, pid, status, shutdown_requested, now_ns) == (v, ExitOutcome::Unmanaged),
{
}

/// Removing the child at position `k` and changing the runtime of its
/// service keeps the invariant.
proof fn lemma_wf_after_removal(v: SupervisorView, old_running: Seq<RunningChild>, k: int)
    requires
        v.services.len() <= usize::MAX,
        0 <= k < old_running.len(),
        v.running == old_running.remove(k),
        v.runtimes.len() == v.services.len(),
        is_start_order(v.services, v.start_order),
        v.shutdown_deadline is Some ==> v.shutdown_signal_sent,
        forall|c: int| 0 <= c < old_running.len() ==> (#[trigger] old_running[c]).service < v.services.len(),
        forall|k1: int, k2: int|
            0 <= k1 < old_running.len() && 0 <= k2 < old_running.len() && k1 != k2 ==> {
                &&& (#[trigger] old_running[k1]).service != (#[trigger] old_running[k2]).service
                &&& old_running[k1].pid != old_running[k2].pid
            },
        forall|c: int|
            0 <= c < old_running.len() && (#[trigger] old_running[c]).service != old_running[k].service ==> {
                &&& v.runtimes[old_running[c].service as int].last_start is Some
                &&& v.runtimes[old_running[c].service as int].next_restart_at is None
            },
    ensures
        v.wf(),
{
    assert forall|c: int| 0 <= c < v.running.len() implies #[trigger] v.running[c] == old_running[
        if c < k { c } else { c + 1 }
    ] by {}
    assert forall|k1: int, k2: int|
        0 <= k1 < v.running.len() && 0 <= k2 < v.running.len() && k1 != k2 implies {
            &&& (#[trigger] v.running[k1]).service != (#[trigger] v.running[k2]).service
            &&& v.running[k1].pid != v.running[k2].pid
        } by {
        let d1 = if k1 < k { k1 } else { k1 + 1 };
        let d2 = if k2 < k { k2 } else { k2 + 1 };
        assert(v.running[k1] == old_running[d1]);
        assert(v.running[k2] == old_running[d2]);
    }
    assert forall|c: int| 0 <= c < v.running.len() implies {
        &&& v.runtimes[(#[trigger] v.running[c]).service as int].last_start is Some
        &&& v.runtimes[v.running[c].service as int].next_restart_at is None
    } by {
        let d = if c < k { c } else { c + 1 };
        assert(v.running[c] == old_running[d]);
        assert(old_running[d].service != old_running[k].service);
    }
    assert forall|c: int| 0 <= c < v.running.len() implies (#[trigger] v.running[c]).service < v.services.len() by {
        let d = if c < k { c } else { c + 1 };
        assert(v.running[c] == old_running[d]);
    }
}

proof fn lemma_stop_order_pids(order: Seq<usize>, running: Seq<RunningChild>)
    requires
        order.no_duplicates(),
        forall|k1: int, k2: int|
            0 <= k1 < running.len() && 0 <= k2 < running.len() && k1 != k2 ==> {
                &&& (#[trigger] running[k1]).service != (#[trigger] running[k2]).service
                &&& running[k1].pid != running[k2].pid
            },
    ensures
        stop_order_pids(order, running).no_duplicates(),
        forall|pid: i32|
            #[trigger] stop_order_pids(order, running).contains(pid) <==> exists|k: int|
                0 <= k < running.len() && running[k].pid == pid && order.contains(running[k].service),
    decreases order.len(),
{
    if order.len() > 0 {
        let d = order.drop_last();
        let last = order.last();
        let rest = stop_order_pids(d, running);
        assert(d.no_duplicates());
        lemma_stop_order_pids(d, running);
        assert forall|u: usize| order.contains(u) <==> (d.contains(u) || u == last) by {
            if order.contains(u) {
                let i = choose|i: int| 0 <= i < order.len() && order[i] == u;
                if i < order.len() - 1 {
                    assert(d[i] == u);
                }
            }
            if d.contains(u) {
                let i = choose|i: int| 0 <= i < d.len() && d[i] == u;
                assert(order[i] == u);
            }
            if u == last {
                assert(order[order.len() - 1] == u);
            }
        }
        assert(!d.contains(last)) by {
            if d.contains(last) {
                let i = choose|i: int| 0 <= i < d.len() && d[i] == last;
                assert(order[i] == order[order.len() - 1]);
            }
        }
        if is_running(running, last as int) {
            let c = choose|c: int| 0 <= c < running.len() && (#[trigger] running[c]).service == last as int;
            let head = running[c].pid;
            assert(stop_order_pids(order, running) == seq![head] + rest);
            assert forall|pid: i32| (seq![head] + rest).contains(pid) <==> (pid == head || rest.contains(pid)) by {
                if (seq![head] + rest).contains(pid) {
                    let i = choose|i: int| 0 <= i < (seq![head] + rest).len() && (seq![head] + rest)[i] == pid;
                    if i > 0 {
                        assert(rest[i - 1] == pid);
                    }
                }
                if rest.contains(pid) {
                    let i = choose|i: int| 0 <= i < rest.len() && rest[i] == pid;
                    assert((seq![head] + rest)[i + 1] == pid);
                }
                if pid == head {
                    assert((seq![head] + rest)[0] == pid);
                }
            }
            assert forall|pid: i32|
                #[trigger] stop_order_pids(order, running).contains(pid) <==> exists|k: int|
                    0 <= k < running.len() && running[k].pid == pid && order.contains(running[k].service) by {
                if exists|k: int| 0 <= k < running.len() && running[k].pid == pid && order.contains(running[k].service) {
                    let k = choose|k: int| 0 <= k < running.len() && running[k].pid == pid && order.contains(running[k].service);
                    if running[k].service == last {
                        assert(k == c);
                    } else {
                        assert(d.contains(running[k].service));
                    }
                }
                if pid == head {
                    assert(order.contains(running[c].service));
                }
                if rest.contains(pid) {
                    let k = choose|k: int| 0 <= k < running.len() && running[k].pid == pid && d.contains(running[k].service);
                    assert(order.contains(running[k].service));
                }
            }
            assert(!rest.contains(head)) by {
                if rest.contains(head) {
                    let k = choose|k: int| 0 <= k < running.len() && running[k].pid == head && d.contains(running[k].service);
                    assert(k == c);
                }
            }
            assert forall|i: int, j: int|
                0 <= i < (seq![head] + rest).len() && 0 <= j < (seq![head] + rest).len() && i != j implies (seq![head]
                + rest)[i] != (seq![head] + rest)[j] by {
                if i == 0 {
                    assert(rest.contains((seq![head] + rest)[j]));
                } else if j == 0 {
                    assert(rest.contains((seq![head] + rest)[i]));
                } else {
                    assert((seq![head] + rest)[i] == rest[i - 1]);
                    assert((seq![head] + rest)[j] == rest[j - 1]);
                }
            }
        } else {
            assert(stop_order_pids(order, running) == rest);
            assert forall|pid: i32|
                #[trigger] stop_order_pids(order, running).contains(pid) <==> exists|k: int|
                    0 <= k < running.len() && running[k].pid == pid && order.contains(running[k].service) by {
                if exists|k: int| 0 <= k < running.len() && running[k].pid == pid && order.contains(running[k].service) {
                    let k = choose|k: int| 0 <= k < running.len() && running[k].pid == pid && order.contains(running[k].service);
                    if running[k].service == last {
                        assert(is_running(running, last as int));
                    } else {
                        assert(d.contains(running[k].service));
                    }
                }
                if rest.contains(pid) {
                    let k = choose|k: int| 0 <= k < running.len() && running[k].pid == pid && d.contains(running[k].service);
                    assert(order.contains(running[k].service));
                }
            }
        }
    }
}

/// The stop order runs the start order backwards: of any two process ids in
/// it, the earlier one belongs to a running service that stands later in
/// `order` than the running service of the later one.
pub proof fn lemma_stop_order_reverse(order: Seq<usize>, running: Seq<RunningChild>)
    requires
        order.no_duplicates(),
        forall|k1: int, k2: int|
            0 <= k1 < running.len() && 0 <= k2 < running.len() && k1 != k2 ==> {
                &&& (#[trigger] running[k1]).service != (#[trigger] running[k2]).service
                &&& running[k1].pid != running[k2].pid
            },
    ensures
        forall|a: int, b: int, ka: int, kb: int, ia: int, ib: int|
            #![trigger stop_order_pids(order, running)[a], stop_order_pids(order, running)[b], running[ka], running[kb], order[ia], order[ib]]
            {
                &&& 0 <= a < b < stop_order_pids(order, running).len()
                &&& 0 <= ka < running.len() && running[ka].pid == stop_order_pids(order, running)[a]
                &&& 0 <= kb < running.len() && running[kb].pid == stop_order_pids(order, running)[b]
                &&& 0 <= ia < order.len() && running[ka].service == order[ia]
                &&& 0 <= ib < order.len() && running[kb].service == order[ib]
            } ==> ib < ia,
    decreases order.len(),
{
    if order.len() > 0 {
        let n = order.len();
        let d = order.drop_last();
        let last = order.last();
        let rest = stop_order_pids(d, running);
        let p = stop_order_pids(order, running);
        assert(d.no_duplicates());
        lemma_stop_order_reverse(d, running);
        lemma_stop_order_pids(d, running);
        // A running child whose pid is in `rest` runs a service that stands in
        // `order` before its last position.
        assert forall|x: int, k: int, i: int|
            0 <= x < rest.len() && 0 <= k < running.len() && #[trigger] running[k].pid == #[trigger] rest[x] && 0 <= i < n
                && running[k].service == #[trigger] order[i] implies i < n - 1 && d[i] == order[i] by {
            assert(rest.contains(rest[x]));
            let k2 = choose|k2: int| 0 <= k2 < running.len() && running[k2].pid == rest[x] && d.contains(running[k2].service);
            assert(k2 == k);
            let y = choose|y: int| 0 <= y < d.len() && d[y] == running[k].service;
            assert(order[y] == order[i]);
        }
        if is_running(running, last as int) {
            let c = choose|c: int| 0 <= c < running.len() && (#[trigger] running[c]).service == last as int;
            let head = running[c].pid;
            assert(p == seq![head] + rest);
        } else {
            assert(p == rest);
        }
        assert forall|a: int, b: int, ka: int, kb: int, ia: int, ib: int|
            #![trigger p[a], p[b], running[ka], running[kb], order[ia], order[ib]]
            {
                &&& 0 <= a < b < p.len()
                &&& 0 <= ka < running.len() && running[ka].pid == p[a]
                &&& 0 <= kb < running.len() && running[kb].pid == p[b]
                &&& 0 <= ia < order.len() && running[ka].service == order[ia]
                &&& 0 <= ib < order.len() && running[kb].service == order[ib]
            } implies ib < ia by {
            if is_running(running, last as int) {
                let c = choose|c: int| 0 <= c < running.len() && (#[trigger] running[c]).service == last as int;
                assert(p[b] == rest[b - 1]);
                assert(ib < n - 1);
                if a == 0 {
                    assert(ka == c);
                    assert(order[ia] == order[n - 1]);
                } else {
                    assert(p[a] == rest[a - 1]);
                    assert(ia < n - 1);
                    assert(d[ia] == order[ia] && d[ib] == order[ib]);
                    assert(stop_order_pids(d, running)[a - 1] == rest[a - 1]);
                }
            } else {
                assert(p[a] == rest[a] && p[b] == rest[b]);
                assert(ia < n - 1 && ib < n - 1);
                assert(d[ia] == order[ia] && d[ib] == order[ib]);
            }
        }
    }
}

/// At shutdown every running child is signalled, exactly once: the process
/// ids in stop order are those of the running children, without repeats, and
/// a child whose service started later is signalled earlier.
pub proof fn lemma_shutdown_reaches_every_child(v: SupervisorView)
    requires
        v.wf(),
    ensures
        forall|a: int, b: int, ka: int, kb: int, ia: int, ib: int|
            #![trigger stop_order_pids(v.start_order, v.running)[a], stop_order_pids(v.start_order, v.running)[b], v.running[ka], v.running[kb], v.start_order[ia], v.start_order[ib]]
            {
                &&& 0 <= a < b < stop_order_pids(v.start_order, v.running).len()
                &&& 0 <= ka < v.running.len() && v.running[ka].pid == stop_order_pids(v.start_order, v.running)[a]
                &&& 0 <= kb < v.running.len() && v.running[kb].pid == stop_order_pids(v.start_order, v.running)[b]
                &&& 0 <= ia < v.start_order.len() && v.running[ka].service == v.start_order[ia]
                &&& 0 <= ib < v.start_order.len() && v.running[kb].service == v.start_order[ib]
            } ==> ib < ia,
        stop_order_pids(v.start_order, v.running).no_duplicates(),
        forall|pid: i32|
            #[trigger] stop_order_pids(v.start_order, v.running).contains(pid) <==> exists|k: int|
                0 <= k < v.running.len() && v.running[k].pid == pid,
{
    lemma_stop_order_pids(v.start_order, v.running);
    lemma_stop_order_reverse(v.start_order, v.running);
    lemma_distinct_indices(v.start_order, v.services.len() as int);
    assert forall|pid: i32|
        #[trigger] stop_order_pids(v.start_order, v.running).contains(pid) <==> exists|k: int|
            0 <= k < v.running.len() && v.running[k].pid == pid by {
        if exists|k: int| 0 <= k < v.running.len() && v.running[k].pid == pid {
            let k = choose|k: int| 0 <= k < v.running.len() && v.running[k].pid == pid;
            assert(v.running[k].service < v.services.len());
            assert(v.start_order.contains(v.running[k].service));
        }
    }
}

/// One dependency of a service is satisfied exactly when the first service
/// that provides it is the service itself or has a running child.
pub proof fn lemma_dependency_meaning(services: Seq<ServiceConfig>, running: Seq<RunningChild>, s: int, j: int)
    requires
        0 <= s < services.len(),
        0 <= j < services[s].depends@.len(),
    ensures
        dependency_satisfied(services, running, s, j) <==> exists|p: int|
            {
                &&& 0 <= p < services.len()
                &&& #[trigger] provides_token(services[p], services[s].depends@[j]@)
                &&& forall|q: int| 0 <= q < p ==> !provides_token(#[trigger] services[q], services[s].depends@[j]@)
                &&& (p == s || exists|k: int| 0 <= k < running.len() && (#[trigger] running[k]).service == p)
            },
{
    let token = services[s].depends@[j]@;
    if dependency_satisfied(services, running, s, j) {
        let p = choose|p: int|
            #[trigger] is_first_provider(services, dep_view(services, s, j), p) && (p == s || is_running(running, p));
        assert(provides_token(services[p], token));
    }
    if exists|p: int|
        {
            &&& 0 <= p < services.len()
            &&& #[trigger] provides_token(services[p], token)
            &&& forall|q: int| 0 <= q < p ==> !provides_token(#[trigger] services[q], token)
            &&& (p == s || exists|k: int| 0 <= k < running.len() && (#[trigger] running[k]).service == p)
        } {
        let p = choose|p: int|
            {
                &&& 0 <= p < services.len()
                &&& #[trigger] provides_token(services[p], token)
                &&& forall|q: int| 0 <= q < p ==> !provides_token(#[trigger] services[q], token)
                &&& (p == s || exists|k: int| 0 <= k < running.len() && (#[trigger] running[k]).service == p)
            };
        assert(is_first_provider(services, dep_view(services, s, j), p));
    }
}

/// A service's dependencies are satisfied exactly when each one of them is:
/// a single dependency whose first provider neither is the service nor runs
/// holds the service back.
pub proof fn lemma_dependencies_meaning(services: Seq<ServiceConfig>, running: Seq<RunningChild>, s: int)
    requires
        0 <= s < services.len(),
    ensures
        dependencies_satisfied(services, running, s) <==> forall|j: int|
            0 <= j < services[s].depends@.len() ==> #[trigger] dependency_satisfied(services, running, s, j),
        forall|j: int|
            0 <= j < services[s].depends@.len() && !#[trigger] dependency_satisfied(services, running, s, j)
                ==> !dependencies_satisfied(services, running, s),
{
}

/// The position of the child with process id `pid`, if there is one.
pub open spec fn pid_index(running: Seq<RunningChild>, pid: i32) -> Option<int> {
    if exists|k: int| 0 <= k < running.len() && (#[trigger] running[k]).pid == pid {
        Some(choose|k: int| 0 <= k < running.len() && (#[trigger] running[k]).pid == pid)
    } else {
        None
    }
}

/// The state after service `s` was started as process `pid` at `now_ns`:
/// its start is recorded, and a child recorded under the same pid is forgotten.
pub open spec fn after_start(v: SupervisorView, s: usize, pid: i32, now_ns: u64) -> SupervisorView {
    SupervisorView {
        runtimes: v.runtimes.update(
            s as int,
            ServiceRuntime {
                last_start: Some(now_ns),
                restart_count: v.runtimes[s as int].restart_count,
                next_restart_at: None,
            },
        ),
        running: match pid_index(v.running, pid) {
            Some(k) => v.running.remove(k),
            None => v.running,
        }.push(RunningChild { pid, service: s }),
        ..v
    }
}

/// The state after the child `pid` exited with `status` at `now_ns`, and
/// what became of it.
pub open spec fn after_exit(
    v: SupervisorView,
    pid: i32,
    status: ChildStatus,
    shutdown_requested: bool,
    now_ns: u64,
) -> (SupervisorView, ExitOutcome) {
    match pid_index(v.running, pid) {
        None => (v, ExitOutcome::Unmanaged),
        Some(k) => {
            let s = v.running[k].service;
            let service = v.services[s as int];
            let rt = v.runtimes[s as int];
            let count = effective_count(rt.restart_count, now_ns, rt.last_start->0, service.respawn_window_secs);
            let stopped = SupervisorView { running: v.running.remove(k), ..v };
            if shutdown_requested || !restart_wanted(status, service.restart) {
                (stopped, ExitOutcome::Stopped { service: s })
            } else if limit_reached(count, service.respawn_max) {
                (
                    SupervisorView {
                        runtimes: v.runtimes.update(
                            s as int,
                            ServiceRuntime { last_start: rt.last_start, restart_count: count, next_restart_at: None },
                        ),
                        ..stopped
                    },
                    ExitOutcome::RespawnLimitReached { service: s },
                )
            } else {
                let delay = backoff_delay(service.respawn_delay_secs, count);
                (
                    SupervisorView {
                        runtimes: v.runtimes.update(
                            s as int,
                            ServiceRuntime {
                                last_start: rt.last_start,
                                restart_count: (count + 1) as u32,
                                next_restart_at: Some(add_secs(now_ns, delay)),
                            },
                        ),
                        ..stopped
                    },
                    ExitOutcome::RestartScheduled { service: s, delay_secs: delay },
                )
            }
        },
    }
}

/// The state after a shutdown was asked for at `now_ns`, and the children to
/// send the termination signal to, if this is the first request.
pub open spec fn after_shutdown(v: SupervisorView, now_ns: u64) -> (SupervisorView, Option<Seq<i32>>) {
    if v.shutdown_signal_sent {
        (v, None)
    } else {
        (
            SupervisorView {
                shutdown_signal_sent: true,
                shutdown_deadline: Some(shutdown_deadline_for(now_ns)),
                ..v
            },
            Some(stop_order_pids(v.start_order, v.running)),
        )
    }
}

/// The state after the kill deadline was checked at `now_ns`, and the
/// children to send the kill signal to, if it is time.
pub open spec fn after_kill(v: SupervisorView, now_ns: u64) -> (SupervisorView, Option<Seq<i32>>) {
    if v.shutdown_deadline matches Some(d) && now_ns >= d && v.running.len() > 0 {
        (SupervisorView { shutdown_deadline: None, ..v }, Some(stop_order_pids(v.start_order, v.running)))
    } else {
        (v, None)
    }
}

/// `t` is the first service from `from` on that is due to be started again.
pub open spec fn is_first_due(v: SupervisorView, from: int, now_ns: u64, t: int) -> bool {
    &&& from <= t < v.services.len()
    &&& v.restart_due(t, now_ns)
    &&& forall|t2: int| from <= t2 < t ==> !#[trigger] v.restart_due(t2, now_ns)
}

/// The first service from `from` on that is due to be started again at `now_ns`.
pub open spec fn first_due(v: SupervisorView, from: int, now_ns: u64) -> Option<usize> {
    if exists|t: int| is_first_due(v, from, now_ns, t) {
        Some((choose|t: int| is_first_due(v, from, now_ns, t)) as usize)
    } else {
        None
    }
}

/// `a` is the first position in the start order whose service never started.
pub open spec fn is_first_unstarted(v: SupervisorView, a: int) -> bool {
    &&& 0 <= a < v.start_order.len()
    &&& v.runtimes[v.start_order[a] as int].last_start is None
    &&& forall|a2: int| 0 <= a2 < a ==> (#[trigger] v.runtimes[v.start_order[a2] as int]).last_start is Some
}

/// The next service to start initially: the first in the start order that
/// never started.
pub open spec fn next_initial(v: SupervisorView) -> Option<usize> {
    if exists|a: int| is_first_unstarted(v, a) {
        Some(v.start_order[choose|a: int| is_first_unstarted(v, a)])
    } else {
        None
    }
}

/// The view of an optional list of process ids.
pub open spec fn opt_pids(o: Option<Vec<i32>>) -> Option<Seq<i32>> {
    match o {
        Some(v) => Some(v@),
        None => None,
    }
}

/// Starting a service that is not running keeps the invariant.
pub proof fn lemma_after_start_wf(v: SupervisorView, s: usize, pid: i32, now_ns: u64)
    requires
        v.wf(),
        s < v.services.len(),
        !is_running(v.running, s as int),
    ensures
        after_start(v, s, pid, now_ns).wf(),
{
    let t = after_start(v, s, pid, now_ns);
    let old_running = v.running;
    let mid = match pid_index(old_running, pid) {
        Some(k) => old_running.remove(k),
        None => old_running,
    };
    let n = t.running.len();
    if let Some(k) = pid_index(old_running, pid) {
        assert(0 <= k < old_running.len() && old_running[k].pid == pid);
    }
    assert(t.running == mid.push(RunningChild { pid, service: s }));
        // Every kept entry comes from before and has another pid.
        assert forall|c: int| 0 <= c < mid.len() implies exists|k: int|
            0 <= k < old_running.len() && old_running[k] == #[trigger] mid[c] && old_running[k].pid != pid by {
            match pid_index(old_running, pid) {
                Some(k) => {
                    if c < k {
                        assert(old_running[c] == mid[c]);
                    } else {
                        assert(old_running[c + 1] == mid[c]);
                    }
                },
                None => {
                    assert(old_running[c] == mid[c]);
                },
            }
        }
        assert forall|c1: int, c2: int| 0 <= c1 < mid.len() && 0 <= c2 < mid.len() && c1 != c2 implies
            (#[trigger] mid[c1]).service != (#[trigger] mid[c2]).service && mid[c1].pid != mid[c2].pid by {
            match pid_index(old_running, pid) {
                Some(k) => {
                    let d1 = if c1 < k { c1 } else { c1 + 1 };
                    let d2 = if c2 < k { c2 } else { c2 + 1 };
                    assert(old_running[d1] == mid[c1]);
                    assert(old_running[d2] == mid[c2]);
                },
                None => {
                    assert(old_running[c1] == mid[c1]);
                    assert(old_running[c2] == mid[c2]);
                },
            }
        }
        assert forall|k1: int, k2: int|
            0 <= k1 < n && 0 <= k2 < n && k1 != k2 implies {
                &&& (#[trigger] t.running[k1]).service != (#[trigger] t.running[k2]).service
                &&& t.running[k1].pid != t.running[k2].pid
            } by {
            if k1 == n - 1 {
                let k = choose|k: int| 0 <= k < old_running.len() && old_running[k] == mid[k2] && old_running[k].pid != pid;
                assert(old_running[k].service != s);
            } else if k2 == n - 1 {
                let k = choose|k: int| 0 <= k < old_running.len() && old_running[k] == mid[k1] && old_running[k].pid != pid;
                assert(old_running[k].service != s);
            } else {
                assert(t.running[k1] == mid[k1]);
                assert(t.running[k2] == mid[k2]);
            }
        }
        assert forall|k: int|
            0 <= k < n implies {
                &&& t.runtimes[(#[trigger] t.running[k]).service as int].last_start is Some
                &&& t.runtimes[t.running[k].service as int].next_restart_at is None
            } by {
            if k < n - 1 {
                assert(t.running[k] == mid[k]);
                let c = choose|c: int| 0 <= c < old_running.len() && old_running[c] == mid[k] && old_running[c].pid != pid;
                assert(old_running[c].service != s);
            }
        }
        assert forall|k: int| 0 <= k < n implies (#[trigger] t.running[k]).service < t.services.len() by {
            if k < n - 1 {
                assert(t.running[k] == mid[k]);
                let c = choose|c: int| 0 <= c < old_running.len() && old_running[c] == mid[k] && old_running[c].pid != pid;
            }
        }
    }

/// Recording an exit keeps the invariant.
pub proof fn lemma_after_exit_wf(v: SupervisorView, pid: i32, status: ChildStatus, shutdown_requested: bool, now_ns: u64)
    requires
        v.wf(),
    ensures
        after_exit(v, pid, status, shutdown_requested, now_ns).0.wf(),
{
    if let Some(k) = pid_index(v.running, pid) {
        assert(0 <= k < v.running.len() && v.running[k].pid == pid);
        let t = after_exit(v, pid, status, shutdown_requested, now_ns).0;
        let s = v.running[k].service;
        assert(t.running == v.running.remove(k));
        assert forall|c: int|
            0 <= c < v.running.len() && (#[trigger] v.running[c]).service != v.running[k].service implies {
                &&& t.runtimes[v.running[c].service as int].last_start is Some
                &&& t.runtimes[v.running[c].service as int].next_restart_at is None
            } by {
            assert(t.runtimes[v.running[c].service as int] == v.runtimes[v.running[c].service as int]);
        }
        lemma_wf_after_removal(t, v.running, k);
    }
}

/// Where services are distinct, `pid_of` is the process id at the one position running `s`.
proof fn lemma_service_index(running: Seq<RunningChild>, s: int, k: int)
    requires
        0 <= k < running.len(),
        running[k].service == s,
        forall|k1: int, k2: int|
            0 <= k1 < running.len() && 0 <= k2 < running.len() && k1 != k2 ==> (#[trigger] running[k1]).service
                != (#[trigger] running[k2]).service,
    ensures
        is_running(running, s),
        pid_of(running, s) == running[k].pid,
{
    let c = choose|c: int| 0 <= c < running.len() && (#[trigger] running[c]).service == s;
    assert(running[c].service == running[k].service);
}

/// Where process ids are distinct, `pid_index` finds the one position holding `pid`.
proof fn lemma_pid_index(running: Seq<RunningChild>, pid: i32, k: int)
    requires
        0 <= k < running.len(),
        running[k].pid == pid,
        forall|k1: int, k2: int|
            0 <= k1 < running.len() && 0 <= k2 < running.len() && k1 != k2 ==> (#[trigger] running[k1]).pid
                != (#[trigger] running[k2]).pid,
    ensures
        pid_index(running, pid) == Some(k),
{
    let c = choose|c: int| 0 <= c < running.len() && (#[trigger] running[c]).pid == pid;
    assert(running[c].pid == running[k].pid);
}

} // verus!
