use vstd::prelude::*;
use vstd::arithmetic::power2::{lemma2_to64, pow2};
use vstd::bits::lemma_u64_shl_is_mul;

use crate::service::RestartPolicy;

verus! {

/// Nanoseconds in a second.
pub const NANOS_PER_SEC: u64 = 1_000_000_000;

/// What the operating system reported about a child process that changed state.
#[derive(Clone, Copy, Debug, PartialEq, Eq, Structural)]
pub enum ChildStatus {
    /// The child exited with this code.
    Exited(i32),
    /// The child was killed by this signal.
    Signaled(i32),
    /// The child was stopped by this signal.
    Stopped(i32),
    /// The child was resumed.
    Continued,
    /// The child stopped for a tracer.
    Traced,
}

/// Whether a service that reported `status` is to be started again under `policy`.
pub open spec fn restart_wanted(status: ChildStatus, policy: RestartPolicy) -> bool {
    match policy {
        RestartPolicy::Always => true,
        RestartPolicy::Never => false,
        RestartPolicy::OnFailure => match status {
            ChildStatus::Exited(code) => code != 0,
            ChildStatus::Signaled(_) => true,
            _ => false,
        },
    }
}

/// Whether a service that reported `status` is to be started again under `policy`:
/// always, never, or on failure (a non-zero exit code or a death by signal).
pub fn should_restart(status: ChildStatus, policy: RestartPolicy) -> (res: bool)
    ensures
        policy is Always ==> res,
        policy is Never ==> !res,
        policy is OnFailure ==> (res <==> (status matches ChildStatus::Exited(code) && code != 0) || status is Signaled),
        res == restart_wanted(status, policy),
{
    match policy {
        RestartPolicy::Always => true,
        RestartPolicy::Never => false,
        RestartPolicy::OnFailure => match status {
            ChildStatus::Exited(code) => code != 0,
            ChildStatus::Signaled(_) => true,
            _ => false,
        },
    }
}

/// The three restart policies: `Always` restarts whatever the child reported,
/// `Never` restarts nothing, and `OnFailure` restarts exactly after a non-zero
/// exit code or a death by signal.
pub proof fn lemma_restart_policies(status: ChildStatus)
    ensures
        restart_wanted(status, RestartPolicy::Always),
        !restart_wanted(status, RestartPolicy::Never),
        restart_wanted(status, RestartPolicy::OnFailure) <==> ((status matches ChildStatus::Exited(code) && code != 0)
            || status is Signaled),
{
}

/// More than `window_secs` seconds lie between `last_start_ns` and `now_ns`
/// (a start later than now counts as no time at all).
pub open spec fn window_passed(now_ns: u64, last_start_ns: u64, window_secs: u64) -> bool {
    now_ns - last_start_ns > window_secs * NANOS_PER_SEC
}

/// The restart counter once the window is taken into account: reset to zero
/// when the window has passed since the last start.
pub open spec fn effective_count(count: u32, now_ns: u64, last_start_ns: u64, window_secs: u64) -> u32 {
    if window_passed(now_ns, last_start_ns, window_secs) {
        0
    } else {
        count
    }
}

/// The exponent of the back-off: the restart count, capped at 6.
pub open spec fn backoff_exponent(count: u32) -> nat {
    if count < 6 {
        count as nat
    } else {
        6
    }
}

/// The delay, in seconds, before restart number `count + 1`: the base delay
/// times `2^min(count, 6)`, saturated at `u64::MAX`.
pub open spec fn backoff_delay(delay_secs: u64, count: u32) -> u64 {
    let product = delay_secs * pow2(backoff_exponent(count));
    if product > u64::MAX {
        u64::MAX
    } else {
        product as u64
    }
}

/// The restart limit forbids another restart.
pub open spec fn limit_reached(count: u32, respawn_max: u32) -> bool {
    respawn_max > 0 && count >= respawn_max
}

/// What `next_restart_delay` decides: the delay, if any, and the new counter.
pub open spec fn restart_decision(
    count: u32,
    now_ns: u64,
    last_start_ns: u64,
    delay_secs: u64,
    window_secs: u64,
    respawn_max: u32,
) -> (Option<u64>, u32) {
    let c = effective_count(count, now_ns, last_start_ns, window_secs);
    if limit_reached(c, respawn_max) {
        (None, c)
    } else {
        (Some(backoff_delay(delay_secs, c)), (c + 1) as u32)
    }
}

/// Decides the delay before a service that exited is started again, and
/// updates its restart counter.
///
/// The counter is reset when more than the respawn window has passed since the
/// last start. Then, when `respawn_max` is not zero and the counter has reached
/// it, there is no restart. Otherwise the counter goes up by one and the delay
/// is the base delay doubled once per earlier restart, at most six times.
/// Instants are nanoseconds on one clock; the delay is in seconds.
pub fn next_restart_delay(
    now_ns: u64,
    last_start_ns: u64,
    restart_count: &mut u32,
    respawn_delay_secs: u64,
    respawn_window_secs: u64,
    respawn_max: u32,
) -> (res: Option<u64>)
    requires
        respawn_max == 0 && !window_passed(now_ns, last_start_ns, respawn_window_secs) ==> *old(
            restart_count,
        ) < u32::MAX,
    ensures
        (res, *final(restart_count)) == restart_decision(
            *old(restart_count),
            now_ns,
            last_start_ns,
            respawn_delay_secs,
            respawn_window_secs,
            respawn_max,
        ),
        ({
            let count = effective_count(*old(restart_count), now_ns, last_start_ns, respawn_window_secs);
            if limit_reached(count, respawn_max) {
                &&& res is None
                &&& *final(restart_count) == count
            } else {
                &&& res == Some(backoff_delay(respawn_delay_secs, count))
                &&& *final(restart_count) == count + 1
            }
        }),
{
    let elapsed = now_ns.saturating_sub(last_start_ns);
    assert((respawn_window_secs as u128) * (NANOS_PER_SEC as u128) <= u128::MAX) by (nonlinear_arith)
        requires
            respawn_window_secs <= u64::MAX,
            NANOS_PER_SEC == 1_000_000_000u64,
    ;
    let window_ns = (respawn_window_secs as u128) * (NANOS_PER_SEC as u128);
    if (elapsed as u128) > window_ns {
        *restart_count = 0;
    }
    if respawn_max > 0 && *restart_count >= respawn_max {
        return None;
    }
    let exponent: u64 = if *restart_count < 6 {
        *restart_count as u64
    } else {
        6
    };
    proof {
        lemma2_to64();
        lemma_u64_shl_is_mul(1, exponent);
    }
    let multiplier = 1u64 << exponent;
    *restart_count = *restart_count + 1;
    let delay = match respawn_delay_secs.checked_mul(multiplier) {
        Some(product) => product,
        None => u64::MAX,
    };
    Some(delay)
}

/// The restart decision in plain arithmetic: the counter counts from zero
/// again only when more than the window (in nanoseconds) lies between the last
/// start and now; a positive limit that the counter has reached refuses the
/// restart; otherwise the delay is the base delay times two to the power of
/// the counter (at most six), saturated, and the counter goes up by one.
pub proof fn lemma_restart_decision(
    count: u32,
    now_ns: u64,
    last_start_ns: u64,
    delay_secs: u64,
    window_secs: u64,
    respawn_max: u32,
)
    ensures
        ({
            let c: int = if now_ns - last_start_ns > window_secs * 1_000_000_000 {
                0
            } else {
                count as int
            };
            let factor: int = if c < 6 {
                pow2(c as nat) as int
            } else {
                64
            };
            restart_decision(count, now_ns, last_start_ns, delay_secs, window_secs, respawn_max) == if respawn_max
                > 0 && c >= respawn_max {
                (None::<u64>, c as u32)
            } else {
                (
                    Some(if delay_secs * factor > u64::MAX {
                        u64::MAX
                    } else {
                        (delay_secs * factor) as u64
                    }),
                    (c + 1) as u32,
                )
            }
        }),
{
    lemma2_to64();
}

/// Before the cap, each restart doubles the delay of the one before, as long
/// as the doubled delay fits.
pub proof fn lemma_backoff_doubles(delay_secs: u64, count: u32)
    requires
        count < 6,
        backoff_delay(delay_secs, count) * 2 <= u64::MAX,
    ensures
        backoff_delay(delay_secs, (count + 1) as u32) == backoff_delay(delay_secs, count) * 2,
{
    lemma2_to64();
    assert(pow2(backoff_exponent((count + 1) as u32)) == 2 * pow2(backoff_exponent(count))) by {
        if count == 0 {
        } else if count == 1 {
        } else if count == 2 {
        } else if count == 3 {
        } else if count == 4 {
        } else {
        }
    }
    assert(delay_secs * pow2(backoff_exponent((count + 1) as u32)) == (delay_secs * pow2(
        backoff_exponent(count),
    )) * 2) by (nonlinear_arith)
        requires
            pow2(backoff_exponent((count + 1) as u32)) == 2 * pow2(backoff_exponent(count)),
    ;
}

/// From the seventh restart on, the delay stays at 64 times the base delay
/// (saturated).
pub proof fn lemma_backoff_capped(delay_secs: u64, count: u32)
    requires
        count >= 6,
    ensures
        backoff_delay(delay_secs, count) == backoff_delay(delay_secs, 6),
        backoff_delay(delay_secs, count) == if delay_secs * 64 > u64::MAX {
            u64::MAX
        } else {
            (delay_secs * 64) as u64
        },
{
    lemma2_to64();
}

/// Delays never shrink as the restart count grows.
pub proof fn lemma_backoff_monotone(delay_secs: u64, c1: u32, c2: u32)
    requires
        c1 <= c2,
    ensures
        backoff_delay(delay_secs, c1) <= backoff_delay(delay_secs, c2),
{
    lemma2_to64();
    let e1 = backoff_exponent(c1);
    let e2 = backoff_exponent(c2);
    assert(pow2(e1) <= pow2(e2)) by {
        assert(e1 <= e2);
        if e1 == 0 {
        } else if e1 == 1 {
        } else if e1 == 2 {
        } else if e1 == 3 {
        } else if e1 == 4 {
        } else if e1 == 5 {
        } else {
        }
    }
    assert(delay_secs * pow2(e1) <= delay_secs * pow2(e2)) by (nonlinear_arith)
        requires
            pow2(e1) <= pow2(e2),
    ;
}

/// Two restarts in a row inside the respawn window: the counter goes up by
/// one each time and the second delay is at least the first. This is the law
/// of a growing back-off, stated over two successive calls.
pub proof fn lemma_successive_restarts(
    delay_secs: u64,
    window_secs: u64,
    respawn_max: u32,
    count0: u32,
    start_ns: u64,
    now1_ns: u64,
    now2_ns: u64,
)
    requires
        !window_passed(now1_ns, start_ns, window_secs),
        !window_passed(now2_ns, start_ns, window_secs),
        !limit_reached(count0, respawn_max),
        !limit_reached((count0 + 1) as u32, respawn_max),
        count0 + 1 < u32::MAX,
    ensures
        effective_count(count0, now1_ns, start_ns, window_secs) == count0,
        effective_count((count0 + 1) as u32, now2_ns, start_ns, window_secs) == count0 + 1,
        backoff_delay(delay_secs, count0) <= backoff_delay(delay_secs, (count0 + 1) as u32),
{
    lemma_backoff_monotone(delay_secs, count0, (count0 + 1) as u32);
}

/// The restart counter after the first `k` of a series of exits at the
/// instants `nows`, starting from zero, with the same last start and settings.
pub open spec fn count_after_calls(
    nows: Seq<u64>,
    k: int,
    last_start_ns: u64,
    delay_secs: u64,
    window_secs: u64,
    respawn_max: u32,
) -> u32
    decreases k,
{
    if k <= 0 {
        0
    } else {
        restart_decision(
            count_after_calls(nows, k - 1, last_start_ns, delay_secs, window_secs, respawn_max),
            nows[k - 1],
            last_start_ns,
            delay_secs,
            window_secs,
            respawn_max,
        ).1
    }
}

/// Inside one respawn window, with a limit `respawn_max > 0`, exactly the
/// first `respawn_max` exits are granted a restart and every later one is
/// refused; the counter stops at the limit.
pub proof fn lemma_respawn_limit(
    nows: Seq<u64>,
    k: int,
    last_start_ns: u64,
    delay_secs: u64,
    window_secs: u64,
    respawn_max: u32,
)
    requires
        respawn_max > 0,
        0 <= k < nows.len(),
        forall|i: int| 0 <= i < nows.len() ==> !window_passed(#[trigger] nows[i], last_start_ns, window_secs),
    ensures
        count_after_calls(nows, k, last_start_ns, delay_secs, window_secs, respawn_max) == if k < respawn_max {
            k
        } else {
            respawn_max as int
        },
        restart_decision(
            count_after_calls(nows, k, last_start_ns, delay_secs, window_secs, respawn_max),
            nows[k],
            last_start_ns,
            delay_secs,
            window_secs,
            respawn_max,
        ).0 is Some <==> k < respawn_max,
    decreases k,
{
    if k > 0 {
        lemma_respawn_limit(nows, k - 1, last_start_ns, delay_secs, window_secs, respawn_max);
        assert(!window_passed(nows[k - 1], last_start_ns, window_secs));
    }
    assert(!window_passed(nows[k], last_start_ns, window_secs));
}

} // verus!
