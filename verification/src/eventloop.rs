//! The decisions of the testing backend's main loop, which waits for
//! dispatches from other threads while delayed invocations come due.
use vstd::prelude::*;

use crate::timerqueue::Dur;

verus! {

/// The shorter of two spans.
pub open spec fn min_dur(a: Dur, b: Dur) -> Dur {
    if a.total_nanos() <= b.total_nanos() {
        a
    } else {
        b
    }
}

/// The shorter of two optional spans, where `None` is unbounded.
pub open spec fn min_opt(a: Option<Dur>, b: Option<Dur>) -> Option<Dur> {
    match (a, b) {
        (Some(x), Some(y)) => Some(min_dur(x, y)),
        (Some(x), None) => Some(x),
        (None, Some(y)) => Some(y),
        (None, None) => None,
    }
}

/// A span is well formed, if there is one.
pub open spec fn opt_wf(a: Option<Dur>) -> bool {
    match a {
        Some(d) => d.wf(),
        None => true,
    }
}

/// The shorter of two spans.
pub fn dur_min(a: Dur, b: Dur) -> (r: Dur)
    requires
        a.wf(),
        b.wf(),
    ensures
        r == min_dur(a, b),
{
    if a.secs < b.secs || (a.secs == b.secs && a.nanos <= b.nanos) {
        proof {
            assert(a.total_nanos() <= b.total_nanos()) by (nonlinear_arith)
                requires
                    a.secs < b.secs || (a.secs == b.secs && a.nanos <= b.nanos),
                    a.nanos < 1_000_000_000,
            ;
        }
        a
    } else {
        proof {
            assert(b.total_nanos() < a.total_nanos()) by (nonlinear_arith)
                requires
                    a.secs > b.secs || (a.secs == b.secs && a.nanos > b.nanos),
                    b.nanos < 1_000_000_000,
            ;
        }
        b
    }
}

/// `a - b`, for `b` no longer than `a`.
pub fn dur_sub(a: Dur, b: Dur) -> (r: Dur)
    requires
        a.wf(),
        b.wf(),
        b.total_nanos() <= a.total_nanos(),
    ensures
        r.wf(),
        r.total_nanos() == a.total_nanos() - b.total_nanos(),
{
    if a.nanos >= b.nanos {
        proof {
            assert(b.secs <= a.secs) by (nonlinear_arith)
                requires
                    b.secs * 1_000_000_000 + b.nanos <= a.secs * 1_000_000_000 + a.nanos,
                    a.nanos < 1_000_000_000,
                    b.nanos >= 0,
            ;
        }
        Dur { secs: a.secs - b.secs, nanos: a.nanos - b.nanos }
    } else {
        proof {
            assert(b.secs < a.secs) by (nonlinear_arith)
                requires
                    b.secs * 1_000_000_000 + b.nanos <= a.secs * 1_000_000_000 + a.nanos,
                    a.nanos < b.nanos,
            ;
        }
        Dur { secs: a.secs - b.secs - 1, nanos: 1_000_000_000 - b.nanos + a.nanos }
    }
}

/// How long one round of the main loop waits for a dispatch, and what is
/// left of the caller's timeout afterwards.
#[derive(Debug, Clone, Copy)]
pub struct WaitPlan {
    /// The longest wait; `None` waits until a dispatch arrives.
    pub recv_timeout: Option<Dur>,
    /// The caller's timeout, less `recv_timeout`; `None` is unbounded.
    pub timeout: Option<Dur>,
}

/// Plan a wait: wait until the next delayed invocation is due (`next_wakeup`
/// from now), but no longer than the remaining `timeout`.
pub fn plan_wait(timeout: Option<Dur>, next_wakeup: Option<Dur>) -> (r: WaitPlan)
    requires
        opt_wf(timeout),
        opt_wf(next_wakeup),
    ensures
        r.recv_timeout == min_opt(timeout, next_wakeup),
        opt_wf(r.timeout),
        match (timeout, r.recv_timeout) {
            (Some(t), Some(w)) => r.timeout matches Some(left) && left.total_nanos() == t.total_nanos()
                - w.total_nanos(),
            _ => r.timeout == timeout,
        },
{
    let recv_timeout = match (timeout, next_wakeup) {
        (Some(x), Some(y)) => Some(dur_min(x, y)),
        (Some(x), None) => Some(x),
        (None, Some(y)) => Some(y),
        (None, None) => None,
    };
    let timeout = match (timeout, recv_timeout) {
        (Some(t), Some(w)) => Some(dur_sub(t, w)),
        _ => timeout,
    };
    WaitPlan { recv_timeout, timeout }
}

/// Where one step of the main loop takes its work from.
#[derive(Debug, Clone, Copy, PartialEq, Eq, Structural)]
pub enum EventSource {
    /// The queue of dispatches made on the main thread.
    Unsend,
    /// The delayed invocations that are due.
    DueTimers,
    /// Dispatches from other threads, waited for.
    Dispatch,
}

/// Pick the source of the next work: the main thread's own queue first,
/// because nothing can be added to it while waiting, then the delayed
/// invocations that are due, for the same reason, and only then a wait for
/// other threads.
pub fn next_source(has_unsend: bool, has_due_timers: bool) -> (r: EventSource)
    ensures
        r == (if has_unsend {
            EventSource::Unsend
        } else if has_due_timers {
            EventSource::DueTimers
        } else {
            EventSource::Dispatch
        }),
{
    if has_unsend {
        EventSource::Unsend
    } else if has_due_timers {
        EventSource::DueTimers
    } else {
        EventSource::Dispatch
    }
}

/// How a wait for a dispatch ended.
#[derive(Debug, Clone, Copy, PartialEq, Eq, Structural)]
pub enum WaitOutcome {
    /// A dispatch arrived.
    Dispatched,
    /// `recv_timeout` passed without a dispatch.
    TimedOut,
    /// Every sender hung up.
    Disconnected,
}

/// What the main loop does next.
#[derive(Debug, Clone, Copy, PartialEq, Eq, Structural)]
pub enum StepAction {
    /// Run the dispatch that arrived, then return.
    RunAndReturn,
    /// Return without running anything.
    Return,
    /// Start another round.
    Continue,
    /// Sleep for the span, then return.
    SleepThenReturn(Dur),
    /// Sleep for the span, then start another round.
    SleepThenContinue(Dur),
    /// Nothing can arrive anymore: sleep for good.
    SleepForever,
}

/// The span is zero.
pub open spec fn is_zero(d: Option<Dur>) -> bool {
    d matches Some(x) && x.secs == 0 && x.nanos == 0
}

/// The action that follows a wait planned by `plan` that ended with
/// `outcome`. The caller's timeout is spent when nothing is left of it.
pub fn after_wait(plan: WaitPlan, outcome: WaitOutcome) -> (r: StepAction)
    ensures
        r == match outcome {
            WaitOutcome::Dispatched => StepAction::RunAndReturn,
            WaitOutcome::TimedOut => if is_zero(plan.timeout) {
                StepAction::Return
            } else {
                StepAction::Continue
            },
            WaitOutcome::Disconnected => match plan.recv_timeout {
                Some(d) => if is_zero(plan.timeout) {
                    StepAction::SleepThenReturn(d)
                } else {
                    StepAction::SleepThenContinue(d)
                },
                None => StepAction::SleepForever,
            },
        },
{
    let spent = match plan.timeout {
        Some(t) => t.secs == 0 && t.nanos == 0,
        None => false,
    };
    match outcome {
        WaitOutcome::Dispatched => StepAction::RunAndReturn,
        WaitOutcome::TimedOut => if spent {
            StepAction::Return
        } else {
            StepAction::Continue
        },
        WaitOutcome::Disconnected => match plan.recv_timeout {
            Some(d) => if spent {
                StepAction::SleepThenReturn(d)
            } else {
                StepAction::SleepThenContinue(d)
            },
            None => StepAction::SleepForever,
        },
    }
}

} // verus!
