//! A logger that forwards log messages to another thread.
use vstd::prelude::*;

verus! {

/// Wraps the logger that handles the messages which cannot be forwarded to
/// the thread that runs a test.
pub struct Logger<L> {
    pub inner: L,
}

impl<L> Logger<L> {
    /// Wrap `inner`.
    pub fn new(inner: L) -> (r: Logger<L>)
        ensures
            r.inner == inner,
    {
        Logger { inner }
    }
}

/// What becomes of a logging event offered to the current thread's delegate.
pub struct DelegateOutcome {
    /// The delegate took the event: the wrapped logger does not see it.
    pub handled: bool,
    /// The delegate refused the event: it can't process events anymore and
    /// is uninstalled.
    pub drop_delegate: bool,
}

/// Decide what becomes of a logging event, given the delegate's answer, or
/// `None` where no delegate is installed. An event that no delegate took
/// goes to the wrapped logger.
pub fn delegate_outcome(answer: Option<bool>) -> (r: DelegateOutcome)
    ensures
        r.handled == (answer == Some(true)),
        r.drop_delegate == (answer == Some(false)),
{
    match answer {
        Some(true) => DelegateOutcome { handled: true, drop_delegate: false },
        Some(false) => DelegateOutcome { handled: false, drop_delegate: true },
        None => DelegateOutcome { handled: false, drop_delegate: false },
    }
}

} // verus!
