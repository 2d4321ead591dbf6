//! Futures that resolve through the window manager.
use vstd::prelude::*;

verus! {

/// The result of a sleep whose timer was cancelled before it fired.
#[derive(Debug, Clone, Copy)]
pub struct SleepCancelled;

} // verus!
