//! Waiting: how often a wait is polled, and how it ended.

use vstd::prelude::*;

verus! {

/// Waits are polled at most this often, so that a stopped clock cannot hang
/// them.
pub const POLL_LIMIT: u64 = 0xffff_ffff_ffff_ffff;

/// How the wait that an asynchronous step asked for ended.
#[derive(Clone, Copy, Debug, PartialEq, Eq, Structural)]
pub enum WaitOutcome {
    /// The wake condition was met.
    Woken,
    /// The wait cell was closed.
    Closed,
    /// The wait ran out of time first.
    TimedOut,
}

} // verus!
