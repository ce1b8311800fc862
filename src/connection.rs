//! Reaching the container runtime at startup: a failed attempt is followed by
//! another after a fixed pause, up to a fixed number of attempts, after which
//! the service gives up.
use vstd::prelude::*;

verus! {

/// Seconds between two attempts to reach the runtime.
pub const RETRY_INTERVAL_SECS: u64 = 15;

/// How many attempts are made before giving up: about five minutes of waiting.
pub const MAX_CONNECT_ATTEMPTS: u64 = 20;

/// What follows an attempt to reach the runtime.
#[derive(Clone, Copy, Debug, PartialEq, Eq, Structural)]
pub enum ConnectAction {
    /// The runtime answered: go on with it.
    Done,
    /// Wait `after_secs` seconds, then make attempt number `attempt`.
    Retry { attempt: u64, after_secs: u64 },
    /// The last allowed attempt failed: the service cannot start.
    GiveUp,
}

/// What follows attempt number `attempt` (counted from 1), which reached the runtime or not.
pub fn next_connect_action(attempt: u64, connected: bool) -> (r: ConnectAction)
    ensures
        connected ==> r == ConnectAction::Done,
        !connected && attempt >= MAX_CONNECT_ATTEMPTS ==> r == ConnectAction::GiveUp,
        !connected && attempt < MAX_CONNECT_ATTEMPTS ==> r == (ConnectAction::Retry {
            attempt: (attempt + 1) as u64,
            after_secs: RETRY_INTERVAL_SECS,
        }),
{
    if connected {
        ConnectAction::Done
    } else if attempt >= MAX_CONNECT_ATTEMPTS {
        ConnectAction::GiveUp
    } else {
        ConnectAction::Retry { attempt: attempt + 1, after_secs: RETRY_INTERVAL_SECS }
    }
}

} // verus!
