//! The reaper: what to do with the answer of one non-blocking wait for any
//! terminated child process. The driver performs the wait and the pause.

use vstd::prelude::*;

verus! {

/// Seconds to pause when no terminated child was there to collect.
pub const REAP_INTERVAL_SECS: u64 = 60;

/// The answer of one non-blocking wait for any child.
#[derive(Clone, Copy, Debug, PartialEq, Eq, Structural)]
pub enum ChildStatus {
    /// The child `pid` exited with `code`.
    Exited { pid: i32, code: i32 },
    /// The child `pid` was stopped by `signal`.
    Stopped { pid: i32, signal: i32 },
    /// The child `pid` was terminated by `signal`.
    Signaled { pid: i32, signal: i32, core_dumped: bool },
    /// Children exist, but none has terminated.
    NoneReady,
    /// The wait failed with `errno`, as it does when there is no child.
    Failed { errno: i32 },
}

/// Why a collected child is reported.
#[derive(Clone, Copy, Debug, PartialEq, Eq, Structural)]
pub enum Cause {
    /// Normal exit, with the exit code.
    Exit { code: i32 },
    /// Stopped by a signal.
    Stop { signal: i32 },
    /// Terminated by a signal.
    Signal { signal: i32 },
}

/// A collected child and the cause to report for it.
#[derive(Clone, Copy, Debug, PartialEq, Eq, Structural)]
pub struct Collected {
    pub pid: i32,
    pub cause: Cause,
}

/// What the reaper does after one wait: the child to report, if one was
/// collected, and the seconds to pause before the next wait.
#[derive(Clone, Copy, Debug, PartialEq, Eq, Structural)]
pub struct ReaperStep {
    pub report: Option<Collected>,
    pub pause_secs: u64,
}

/// The child that a wait collected, with the cause to report for it.
pub open spec fn collected(status: ChildStatus) -> Option<Collected> {
    match status {
        ChildStatus::Exited { pid, code } => Some(Collected { pid, cause: Cause::Exit { code } }),
        ChildStatus::Stopped { pid, signal } => Some(
            Collected { pid, cause: Cause::Stop { signal } },
        ),
        ChildStatus::Signaled { pid, signal, core_dumped } => Some(
            Collected { pid, cause: Cause::Signal { signal } },
        ),
        ChildStatus::NoneReady => None,
        ChildStatus::Failed { errno } => None,
    }
}

/// The reaper's rule: a collected child is reported and the next wait
/// follows at once, since more children may be ready; otherwise nothing is
/// reported and the reaper pauses.
pub open spec fn reaped(status: ChildStatus) -> ReaperStep {
    ReaperStep {
        report: collected(status),
        pause_secs: if collected(status) is Some {
            0
        } else {
            REAP_INTERVAL_SECS
        },
    }
}

/// Decides what follows one non-blocking wait for any child.
pub fn reap(status: ChildStatus) -> (r: ReaperStep)
    ensures
        r == reaped(status),
{
    let report = match status {
        ChildStatus::Exited { pid, code } => Some(Collected { pid, cause: Cause::Exit { code } }),
        ChildStatus::Stopped { pid, signal } => Some(
            Collected { pid, cause: Cause::Stop { signal } },
        ),
        ChildStatus::Signaled { pid, signal, core_dumped: _ } => Some(
            Collected { pid, cause: Cause::Signal { signal } },
        ),
        ChildStatus::NoneReady => None,
        ChildStatus::Failed { errno: _ } => None,
    };
    let pause_secs = match report {
        Some(_) => 0,
        None => REAP_INTERVAL_SECS,
    };
    ReaperStep { report, pause_secs }
}

} // verus!
