//! The decisions of the wait for the monitored command: what each report of
//! `waitpid` means for the loop that waits.
use vstd::prelude::*;

verus! {

/// What one `waitpid` call on the child reported.
#[derive(Clone, Copy, PartialEq, Eq, Structural)]
pub enum WaitEvent {
    /// The child exited with this code.
    Exited(i32),
    /// A signal with this number ended the child.
    Signaled(i32),
    /// Another state change (stopped, continued).
    Other,
    /// There is no such child to wait for (`ECHILD`).
    NoChild,
    /// The call was interrupted by a signal (`EINTR`).
    Interrupted,
    /// The call failed otherwise.
    Failed,
}

/// What the wait does next: wait again, or finish with the child's exit
/// code and the signal that ended it (neither when they cannot be known).
#[derive(Clone, Copy, PartialEq, Eq, Structural)]
pub enum WaitStep {
    Again,
    Done(Option<i32>, Option<i32>),
}

/// The step that follows each report: an exit gives its code, a signal its
/// number; other state changes and interruptions wait again; a missing
/// child or a failed call ends the wait with nothing known.
pub open spec fn next_wait_step(e: WaitEvent) -> WaitStep {
    match e {
        WaitEvent::Exited(code) => WaitStep::Done(Some(code), None),
        WaitEvent::Signaled(sig) => WaitStep::Done(None, Some(sig)),
        WaitEvent::Other => WaitStep::Again,
        WaitEvent::Interrupted => WaitStep::Again,
        WaitEvent::NoChild => WaitStep::Done(None, None),
        WaitEvent::Failed => WaitStep::Done(None, None),
    }
}

/// The step that follows a report of `waitpid` (see `next_wait_step`).
pub fn wait_step(e: WaitEvent) -> (r: WaitStep)
    ensures
        r == next_wait_step(e),
{
    match e {
        WaitEvent::Exited(code) => WaitStep::Done(Some(code), None),
        WaitEvent::Signaled(sig) => WaitStep::Done(None, Some(sig)),
        WaitEvent::Other | WaitEvent::Interrupted => WaitStep::Again,
        WaitEvent::NoChild | WaitEvent::Failed => WaitStep::Done(None, None),
    }
}

} // verus!
