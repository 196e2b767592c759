// Where a failing stream leaves word for the UI thread.
//
// Deliberately not part of `SharedControl`: that is atomics only and sits
// on the path every buffer takes, so a lock there would be a lock in the
// audio path. This is touched at most a handful of times in a stream's
// life - and only once one has already gone wrong - so a lock costs
// nothing and keeps the message, which a flag could not.

use std::sync::Arc;
use vstd::prelude::*;
use vstd::rwlock::{RwLock, RwLockPredicate};
use crate::hal::{hal_error_text, HalError};

verus! {

/// What the slot may hold: nothing yet, or the sentence of an error that
/// was reported.
pub struct ReportedFault;

impl RwLockPredicate<Option<String>> for ReportedFault {
    open spec fn inv(self, v: Option<String>) -> bool {
        v matches Some(m) ==> exists|e: HalError| m@ == #[trigger] hal_error_text(e)
    }
}

/// Latched rather than one-shot: a dead stream stays dead, and the screen
/// has to go on saying so until the device is opened again. Clones share
/// the one slot, so the side that reports and the side that reads can
/// each hold one.
#[derive(Clone)]
pub struct StreamFault {
    slot: Arc<RwLock<Option<String>, ReportedFault>>,
}

/// The slot after a failure reading `message` is reported: the first
/// failure is kept - what went wrong first is the cause, and everything
/// after it is a stream that has already stopped complaining about the
/// same thing.
pub open spec fn first_failure(held: Option<Seq<char>>, message: Seq<char>) -> Option<Seq<char>> {
    match held {
        Some(m) => Some(m),
        None => Some(message),
    }
}

/// `first_failure`, on the values themselves.
pub fn keep_first(held: Option<String>, message: String) -> (kept: Option<String>)
    ensures
        match held {
            Some(h) => kept matches Some(k) && k@ == h@,
            None => kept matches Some(k) && k@ == message@,
        },
{
    match held {
        Some(h) => Some(h),
        None => Some(message),
    }
}

impl StreamFault {
    /// Nothing wrong yet.
    pub fn new() -> (fault: StreamFault) {
        StreamFault { slot: Arc::new(RwLock::new(None, Ghost(ReportedFault))) }
    }

    /// Reports a failure, as the backend's error sink does; only the first
    /// one reported is kept.
    pub fn sink(&self, error: HalError) {
        let (held, handle) = self.slot.acquire_write();
        let kept = keep_first(held, error.message());
        handle.release_write(kept);
    }

    /// What went wrong, if anything has: the sentence of a reported
    /// error. Reading does not clear it.
    pub fn message(&self) -> (message: Option<String>)
        ensures
            message matches Some(m) ==> exists|e: HalError| m@ == #[trigger] hal_error_text(e),
    {
        let handle = self.slot.acquire_read();
        let held = match handle.borrow() {
            Some(m) => Some(m.clone()),
            None => None,
        };
        handle.release_read();
        held
    }
}

impl Default for StreamFault {
    fn default() -> (fault: StreamFault) {
        StreamFault::new()
    }
}

} // verus!
