use vstd::prelude::*;

verus! {

/// The wait before the first recording starts, counted down by the UI
/// frame loop.
///
/// Pure time arithmetic, kept apart from the rest of the looper state
/// because nothing here touches the device. Times are milliseconds on one
/// monotonic clock of the caller's choosing; only differences between them
/// matter.
pub struct Preroll {
    /// How long to wait. Zero means don't - recording starts the moment
    /// it's asked for.
    duration_ms: u64,
    /// Set while a countdown is running, cleared the moment it elapses or
    /// is called off.
    started_at: Option<u64>,
}

pub struct PrerollModel {
    pub duration_ms: u64,
    pub started_at: Option<u64>,
}

/// How long `now` is after `then`, or nothing if the clock seems to have
/// gone backwards.
pub open spec fn since(then: u64, now: u64) -> nat {
    if now >= then {
        (now - then) as nat
    } else {
        0
    }
}

impl View for Preroll {
    type V = PrerollModel;

    closed spec fn view(&self) -> PrerollModel {
        PrerollModel { duration_ms: self.duration_ms, started_at: self.started_at }
    }
}

impl Preroll {
    pub fn new(duration_ms: u64) -> (preroll: Self)
        ensures
            preroll@ == (PrerollModel { duration_ms, started_at: None }),
    {
        Preroll { duration_ms, started_at: None }
    }

    /// Whether there's a wait worth counting down at all.
    pub fn is_enabled(&self) -> (enabled: bool)
        ensures
            enabled == (self@.duration_ms > 0),
    {
        self.duration_ms != 0
    }

    /// The configured wait.
    pub fn duration_ms(&self) -> (duration_ms: u64)
        ensures
            duration_ms == self@.duration_ms,
    {
        self.duration_ms
    }

    pub fn start(&mut self, now: u64)
        ensures
            final(self)@ == (PrerollModel { started_at: Some(now), ..old(self)@ }),
    {
        self.started_at = Some(now);
    }

    pub fn cancel(&mut self)
        ensures
            final(self)@ == (PrerollModel { started_at: None, ..old(self)@ }),
    {
        self.started_at = None;
    }

    /// Whether a countdown is running.
    pub fn is_running(&self) -> (running: bool)
        ensures
            running == self@.started_at.is_some(),
    {
        self.started_at.is_some()
    }

    /// True on the frame the wait runs out, and only that frame - it
    /// clears itself. False whenever nothing is counting down, so a
    /// countdown called off before then never fires.
    pub fn take_if_elapsed(&mut self, now: u64) -> (fired: bool)
        ensures
            fired == (match old(self)@.started_at {
                Some(at) => since(at, now) >= old(self)@.duration_ms,
                None => false,
            }),
            final(self)@ == (if fired {
                PrerollModel { started_at: None, ..old(self)@ }
            } else {
                old(self)@
            }),
    {
        match self.started_at {
            Some(started_at) => {
                let waited = if now >= started_at {
                    now - started_at
                } else {
                    0
                };
                if waited >= self.duration_ms {
                    self.started_at = None;
                    true
                } else {
                    false
                }
            },
            None => false,
        }
    }

    /// Milliseconds left of the wait, or 0 when nothing is counting down;
    /// never negative, however late the frame lands.
    pub fn remaining_ms(&self, now: u64) -> (remaining: u64)
        ensures
            remaining == (match self@.started_at {
                Some(at) => if since(at, now) >= self@.duration_ms {
                    0
                } else {
                    self@.duration_ms - since(at, now)
                },
                None => 0,
            }),
    {
        match self.started_at {
            Some(started_at) => {
                let waited = if now >= started_at {
                    now - started_at
                } else {
                    0
                };
                if waited >= self.duration_ms {
                    0
                } else {
                    self.duration_ms - waited
                }
            },
            None => 0,
        }
    }

    /// Milliseconds of the wait already gone by, never more than the wait
    /// itself, or 0 when nothing is counting down or there is no wait.
    /// How far the bar has filled is this over `duration_ms`.
    pub fn elapsed_ms(&self, now: u64) -> (elapsed: u64)
        ensures
            elapsed == (match self@.started_at {
                Some(at) => if self@.duration_ms == 0 {
                    0
                } else if since(at, now) >= self@.duration_ms {
                    self@.duration_ms as int
                } else {
                    since(at, now) as int
                },
                None => 0,
            }),
            elapsed <= self@.duration_ms,
    {
        match self.started_at {
            Some(started_at) if self.duration_ms != 0 => {
                let waited = if now >= started_at {
                    now - started_at
                } else {
                    0
                };
                if waited >= self.duration_ms {
                    self.duration_ms
                } else {
                    waited
                }
            },
            _ => 0,
        }
    }
}

/// The time left and the time gone always add up to the wait while a
/// countdown runs.
pub proof fn lemma_remaining_plus_elapsed(duration_ms: u64, at: u64, now: u64)
    requires
        duration_ms > 0,
    ensures
        ({
            let gone = if since(at, now) >= duration_ms {
                duration_ms as int
            } else {
                since(at, now) as int
            };
            let left = if since(at, now) >= duration_ms {
                0
            } else {
                duration_ms - since(at, now)
            };
            gone + left == duration_ms
        }),
{
}

} // verus!
