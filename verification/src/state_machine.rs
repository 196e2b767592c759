use vstd::prelude::*;

verus! {

/// Mimics a classic single-footswitch looper pedal: one control cycles
/// Idle -> Recording -> Looping -> Stopped -> Looping -> ..., and a
/// long-press clears from any state back to Idle. Overdub sits off that
/// cycle on a control of its own, so the press cycle stays the four
/// states above and nothing else.
///
/// The states cross the thread boundary as a `u8` - see `code` and
/// `from_code` - so their numbering is not free to change.
#[derive(Debug, Clone, Copy, PartialEq, Eq, Structural)]
pub enum LoopState {
    Idle,
    Recording,
    Looping,
    Stopped,
    Overdubbing,
    /// Counting down a configured pre-roll before recording starts, so
    /// there's time to get hands back on the guitar. The audio thread
    /// treats this like Idle - nothing is captured yet - but it is a
    /// published state of its own because a count-in eventually needs to
    /// click here.
    Arming,
}

/// Where a short press takes the pedal from `state`.
pub open spec fn press_spec(state: LoopState) -> LoopState {
    match state {
        LoopState::Idle => LoopState::Recording,
        LoopState::Recording => LoopState::Looping,
        LoopState::Looping => LoopState::Stopped,
        LoopState::Overdubbing => LoopState::Stopped,
        LoopState::Stopped => LoopState::Looping,
        LoopState::Arming => LoopState::Idle,
    }
}

/// Where the overdub control takes the pedal from `state`.
pub open spec fn toggle_overdub_spec(state: LoopState) -> LoopState {
    match state {
        LoopState::Looping => LoopState::Overdubbing,
        LoopState::Overdubbing => LoopState::Looping,
        other => other,
    }
}

/// The number a state is published as.
pub open spec fn state_code(state: LoopState) -> u8 {
    match state {
        LoopState::Idle => 0,
        LoopState::Recording => 1,
        LoopState::Looping => 2,
        LoopState::Stopped => 3,
        LoopState::Overdubbing => 4,
        LoopState::Arming => 5,
    }
}

/// The state a published number stands for. Anything past the known
/// numbers reads as `Arming`, the one state that captures and plays
/// nothing new.
pub open spec fn state_from_code(code: u8) -> LoopState {
    if code == 0 {
        LoopState::Idle
    } else if code == 1 {
        LoopState::Recording
    } else if code == 2 {
        LoopState::Looping
    } else if code == 3 {
        LoopState::Stopped
    } else if code == 4 {
        LoopState::Overdubbing
    } else {
        LoopState::Arming
    }
}

/// Whether audio is being captured into the loop in `state`.
pub open spec fn is_capturing(state: LoopState) -> bool {
    state == LoopState::Recording || state == LoopState::Overdubbing
}

impl LoopState {
    /// The number this state crosses the thread boundary as.
    pub fn code(self) -> (code: u8)
        ensures
            code == state_code(self),
    {
        match self {
            LoopState::Idle => 0,
            LoopState::Recording => 1,
            LoopState::Looping => 2,
            LoopState::Stopped => 3,
            LoopState::Overdubbing => 4,
            LoopState::Arming => 5,
        }
    }

    /// The state a published number stands for - see `state_from_code`.
    pub fn from_code(code: u8) -> (state: LoopState)
        ensures
            state == state_from_code(code),
    {
        match code {
            0 => LoopState::Idle,
            1 => LoopState::Recording,
            2 => LoopState::Looping,
            3 => LoopState::Stopped,
            4 => LoopState::Overdubbing,
            _ => LoopState::Arming,
        }
    }

    /// Recording or overdubbing: the states in which input lands in the
    /// loop.
    pub fn is_capturing(self) -> (capturing: bool)
        ensures
            capturing == is_capturing(self),
    {
        match self {
            LoopState::Recording | LoopState::Overdubbing => true,
            _ => false,
        }
    }
}

/// Publishing a state and reading it back on the other side of the
/// thread boundary gives the same state.
pub proof fn lemma_state_code_round_trip(state: LoopState)
    ensures
        state_from_code(state_code(state)) == state,
{
}

pub struct LoopStateMachine {
    state: LoopState,
}

impl LoopStateMachine {
    pub closed spec fn view_state(&self) -> LoopState {
        self.state
    }

    pub fn new() -> (machine: Self)
        ensures
            machine.view_state() == LoopState::Idle,
    {
        Self { state: LoopState::Idle }
    }

    /// A machine for a loop that was restored at startup: it exists, but
    /// nothing plays until asked.
    pub fn stopped() -> (machine: Self)
        ensures
            machine.view_state() == LoopState::Stopped,
    {
        Self { state: LoopState::Stopped }
    }

    pub fn state(&self) -> (state: LoopState)
        ensures
            state == self.view_state(),
    {
        self.state
    }

    /// Short press: advances the cycle. Both playing states stop, so the
    /// main control always means "stop" while something is playing, and
    /// a press part-way through a pre-roll calls it off.
    pub fn press(&mut self)
        ensures
            final(self).view_state() == press_spec(old(self).view_state()),
    {
        self.state = match self.state {
            LoopState::Idle => LoopState::Recording,
            LoopState::Recording => LoopState::Looping,
            LoopState::Looping | LoopState::Overdubbing => LoopState::Stopped,
            LoopState::Stopped => LoopState::Looping,
            LoopState::Arming => LoopState::Idle,
        };
    }

    /// Starts a pre-roll instead of recording straight away. Whether a
    /// press comes here or to `press` is the caller's call - it's the one
    /// that knows whether a delay is configured.
    pub fn arm(&mut self)
        ensures
            final(self).view_state() == (if old(self).view_state() == LoopState::Idle {
                LoopState::Arming
            } else {
                old(self).view_state()
            }),
    {
        if self.state == LoopState::Idle {
            self.state = LoopState::Arming;
        }
    }

    /// The pre-roll elapsed: recording starts for real.
    pub fn finish_arming(&mut self)
        ensures
            final(self).view_state() == (if old(self).view_state() == LoopState::Arming {
                LoopState::Recording
            } else {
                old(self).view_state()
            }),
    {
        if self.state == LoopState::Arming {
            self.state = LoopState::Recording;
        }
    }

    /// The overdub control: opens a new layer over the playing loop, or
    /// closes the one in progress. Nothing to do from any other state -
    /// there's no loop to overdub onto.
    pub fn toggle_overdub(&mut self)
        ensures
            final(self).view_state() == toggle_overdub_spec(old(self).view_state()),
    {
        self.state = match self.state {
            LoopState::Looping => LoopState::Overdubbing,
            LoopState::Overdubbing => LoopState::Looping,
            other => other,
        };
    }

    /// Long-press: clears the loop from any state, back to Idle. How long
    /// a hold that takes is `long_press_ms`, and `InputHandler`'s to
    /// measure.
    pub fn clear(&mut self)
        ensures
            final(self).view_state() == LoopState::Idle,
    {
        self.state = LoopState::Idle;
    }
}

impl Default for LoopStateMachine {
    fn default() -> (machine: Self)
        ensures
            machine.view_state() == LoopState::Idle,
    {
        Self::new()
    }
}

/// From an empty pedal, four presses go Recording, Looping, Stopped and
/// back to Looping; from there presses alternate between Stopped and
/// Looping for as long as they go on.
pub proof fn lemma_press_cycle()
    ensures
        press_spec(LoopState::Idle) == LoopState::Recording,
        press_spec(press_spec(LoopState::Idle)) == LoopState::Looping,
        press_spec(press_spec(press_spec(LoopState::Idle))) == LoopState::Stopped,
        press_spec(press_spec(press_spec(press_spec(LoopState::Idle)))) == LoopState::Looping,
        forall|s: LoopState|
            s == LoopState::Looping || s == LoopState::Stopped ==> press_spec(press_spec(s)) == s,
{
}

/// The main control always means "stop" while something is playing.
pub proof fn lemma_press_stops_playback(state: LoopState)
    requires
        state == LoopState::Looping || state == LoopState::Overdubbing,
    ensures
        press_spec(state) == LoopState::Stopped,
{
}

/// Overdubbing is entered and left only from and to Looping, so the
/// overdub control pressed twice from Looping or Overdubbing is back where
/// it started, and from any other state it does nothing at all.
pub proof fn lemma_toggle_overdub_twice(state: LoopState)
    ensures
        toggle_overdub_spec(toggle_overdub_spec(state)) == state,
        state != LoopState::Looping && state != LoopState::Overdubbing ==> toggle_overdub_spec(state)
            == state,
{
}

} // verus!
