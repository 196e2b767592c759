// What the looper screen shows of the pedal's state, as text: the glyph on
// the main button and the name beside the state dot. Drawing them is the
// front end's business; choosing them is decided here.

use vstd::prelude::*;

use crate::state_machine::LoopState;

verus! {

/// The glyph on the main button: what a short press does next, or a trash
/// can while a long press that clears is being held.
pub open spec fn button_glyph(state: LoopState, long_press_active: bool) -> Seq<char> {
    if long_press_active {
        "🗑"@
    } else {
        match state {
            LoopState::Idle => "⏺"@,
            LoopState::Arming => "✖"@,
            LoopState::Recording => "⏹"@,
            LoopState::Overdubbing => "⏹"@,
            LoopState::Looping => "⏸"@,
            LoopState::Stopped => "▶"@,
        }
    }
}

/// The name shown beside the state dot.
pub open spec fn state_name(state: LoopState) -> Seq<char> {
    match state {
        LoopState::Idle => "Empty"@,
        LoopState::Arming => "Get ready"@,
        LoopState::Recording => "Recording"@,
        LoopState::Looping => "Looping"@,
        LoopState::Overdubbing => "Overdubbing"@,
        LoopState::Stopped => "Stopped"@,
    }
}

/// Label for the main button. Arming gets a cancel cross of its own,
/// because a press there throws the pending recording away rather than
/// stopping one under way; overdubbing shows a stop square rather than
/// looping's pause, so the two playing states are not told apart by the
/// dot alone. Every glyph has to exist in the bundled fonts.
pub fn press_button_label(state: LoopState, long_press_active: bool) -> (label: &'static str)
    ensures
        label@ == button_glyph(state, long_press_active),
{
    if long_press_active {
        return "🗑";
    }
    match state {
        LoopState::Idle => "⏺",
        LoopState::Arming => "✖",
        LoopState::Recording => "⏹",
        LoopState::Overdubbing => "⏹",
        LoopState::Looping => "⏸",
        LoopState::Stopped => "▶",
    }
}

/// The name of `state` as the indicator shows it.
pub fn state_label(state: LoopState) -> (label: &'static str)
    ensures
        label@ == state_name(state),
{
    match state {
        LoopState::Idle => "Empty",
        LoopState::Arming => "Get ready",
        LoopState::Recording => "Recording",
        LoopState::Looping => "Looping",
        LoopState::Overdubbing => "Overdubbing",
        LoopState::Stopped => "Stopped",
    }
}

/// Whether the indicator's dot pulses: while something is being captured,
/// or is about to be.
pub open spec fn pulses(state: LoopState) -> bool {
    state is Recording || state is Overdubbing || state is Arming
}

/// Whether the dot pulses in `state`.
pub fn dot_pulses(state: LoopState) -> (pulsing: bool)
    ensures
        pulsing == pulses(state),
{
    match state {
        LoopState::Recording | LoopState::Overdubbing | LoopState::Arming => true,
        _ => false,
    }
}

} // verus!
