use looper_pedal::indicator::{dot_pulses, press_button_label, state_label};
use looper_pedal::state_machine::LoopState;

#[test]
fn the_button_shows_what_a_press_does_next() {
    assert_eq!(press_button_label(LoopState::Idle, false), "⏺");
    assert_eq!(press_button_label(LoopState::Arming, false), "✖");
    assert_eq!(press_button_label(LoopState::Recording, false), "⏹");
    assert_eq!(press_button_label(LoopState::Overdubbing, false), "⏹");
    assert_eq!(press_button_label(LoopState::Looping, false), "⏸");
    assert_eq!(press_button_label(LoopState::Stopped, false), "▶");
}

#[test]
fn a_held_clear_shows_the_trash_can_in_every_state() {
    for state in [
        LoopState::Idle,
        LoopState::Arming,
        LoopState::Recording,
        LoopState::Overdubbing,
        LoopState::Looping,
        LoopState::Stopped,
    ] {
        assert_eq!(press_button_label(state, true), "🗑");
    }
}

#[test]
fn looping_and_overdubbing_buttons_differ() {
    assert_ne!(
        press_button_label(LoopState::Looping, false),
        press_button_label(LoopState::Overdubbing, false)
    );
}

#[test]
fn every_state_has_its_name() {
    assert_eq!(state_label(LoopState::Idle), "Empty");
    assert_eq!(state_label(LoopState::Arming), "Get ready");
    assert_eq!(state_label(LoopState::Recording), "Recording");
    assert_eq!(state_label(LoopState::Looping), "Looping");
    assert_eq!(state_label(LoopState::Overdubbing), "Overdubbing");
    assert_eq!(state_label(LoopState::Stopped), "Stopped");
}

#[test]
fn the_dot_pulses_only_around_capture() {
    assert!(dot_pulses(LoopState::Recording));
    assert!(dot_pulses(LoopState::Overdubbing));
    assert!(dot_pulses(LoopState::Arming));
    assert!(!dot_pulses(LoopState::Idle));
    assert!(!dot_pulses(LoopState::Looping));
    assert!(!dot_pulses(LoopState::Stopped));
}
