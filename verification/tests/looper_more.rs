use std::sync::Arc;

use looper_pedal::audio::engine::{build_audio_path, AudioPath};
use looper_pedal::audio::shared_control::SharedControl;
use looper_pedal::config::AppConfig;
use looper_pedal::looper::{can_overdub_with, can_remove_layer_with, DiskWork, LooperState};
use looper_pedal::state_machine::LoopState;

const RATE: u32 = 1_000;

fn settings() -> AppConfig {
    AppConfig {
        sample_rate: RATE,
        preroll_ms: 0,
        long_press_ms: 500,
        max_layers: 2,
        ..AppConfig::default()
    }
}

fn start() -> (LooperState, AudioPath, Arc<SharedControl>) {
    let settings = settings();
    let control = Arc::new(SharedControl::new(settings.volume_pct));
    let (path, captured) = build_audio_path(&control, &settings, RATE, 1, 1, &Vec::new());
    let looper = LooperState::new(Arc::clone(&control), &settings, captured, RATE, Vec::new());
    (looper, path, control)
}

fn cycle(path: &mut AudioPath, samples: &[i32]) {
    path.input.process(samples);
    let mut out = vec![0; samples.len()];
    path.output.process(&mut out);
}

fn press(looper: &mut LooperState, at: u64) {
    looper.tick(true, at);
    looper.tick(false, at);
}

#[test]
fn overdub_and_removal_are_judged_on_the_layer_count() {
    assert!(can_overdub_with(LoopState::Looping, 1, 2));
    assert!(!can_overdub_with(LoopState::Looping, 2, 2), "no layer left");
    assert!(can_overdub_with(LoopState::Overdubbing, 2, 2), "closing is always possible");
    assert!(!can_overdub_with(LoopState::Stopped, 0, 2));
    assert!(can_remove_layer_with(LoopState::Stopped, 1));
    assert!(!can_remove_layer_with(LoopState::Overdubbing, 2), "not mid-take");
    assert!(!can_remove_layer_with(LoopState::Looping, 0));
}

#[test]
fn a_loop_is_recorded_overdubbed_and_peeled_back() {
    let (mut looper, mut path, _control) = start();
    assert_eq!(looper.max_layers(), 2);
    assert_eq!(looper.long_press_ms(), 500);
    let mut at = 10;

    press(&mut looper, at);
    assert_eq!(looper.state(), LoopState::Recording);
    for _ in 0..4 {
        cycle(&mut path, &[100; 16]);
    }
    at += 10;
    press(&mut looper, at);
    assert_eq!(looper.state(), LoopState::Looping);
    cycle(&mut path, &[0; 16]);
    at += 10;
    looper.tick(false, at);
    assert_eq!(looper.layer_count(), 1);
    assert!(looper.can_overdub());

    looper.toggle_overdub();
    assert_eq!(looper.state(), LoopState::Overdubbing);
    // The frame loop runs throughout, as it would.
    looper.tick(false, at);
    for _ in 0..4 {
        cycle(&mut path, &[7; 16]);
        looper.tick(false, at);
    }
    looper.toggle_overdub();
    assert_eq!(looper.state(), LoopState::Looping);
    looper.tick(false, at);
    cycle(&mut path, &[0; 16]);
    at += 10;
    looper.tick(false, at);
    assert_eq!(looper.layer_count(), 2);
    assert!(!looper.can_overdub(), "both layers used");
    looper.toggle_overdub();
    assert_eq!(looper.state(), LoopState::Looping, "so the control does nothing");

    assert!(looper.can_remove_layer());
    match looper.remove_last_layer() {
        DiskWork::Save(Ok(files)) => assert_eq!(files.len(), 1, "the loop saves again, one layer down"),
        _ => panic!("dropping a layer saves what is left"),
    }
    cycle(&mut path, &[0; 16]);
    at += 10;
    looper.tick(false, at);
    assert_eq!(looper.layer_count(), 1);

    assert!(matches!(looper.remove_last_layer(), DiskWork::Delete), "the last layer is a clear");
    assert_eq!(looper.state(), LoopState::Idle);
    assert!(matches!(looper.remove_last_layer(), DiskWork::Nothing), "nothing left to drop");
}

#[test]
fn the_button_latch_holds_the_control_down() {
    let (mut looper, _path, _control) = start();
    looper.set_button_held(true);
    looper.tick(false, 0);
    looper.tick(false, 600);
    assert!(looper.is_long_press_active(), "held past the threshold by the button alone");
    looper.set_button_held(false);
    let report = looper.tick(false, 700);
    assert!(!report.delete_saved);
    assert!(!looper.is_long_press_active());
}

#[test]
fn a_long_press_asks_for_the_saved_loop_to_go() {
    let (mut looper, _path, control) = start();
    control.note_input_underrun();
    let first = looper.tick(true, 0);
    assert_eq!((first.input_underruns, first.output_underruns), (1, 0));
    assert!(!first.delete_saved);
    let cleared = looper.tick(true, 500);
    assert!(cleared.delete_saved);
    assert_eq!(looper.state(), LoopState::Idle);
}
