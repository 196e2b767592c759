use std::sync::Arc;

use looper_pedal::audio::engine::{build_audio_path, play_run};
use looper_pedal::audio::loop_stack::LoopStack;
use looper_pedal::audio::ring::sample_ring;
use looper_pedal::audio::shared_control::SharedControl;
use looper_pedal::config::AppConfig;
use looper_pedal::loop_mirror::LoopMirror;
use looper_pedal::looper::{DiskWork, LooperState};
use looper_pedal::settings::{SettingsState, StartBlocker};
use looper_pedal::state_machine::LoopState;

const RATE: u32 = 1_000;

fn quiet_settings() -> AppConfig {
    AppConfig {
        sample_rate: RATE,
        latency_ms: 8,
        preroll_ms: 0,
        volume_pct: 0,
        ..AppConfig::default()
    }
}

#[test]
fn an_input_run_is_recorded_exactly_in_the_states_that_capture() {
    let settings = quiet_settings();
    let control = Arc::new(SharedControl::new(settings.volume_pct));
    let (mut path, mut captured) = build_audio_path(&control, &settings, RATE, 1, 1, &Vec::new());
    let block = |from: i32| -> Vec<i32> { (from..from + 4).collect() };
    // Eight frames of delay: the first two blocks let out silence.
    path.input.process_run(&block(1), 0, 4, LoopState::Recording);
    path.input.process_run(&block(5), 0, 4, LoopState::Overdubbing);
    path.input.process_run(&block(9), 0, 4, LoopState::Recording);
    for state in [LoopState::Idle, LoopState::Arming, LoopState::Looping, LoopState::Stopped] {
        path.input.process_run(&block(13), 0, 4, state);
    }
    path.input.process_run(&block(17), 0, 4, LoopState::Overdubbing);
    let mut got = vec![0; 64];
    let n = captured.pop_slice(&mut got);
    assert_eq!(n, 16, "four capturing runs of four frames, nothing from the others");
    assert_eq!(&got[..16], &[0, 0, 0, 0, 0, 0, 0, 0, 1, 2, 3, 4, 13, 14, 15, 16]);
}

#[test]
fn an_input_run_takes_its_frames_from_the_chosen_channel() {
    let settings = AppConfig { input_channel: 1, latency_ms: 0, ..quiet_settings() };
    let control = Arc::new(SharedControl::new(settings.volume_pct));
    let (mut path, mut captured) = build_audio_path(&control, &settings, RATE, 2, 2, &Vec::new());
    let data = [1, 10, 2, 20, 3, 30, 4, 40];
    path.input.process_run(&data, 1, 2, LoopState::Recording);
    let mut got = vec![0; 8];
    let n = captured.pop_slice(&mut got);
    assert_eq!(&got[..n], &[20, 30], "frames one and two of the second channel, undelayed");
}

#[test]
fn an_output_run_records_the_first_take_while_recording() {
    let control = SharedControl::new(100);
    let mut stack = LoopStack::new(16, 4);
    let mut previous = LoopState::Idle;
    let mut out = [7; 4];
    play_run(&mut stack, &mut previous, &control, LoopState::Recording, false, false, &[10, 20], &[1, 2, 3], &mut out);
    assert_eq!(out, [10, 20, 0, 0], "the dry signal alone, silence where the ring fell short");
    assert_eq!(previous, LoopState::Recording);
    assert_eq!(stack.recorded_len(), 3, "what the recorder gave is the take so far");

    let mut out = [0; 4];
    play_run(&mut stack, &mut previous, &control, LoopState::Looping, false, false, &[100, 100, 100, 100], &[], &mut out);
    assert_eq!(stack.layer_count(), 1, "the take closed into the first layer");
    assert_eq!(out, [101, 102, 103, 101], "the loop mixed on the dry signal, wrapping at its length");
}

#[test]
fn an_output_run_overdubs_and_takes_the_requests() {
    let control = SharedControl::new(100);
    let mut stack = LoopStack::new(16, 4);
    assert!(stack.add_layer(&[1, 1, 1, 1]));
    let mut previous = LoopState::Looping;
    let mut out = [0; 4];
    play_run(&mut stack, &mut previous, &control, LoopState::Overdubbing, false, false, &[0; 4], &[5, 6], &mut out);
    assert_eq!(out, [1, 1, 1, 1], "the loop as it stood, the overdub not yet heard");
    let mut out = [0; 4];
    play_run(&mut stack, &mut previous, &control, LoopState::Looping, false, false, &[], &[], &mut out);
    assert_eq!(stack.layer_count(), 2);
    assert_eq!(out, [6, 7, 1, 1], "the overdub, silence where the recorder fell short");

    let mut out = [0; 4];
    play_run(&mut stack, &mut previous, &control, LoopState::Looping, false, true, &[], &[], &mut out);
    assert_eq!(stack.layer_count(), 1, "a removal drops the overdub");
    assert_eq!(out, [1, 1, 1, 1]);
    let mut out = [9; 4];
    play_run(&mut stack, &mut previous, &control, LoopState::Looping, true, false, &[], &[], &mut out);
    assert_eq!(stack.layer_count(), 0, "a clear leaves nothing");
    assert_eq!(out, [0, 0, 0, 0]);
}

#[test]
fn a_received_chunk_lands_in_the_open_take_only() {
    let (mut producer, consumer) = sample_ring(64);
    let mut mirror = LoopMirror::new(consumer, RATE, Vec::new());
    mirror.receive(&[9, 9]);
    mirror.tick(LoopState::Recording, 0, 0);
    mirror.receive(&[1, 2]);
    producer.push_slice(&[3]);
    mirror.receive(&[]);
    mirror.tick(LoopState::Looping, 3, 0);
    mirror.tick(LoopState::Looping, 3, 0);
    assert_eq!(mirror.layers(), vec![vec![1, 2, 3]], "nothing before the take opened, the chunk then what the ring held");
}

fn looping(settings: &AppConfig) -> LooperState {
    let control = Arc::new(SharedControl::new(settings.volume_pct));
    let (_path, captured) = build_audio_path(&control, settings, RATE, 1, 1, &Vec::new());
    let mut looper = LooperState::new(control, settings, captured, RATE, vec![vec![1, 2, 3]]);
    assert_eq!(looper.state(), LoopState::Stopped);
    looper.tick(true, 10);
    looper.tick(false, 20);
    assert_eq!(looper.state(), LoopState::Looping);
    looper
}

#[test]
fn the_overdub_control_is_judged_on_the_count_given() {
    let settings = quiet_settings();
    let mut looper = looping(&settings);
    let max = looper.max_layers();
    looper.toggle_overdub_with(max);
    assert_eq!(looper.state(), LoopState::Looping, "no room left");
    looper.toggle_overdub_with(max - 1);
    assert_eq!(looper.state(), LoopState::Overdubbing);
    looper.toggle_overdub_with(max);
    assert_eq!(looper.state(), LoopState::Looping, "an open overdub always closes");
}

#[test]
fn dropping_a_layer_is_judged_on_the_count_given() {
    let settings = quiet_settings();
    let mut looper = looping(&settings);
    assert!(matches!(looper.remove_last_layer_with(0), DiskWork::Nothing));
    assert_eq!(looper.state(), LoopState::Looping);
    assert!(matches!(looper.remove_last_layer_with(2), DiskWork::Save(_)));
    assert_eq!(looper.state(), LoopState::Looping);
    assert!(matches!(looper.remove_last_layer_with(1), DiskWork::Delete));
    assert_eq!(looper.state(), LoopState::Idle, "the only layer gone is a clear");
    assert!(matches!(looper.remove_last_layer_with(3), DiskWork::Nothing), "nothing to drop while idle");
}

#[test]
fn start_is_offered_only_for_a_usable_choice() {
    let none = SettingsState::new(None, Vec::new(), None, vec![44_100], 2);
    assert_eq!(none.start_blocker(), Some(StartBlocker::NoDevices));
    let no_rate = SettingsState::new(None, vec!["iD4".to_string()], None, Vec::new(), 2);
    assert_eq!(no_rate.start_blocker(), Some(StartBlocker::NoSampleRates));
    let no_inputs = SettingsState::new(None, vec!["iD4".to_string()], None, vec![44_100], 0);
    assert_eq!(no_inputs.start_blocker(), Some(StartBlocker::NoInputChannels));
    let usable = SettingsState::new(None, vec!["iD4".to_string()], None, vec![44_100], 2);
    assert_eq!(usable.start_blocker(), None);
}
