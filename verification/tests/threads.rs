use std::sync::Arc;

use looper_pedal::audio::engine::{build_audio_path, AudioPath};
use looper_pedal::audio::fault::StreamFault;
use looper_pedal::audio::shared_control::SharedControl;
use looper_pedal::config::AppConfig;

fn movable_to_a_callback<T: Send + 'static>(_: &T) {}
fn shareable_between_threads<T: Send + Sync>(_: &T) {}

#[test]
fn each_half_of_the_audio_path_can_move_into_its_callback() {
    let settings = AppConfig::default();
    let control = Arc::new(SharedControl::new(settings.volume_pct));
    let (path, captured) = build_audio_path(&control, &settings, 48_000, 2, 2, &Vec::new());
    let AudioPath { input, output } = path;
    movable_to_a_callback(&input);
    movable_to_a_callback(&output);
    movable_to_a_callback(&captured);
}

#[test]
fn the_relay_and_the_fault_slot_are_shared_across_threads() {
    shareable_between_threads(&SharedControl::new(100));
    let fault = StreamFault::new();
    shareable_between_threads(&fault);
    movable_to_a_callback(&fault.clone());
}
