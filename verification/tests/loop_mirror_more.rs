use looper_pedal::audio::ring::sample_ring;
use looper_pedal::config::AppConfig;
use looper_pedal::loop_mirror::{load, LoopMirror, MAX_SAVED_LAYERS};
use looper_pedal::state_machine::LoopState;
use looper_pedal::wav::encode;

fn settings(sample_rate: u32) -> AppConfig {
    AppConfig { sample_rate, max_layers: 8, ..AppConfig::default() }
}

#[test]
fn reading_stops_at_the_first_file_that_is_not_a_layer() {
    let files = vec![encode(&[1, 2], 100), b"garbage".to_vec(), encode(&[3, 4], 100)];
    assert_eq!(load(&files, &settings(100)), vec![vec![1, 2]]);
}

#[test]
fn layers_that_disagree_on_a_length_are_no_loop() {
    let files = vec![encode(&[1, 2], 100), encode(&[3, 4, 5], 100)];
    assert!(load(&files, &settings(100)).is_empty());
    let empty_layer = vec![encode(&[], 100)];
    assert!(load(&empty_layer, &settings(100)).is_empty(), "a layer has to hold something");
}

#[test]
fn no_more_files_are_read_than_any_setting_allows() {
    let files: Vec<Vec<u8>> = (0..MAX_SAVED_LAYERS + 2).map(|i| encode(&[i as i32], 100)).collect();
    let mut all = settings(100);
    all.max_layers = 100;
    assert_eq!(load(&files, &all).len(), MAX_SAVED_LAYERS);
}

#[test]
fn a_restored_loop_is_what_the_copy_starts_with() {
    let (_tx, rx) = sample_ring(16);
    let mut mirror = LoopMirror::new(rx, 100, vec![vec![1, 2, 3], vec![0, 5, 0]]);
    assert_eq!(mirror.layers(), vec![vec![1, 2, 3], vec![0, 5, 0]]);
    let files = mirror.save().expect("saves");
    assert_eq!(load(&files, &settings(100)), vec![vec![1, 2, 3], vec![0, 5, 0]]);
    // Nothing captured: a step on its own changes nothing on disk.
    assert!(!mirror.step(LoopState::Looping, 3, 0));
}

#[test]
fn an_overdub_that_wraps_starts_mid_loop() {
    let (mut tx, rx) = sample_ring(64);
    let mut mirror = LoopMirror::new(rx, 100, vec![vec![0, 0, 0, 0]]);
    mirror.tick(LoopState::Looping, 4, 0);
    mirror.tick(LoopState::Overdubbing, 4, 3);
    tx.push_slice(&[1, 2, 3, 4, 5]);
    mirror.tick(LoopState::Overdubbing, 4, 3);
    let stale = mirror.tick(LoopState::Looping, 4, 3);
    assert!(!stale, "the save waits for the frame after");
    assert!(mirror.tick(LoopState::Looping, 4, 3), "and then the loop is out of date");
    // Starting at 3: positions 3, 0, 1, 2 take 1..4, then 5 sums onto 3.
    assert_eq!(mirror.layers()[1], vec![2, 3, 4, 6]);
}
