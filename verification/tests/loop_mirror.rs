use looper_pedal::audio::loop_stack::LoopStack;
use looper_pedal::audio::ring::{sample_ring, SampleSender};
use looper_pedal::config::{
    AppConfig, DEFAULT_LATENCY_MS, DEFAULT_LONG_PRESS_MS, DEFAULT_MAX_LAYERS,
    DEFAULT_MAX_LOOP_SECS, DEFAULT_PREROLL_MS, DEFAULT_VOLUME_PCT,
};
use looper_pedal::loop_mirror::{load, LoopMirror};
use looper_pedal::state_machine::LoopState;

const RATE: u32 = 44_100;

/// A loop is measured in seconds against `max_loop_secs`, so the tests
/// about that limit run at 1 Hz: three samples is a three-second loop,
/// which keeps them readable instead of megabyte-sized.
const SLOW: u32 = 1;

fn new_mirror() -> (SampleSender, LoopMirror) {
    new_mirror_at(RATE)
}

fn new_mirror_at(sample_rate: u32) -> (SampleSender, LoopMirror) {
    let (producer, consumer) = sample_ring(1024);
    (producer, LoopMirror::new(consumer, sample_rate, Vec::new()))
}

/// What a saved loop is checked against on the way back in. Limits are
/// the defaults unless a test is specifically about one of them.
fn settings(sample_rate: u32) -> AppConfig {
    AppConfig {
        device_name: String::new(),
        sample_rate,
        input_channel: 0,
        volume_pct: DEFAULT_VOLUME_PCT,
        preroll_ms: DEFAULT_PREROLL_MS,
        latency_ms: DEFAULT_LATENCY_MS,
        max_loop_secs: DEFAULT_MAX_LOOP_SECS,
        max_layers: DEFAULT_MAX_LAYERS,
        long_press_ms: DEFAULT_LONG_PRESS_MS,
    }
}

/// One take, driven the way a frame loop would: the state changes, the
/// input callback delivers samples, the state changes back. The extra
/// tick is the frame on which the loop length settles.
fn record(
    input: &mut SampleSender,
    mirror: &mut LoopMirror,
    state: LoopState,
    samples: &[i32],
    loop_len: usize,
    take_start: usize,
) -> bool {
    mirror.tick(state, loop_len, take_start);
    input.push_slice(samples);
    mirror.tick(state, loop_len, take_start);
    mirror.tick(LoopState::Looping, loop_len, take_start);
    mirror.tick(LoopState::Looping, loop_len, take_start)
}

/// Where the loop is saved: the files a save hands back, written over
/// whatever was there, the way the app writes them into its directory.
struct Folder {
    files: Vec<Vec<u8>>,
}

impl Folder {
    fn new() -> Self {
        Folder { files: Vec::new() }
    }

    fn save(&mut self, mirror: &LoopMirror) -> Result<(), String> {
        self.files = mirror.save()?;
        Ok(())
    }

    fn delete(&mut self) {
        self.files.clear();
    }
}

#[test]
fn a_first_take_becomes_the_only_layer() {
    let (mut input, mut mirror) = new_mirror();

    let out_of_date = record(
        &mut input,
        &mut mirror,
        LoopState::Recording,
        &[1, 2, 3, 4],
        4,
        0,
    );

    assert!(out_of_date, "a new take needs saving");
    assert_eq!(mirror.layers().len(), 1);
    assert_eq!(mirror.layers(), vec![vec![1, 2, 3, 4]]);
}

#[test]
fn an_overdub_lands_where_it_began() {
    let (mut input, mut mirror) = new_mirror();
    record(
        &mut input,
        &mut mirror,
        LoopState::Recording,
        &[1, 2, 3, 4],
        4,
        0,
    );

    // Started two samples into the loop, and only two long.
    record(
        &mut input,
        &mut mirror,
        LoopState::Overdubbing,
        &[9, 8],
        4,
        2,
    );

    assert_eq!(mirror.layers().len(), 2);
    assert_eq!(mirror.layers()[1], vec![0, 0, 9, 8]);
}

#[test]
fn a_second_pass_sums_into_the_same_layer() {
    let (mut input, mut mirror) = new_mirror();
    record(&mut input, &mut mirror, LoopState::Recording, &[0; 4], 4, 0);

    // Six samples over a four-sample loop: the last two come back round.
    record(
        &mut input,
        &mut mirror,
        LoopState::Overdubbing,
        &[1, 1, 1, 1, 2, 2],
        4,
        0,
    );

    assert_eq!(mirror.layers()[1], vec![3, 3, 1, 1]);
}

#[test]
fn a_laid_out_take_matches_what_the_layer_stack_plays() {
    // The audio thread writes overdubs sample by sample as it plays;
    // this lays the same take out in one go. The two rules are written
    // separately, so this is what keeps them honest.
    let base = [10, 20, 30, 40];
    let take = [1, 2, 3, 4, 5, 6];
    let start = 2;

    let mut stack = LoopStack::new(16, 4);
    stack.begin_first_layer();
    stack.record_first_layer(&base);
    stack.finish_first_layer();

    let mut skipped = vec![0; start];
    stack.read_mixed(&mut skipped, 100);
    stack.begin_overdub();
    let mut heard = vec![0; take.len()];
    stack.read_mixed_with_overdub(&mut heard, &take, 100);
    stack.finish_overdub();

    // The overdub ended back at the top of the loop.
    let mut played = vec![0; base.len()];
    stack.read_mixed(&mut played, 100);

    let (mut input, mut mirror) = new_mirror();
    record(
        &mut input,
        &mut mirror,
        LoopState::Recording,
        &base,
        base.len(),
        0,
    );
    record(
        &mut input,
        &mut mirror,
        LoopState::Overdubbing,
        &take,
        base.len(),
        start,
    );

    let mirrored = &mirror.layers()[1];
    let summed: Vec<i32> = base
        .iter()
        .zip(mirrored)
        .map(|(base, layer)| base + layer)
        .collect();
    assert_eq!(summed, played, "mirrored layer should sum to what plays");
}

#[test]
fn recording_again_replaces_the_loop() {
    let (mut input, mut mirror) = new_mirror();
    record(&mut input, &mut mirror, LoopState::Recording, &[1, 2], 2, 0);
    record(
        &mut input,
        &mut mirror,
        LoopState::Overdubbing,
        &[3, 4],
        2,
        0,
    );
    assert_eq!(mirror.layers().len(), 2);

    record(
        &mut input,
        &mut mirror,
        LoopState::Recording,
        &[5, 6, 7],
        3,
        0,
    );

    assert_eq!(mirror.layers().len(), 1);
    assert_eq!(mirror.layers(), vec![vec![5, 6, 7]]);
}

#[test]
fn removing_and_clearing_follow_the_stack() {
    let (mut input, mut mirror) = new_mirror();
    record(&mut input, &mut mirror, LoopState::Recording, &[1, 2], 2, 0);
    record(
        &mut input,
        &mut mirror,
        LoopState::Overdubbing,
        &[3, 4],
        2,
        0,
    );

    mirror.remove_last_layer();
    assert_eq!(mirror.layers().len(), 1);

    mirror.clear();
    assert_eq!(mirror.layers().len(), 0);
    assert!(mirror.layers().is_empty());
}

#[test]
fn samples_arriving_with_no_take_open_are_dropped() {
    let (mut input, mut mirror) = new_mirror();
    record(&mut input, &mut mirror, LoopState::Recording, &[1, 2], 2, 0);

    // Stragglers from the take that just ended.
    input.push_slice(&[99, 99]);
    mirror.tick(LoopState::Looping, 2, 0);

    record(
        &mut input,
        &mut mirror,
        LoopState::Overdubbing,
        &[3, 4],
        2,
        0,
    );
    assert_eq!(mirror.layers()[1], vec![3, 4], "no stragglers mixed in");
}

#[test]
fn a_saved_loop_comes_back_layer_for_layer() {
    let mut directory = Folder::new();
    let (mut input, mut mirror) = new_mirror();
    record(
        &mut input,
        &mut mirror,
        LoopState::Recording,
        &[1, 2, 3],
        3,
        0,
    );
    record(
        &mut input,
        &mut mirror,
        LoopState::Overdubbing,
        &[4, 5, 6],
        3,
        0,
    );

    directory.save(&mirror).expect("saves");
    let loaded = load(&directory.files, &settings(RATE));

    assert_eq!(loaded, vec![vec![1, 2, 3], vec![4, 5, 6]]);

    directory.delete();
    assert!(load(&directory.files, &settings(RATE)).is_empty(), "deleted");
}

#[test]
fn a_loop_recorded_at_another_rate_is_not_loaded() {
    let mut directory = Folder::new();
    let (mut input, mut mirror) = new_mirror();
    record(&mut input, &mut mirror, LoopState::Recording, &[1, 2], 2, 0);
    directory.save(&mirror).expect("saves");

    // No resampling, so a rate change means the loop is unusable.
    assert!(load(&directory.files, &settings(48_000)).is_empty());
    assert_eq!(load(&directory.files, &settings(RATE)).len(), 1);
}

#[test]
fn a_gap_in_what_arrived_stops_the_loop_being_saved() {
    let mut directory = Folder::new();
    let (mut input, mut mirror) = new_mirror();
    record(&mut input, &mut mirror, LoopState::Recording, &[1, 2], 2, 0);

    mirror.note_lost_samples();

    // Better no save than one that doesn't match what was played.
    assert!(directory.save(&mirror).is_err());
    assert!(load(&directory.files, &settings(RATE)).is_empty());
}

#[test]
fn a_fresh_loop_can_be_saved_again_after_a_gap() {
    let mut directory = Folder::new();
    let (mut input, mut mirror) = new_mirror();
    record(&mut input, &mut mirror, LoopState::Recording, &[1, 2], 2, 0);
    mirror.note_lost_samples();
    assert!(directory.save(&mirror).is_err());

    // Clearing throws away the takes the gap applied to, so there is
    // nothing left for it to be right about. Latching it for the whole
    // session would quietly stop saving anything ever again.
    mirror.clear();
    record(&mut input, &mut mirror, LoopState::Recording, &[3, 4], 2, 0);
    directory.save(&mirror).expect("a loop recorded since the gap saves");
    assert_eq!(load(&directory.files, &settings(RATE)), vec![vec![3, 4]]);
}

#[test]
fn recording_over_a_lost_loop_makes_it_savable_again() {
    let mut directory = Folder::new();
    let (mut input, mut mirror) = new_mirror();
    record(&mut input, &mut mirror, LoopState::Recording, &[1, 2], 2, 0);
    mirror.note_lost_samples();

    // No clear in between: a first take replaces the whole loop by
    // itself, so the gap no longer applies to anything held.
    record(&mut input, &mut mirror, LoopState::Recording, &[5, 6, 7], 3, 0);
    directory.save(&mirror).expect("saves");
    assert_eq!(load(&directory.files, &settings(RATE)), vec![vec![5, 6, 7]]);
}

#[test]
fn a_loop_longer_than_the_setting_now_allows_is_not_loaded() {
    let mut directory = Folder::new();
    let (mut input, mut mirror) = new_mirror_at(SLOW);
    record(&mut input, &mut mirror, LoopState::Recording, &[1, 2, 3], 3, 0);
    directory.save(&mirror).expect("saves");

    let mut tightened = settings(SLOW);
    tightened.max_loop_secs = 2;
    assert!(
        load(&directory.files, &tightened).is_empty(),
        "a three-second loop does not fit a two-second limit"
    );

    tightened.max_loop_secs = 3;
    assert_eq!(load(&directory.files, &tightened).len(), 1, "three fits three");
}

#[test]
fn layers_past_the_setting_are_dropped_and_the_rest_still_load() {
    let mut directory = Folder::new();
    let (mut input, mut mirror) = new_mirror();
    record(&mut input, &mut mirror, LoopState::Recording, &[1, 2], 2, 0);
    record(&mut input, &mut mirror, LoopState::Overdubbing, &[3, 4], 2, 0);
    record(&mut input, &mut mirror, LoopState::Overdubbing, &[5, 6], 2, 0);
    directory.save(&mirror).expect("saves");

    let mut fewer = settings(RATE);
    fewer.max_layers = 2;
    // Layers are independent takes, so the ones underneath are still
    // exactly what was played - only what no longer fits goes.
    assert_eq!(
        load(&directory.files, &fewer),
        vec![vec![1, 2], vec![3, 4]],
        "the layers that still fit come back"
    );
}

#[test]
fn a_first_take_that_captured_nothing_clears_the_saved_loop() {
    let mut directory = Folder::new();
    let (mut input, mut mirror) = new_mirror();
    record(&mut input, &mut mirror, LoopState::Recording, &[1, 2], 2, 0);
    directory.save(&mirror).expect("saves");
    assert_eq!(load(&directory.files, &settings(RATE)).len(), 1);

    // Record pressed and undone before a single sample arrived.
    mirror.tick(LoopState::Recording, 2, 0);
    let out_of_date = mirror.tick(LoopState::Looping, 0, 0);

    assert!(out_of_date, "the loop is gone, so the saved copy is stale");
    directory.save(&mirror).expect("saves");
    assert!(
        load(&directory.files, &settings(RATE)).is_empty(),
        "otherwise the old loop comes back at the next launch"
    );
}
