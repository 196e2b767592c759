use std::sync::Arc;

use looper_pedal::audio::engine::{build_audio_path, AudioPath};
use looper_pedal::audio::shared_control::SharedControl;
use looper_pedal::config::AppConfig;
use looper_pedal::hal::mock;
use looper_pedal::loop_mirror::load;
use looper_pedal::looper::LooperState;
use looper_pedal::state_machine::LoopState;

/// Small enough to follow by hand.
const RATE: u32 = 44_100;
const PREROLL_MS: u32 = 1_000;

/// Samples the driver hands over per callback in these tests: well inside
/// the headroom the default latency gives at this rate.
const BLOCK: usize = 256;

fn settings() -> AppConfig {
    AppConfig {
        device_name: mock::DEVICE.to_string(),
        sample_rate: RATE,
        preroll_ms: PREROLL_MS,
        // Short enough that a test can hold past it deliberately.
        long_press_ms: 500,
        ..AppConfig::default()
    }
}

/// A looper over an audio path with no device behind it, mono, seeded
/// with `restored`; the path is what a driver would call.
fn start_with(settings: &AppConfig, restored: Vec<Vec<i32>>) -> (LooperState, AudioPath) {
    let control = Arc::new(SharedControl::new(settings.volume_pct));
    let (path, captured) = build_audio_path(&control, settings, RATE, 1, 1, &restored);
    let looper = LooperState::new(control, settings, captured, RATE, restored);
    (looper, path)
}

fn start(settings: &AppConfig) -> (LooperState, AudioPath) {
    start_with(settings, Vec::new())
}

/// One buffer switch: the input callback, then the output one, the order
/// a driver runs them in.
fn cycle(path: &mut AudioPath, samples: &[i32]) {
    path.input.process(samples);
    let mut out = vec![0; samples.len()];
    path.output.process(&mut out);
}

/// One press: down on a frame, up on the next. `ShortPress` is a release,
/// so it takes both.
fn press(looper: &mut LooperState, down: u64, up: u64) {
    looper.tick(true, down);
    looper.tick(false, up);
}

#[test]
fn a_press_on_the_frame_the_pre_roll_expires_calls_it_off() {
    let (mut looper, _path) = start(&settings());
    let start: u64 = 1_000;

    press(&mut looper, start, start);
    assert_eq!(looper.state(), LoopState::Arming, "counting down");

    // Down before the countdown runs out, up exactly as it does.
    let expiry = start + PREROLL_MS as u64;
    looper.tick(true, expiry - 1);
    looper.tick(false, expiry);

    assert_eq!(
        looper.state(),
        LoopState::Idle,
        "the press called it off; recording anyway would start a take nobody asked for"
    );

    // And it stays off - a cancelled countdown must not fire later.
    looper.tick(false, expiry + 500);
    assert_eq!(looper.state(), LoopState::Idle);
}

#[test]
fn a_pre_roll_left_alone_starts_recording_when_it_runs_out() {
    // The other side of the same rule: without a press, the expiry is
    // what has the say.
    let (mut looper, _path) = start(&settings());
    let start: u64 = 1_000;

    press(&mut looper, start, start);
    let expiry = start + PREROLL_MS as u64;

    looper.tick(false, expiry - 1);
    assert_eq!(looper.state(), LoopState::Arming, "not yet");

    looper.tick(false, expiry);
    assert_eq!(looper.state(), LoopState::Recording);
}

#[test]
fn the_countdown_readout_matches_the_frame_it_was_ticked_with() {
    // The readouts answer from the frame's own clock rather than asking
    // the time again, so a screen cannot show a countdown that disagrees
    // with the state drawn beside it.
    let (mut looper, _path) = start(&settings());
    let start: u64 = 1_000;
    press(&mut looper, start, start);

    looper.tick(false, start + 250);
    assert_eq!(looper.preroll_remaining_ms(), 750);
    assert_eq!(looper.preroll_elapsed_ms() * 4, looper.preroll_ms());

    // Asked again with no tick between, it must not have moved.
    assert_eq!(looper.preroll_elapsed_ms() * 4, looper.preroll_ms());
}

#[test]
fn a_take_records_loops_and_clears() {
    let no_preroll = AppConfig {
        preroll_ms: 0,
        ..settings()
    };
    let (mut looper, mut path) = start(&no_preroll);
    let mut at: u64 = 1_000;

    at += 10;
    press(&mut looper, at, at);
    assert_eq!(looper.state(), LoopState::Recording, "no pre-roll, straight in");

    for _ in 0..8 {
        cycle(&mut path, &[500; BLOCK]);
    }
    at += 10;
    press(&mut looper, at, at);
    assert_eq!(looper.state(), LoopState::Looping);

    // The audio thread needs a callback to publish what it settled on.
    cycle(&mut path, &[0; BLOCK]);
    at += 10;
    looper.tick(false, at);
    assert_eq!(looper.layer_count(), 1, "one layer, from one take");

    // Held past the threshold: a long press clears rather than cycling.
    looper.tick(true, at);
    looper.tick(true, at + 600);
    assert_eq!(looper.state(), LoopState::Idle, "cleared");
}

#[test]
fn a_saved_loop_comes_back_stopped_rather_than_playing() {
    let settings = settings();
    let (mut looper, mut path) = start(&settings);
    let at: u64 = 1_000;
    let mut saved: Vec<Vec<u8>> = Vec::new();
    let mut keep = |report: looper_pedal::looper::FrameReport| {
        if let Some(Ok(files)) = report.save {
            saved = files;
        }
    };

    // Record something and let it be written.
    keep(looper.tick(true, at));
    keep(looper.tick(false, at));
    keep(looper.tick(false, at + PREROLL_MS as u64));
    for _ in 0..16 {
        cycle(&mut path, &[250; BLOCK]);
        keep(looper.tick(false, at + PREROLL_MS as u64 + 1));
    }
    let stop = at + PREROLL_MS as u64 + 10;
    keep(looper.tick(true, stop));
    keep(looper.tick(false, stop));
    cycle(&mut path, &[0; BLOCK]);
    keep(looper.tick(false, stop + 10));
    keep(looper.tick(false, stop + 20));
    drop(keep);
    drop(looper);
    assert!(!saved.is_empty(), "the take was written");

    // Opening again finds it.
    let restored = load(&saved, &settings);
    let (again, _path) = start_with(&settings, restored);
    assert_eq!(
        again.state(),
        LoopState::Stopped,
        "there, but silent until it is asked for"
    );
}
