use looper_pedal::audio::engine::{duplicate_mono_to_channels, mix_add};

#[test]
fn engine_tests_mix_add_sums_dry_and_loop_signal() {
    let mut dry = [10, 20, 30];
    mix_add(&mut dry, &[1, 2, 3]);
    assert_eq!(dry, [11, 22, 33]);
}

#[test]
fn mix_add_saturates_instead_of_wrapping() {
    let mut dry = [i32::MAX, i32::MIN];
    mix_add(&mut dry, &[1, -1]);
    assert_eq!(dry, [i32::MAX, i32::MIN]);
}

#[test]
fn engine_tests_duplicate_mono_to_channels_fills_every_channel_with_the_same_sample() {
    let mono = [1, 2, 3];
    let mut out = [0; 6];
    duplicate_mono_to_channels(&mono, 2, &mut out);
    assert_eq!(out, [1, 1, 2, 2, 3, 3]);
}

#[test]
fn engine_tests_duplicate_mono_to_channels_handles_mono_output() {
    let mono = [5, 6];
    let mut out = [0; 2];
    duplicate_mono_to_channels(&mono, 1, &mut out);
    assert_eq!(out, [5, 6]);
}

// --- The audio path, driven without a device ---------------------------
//
// Small enough to follow by hand: at 1 kHz an 8 ms latency setting is
// 8 samples of headroom, and a 32-sample loop is eight callbacks of
// four frames. Mono, so a frame is a sample.

use std::sync::Arc;

use looper_pedal::audio::engine::{apply_state_change, build_audio_path, AudioPath, MonitorDelay};
use looper_pedal::audio::loop_stack::LoopStack;
use looper_pedal::audio::shared_control::SharedControl;
use looper_pedal::config::AppConfig;
use looper_pedal::state_machine::LoopState;

const TEST_RATE: u32 = 1_000;
const TEST_LATENCY_MS: u32 = 8;
const BLOCK: usize = 4;
const LOOP_LEN: usize = 32;
const CYCLES_PER_LOOP: usize = LOOP_LEN / BLOCK;

fn test_settings() -> AppConfig {
    AppConfig {
        sample_rate: TEST_RATE,
        latency_ms: TEST_LATENCY_MS,
        // The loop is silenced so the output carries the monitored
        // signal by itself. What gets recorded doesn't depend on gain.
        volume_pct: 0,
        ..AppConfig::default()
    }
}

/// One buffer switch: the input callback, then the output one, the order
/// the driver runs them in. Returns what the monitor put out.
fn drive(path: &mut AudioPath, input: &[i32]) -> Vec<i32> {
    path.input.process(input);
    let mut out = vec![0; input.len()];
    path.output.process(&mut out);
    out
}

/// The next block of a ramp whose sample values are their own index, so
/// a value read anywhere says which input sample it came from.
fn ramp(next: &mut i32) -> Vec<i32> {
    let block: Vec<i32> = (0..BLOCK as i32).map(|i| *next + i).collect();
    *next += BLOCK as i32;
    block
}

/// How far an overdubbed sample is stored from where the player heard
/// it, in samples. Zero is correct: the note heard against loop position
/// p should be the note stored at p.
fn overdub_offset(latency_ms: u32) -> i32 {
    let settings = AppConfig {
        latency_ms,
        ..test_settings()
    };
    let control = Arc::new(SharedControl::new(settings.volume_pct));
    let (mut path, _captured) = build_audio_path(&control, &settings, TEST_RATE, 1, 1, &Vec::new());

    // Silence until the loop exists, so the layer underneath the overdub
    // contributes nothing to what comes back out.
    control.publish_state(LoopState::Idle);
    for _ in 0..CYCLES_PER_LOOP {
        drive(&mut path, &[0; BLOCK]);
    }
    control.publish_state(LoopState::Recording);
    for _ in 0..CYCLES_PER_LOOP {
        drive(&mut path, &[0; BLOCK]);
    }

    // A ramp from here on, for long enough to push the silence right out
    // of the monitoring delay before the take starts - whole loops of
    // it, so playback still ends up back at the top.
    let latency_frames = (settings.latency_ms as usize * TEST_RATE as usize) / 1_000;
    let mut next = 1;
    control.publish_state(LoopState::Looping);
    for _ in 0..(latency_frames / LOOP_LEN + 2) * CYCLES_PER_LOOP {
        drive(&mut path, &ramp(&mut next));
    }
    assert_eq!(
        path.output.play_pos(),
        0,
        "the loop should be back at the top before the take starts"
    );

    // One full overdub pass, noting where the loop was and what the
    // monitor put out on each callback.
    control.publish_state(LoopState::Overdubbing);
    let mut heard = vec![0; LOOP_LEN];
    for _ in 0..CYCLES_PER_LOOP {
        let at = path.output.play_pos();
        let out = drive(&mut path, &ramp(&mut next));
        heard[at..at + BLOCK].copy_from_slice(&out);
    }
    assert_eq!(path.output.play_pos(), 0, "one whole pass");

    // The take is still open, so it's the layer being recorded - which
    // the loop includes over the part already written. The layer below
    // is silent, so this reads back the take itself.
    let mut stored = vec![0; LOOP_LEN];
    path.output.read_loop(&mut stored, 100);

    let offsets: Vec<i32> = stored
        .iter()
        .zip(&heard)
        .map(|(stored, heard)| stored - heard)
        .collect();
    assert!(
        offsets.iter().all(|offset| *offset == offsets[0]),
        "expected one constant offset, got {offsets:?}"
    );
    offsets[0]
}

#[test]
fn an_overdub_is_stored_where_it_was_heard() {
    // Latencies at or above the block size; below that the passthrough
    // ring can't hold one callback at all, which is its own problem.
    for latency_ms in [8, 20, 50] {
        let offset = overdub_offset(latency_ms);
        assert_eq!(
            offset, 0,
            "at {latency_ms} ms a take lands {offset} samples from the beat it \
             was played against, and every further layer inherits it again"
        );
    }
}

#[test]
fn the_monitor_delay_hands_back_what_went_in_that_many_samples_ago() {
    let mut delay = MonitorDelay::new(3);

    let mut first = [1, 2, 3, 4];
    delay.apply(&mut first);
    assert_eq!(first, [0, 0, 0, 1], "silence until the line fills");

    let mut second = [5, 6, 7, 8];
    delay.apply(&mut second);
    assert_eq!(second, [2, 3, 4, 5]);
}

#[test]
fn no_delay_leaves_the_signal_alone() {
    let mut delay = MonitorDelay::new(0);
    let mut samples = [1, 2, 3];
    delay.apply(&mut samples);
    assert_eq!(samples, [1, 2, 3], "a zero-latency setting is not possible, but still");
}

/// The layer stack and the UI thread's copy are laid out by two separate
/// pieces of code that have to agree, which they can only do if they are
/// handed the same samples in the first place.
#[test]
fn the_recorder_and_the_mirror_are_fed_the_same_samples() {
    let settings = test_settings();
    let control = Arc::new(SharedControl::new(settings.volume_pct));
    let (mut path, mut captured) = build_audio_path(&control, &settings, TEST_RATE, 1, 1, &Vec::new());

    control.publish_state(LoopState::Recording);
    let mut next = 1;
    // Long enough to push real samples through the recording delay.
    const TAKE: usize = BLOCK * 6;
    for _ in 0..TAKE / BLOCK {
        path.input.process(&ramp(&mut next));
    }
    // The output takes what reached the recorder as the first layer, and
    // a whole pass at the loop's length brings playback back to the top.
    let mut out = vec![0; TAKE];
    path.output.process(&mut out);
    control.publish_state(LoopState::Looping);
    path.output.process(&mut out);

    let mut recorded = vec![0; TAKE];
    path.output.read_loop(&mut recorded, 100);
    let mut mirrored = vec![0; TAKE];
    let m = captured.pop_slice(&mut mirrored);

    assert_eq!(m, TAKE, "every block reached the copy");
    assert!(recorded.iter().any(|s| *s != 0), "real samples, not just the delay's silence");
    assert_eq!(recorded, mirrored, "the same samples, delayed alike");
}

/// A driver hands over whole buffers, and a buffer is routinely larger
/// than the monitoring delay. The ring has to hold the delay and a
/// callback on top of it, or every push spills and the monitored signal
/// is shredded.
#[test]
fn a_callback_larger_than_the_monitoring_delay_is_not_dropped() {
    let settings = test_settings();
    let latency_frames = (settings.latency_ms as usize * TEST_RATE as usize) / 1_000;
    let control = Arc::new(SharedControl::new(settings.volume_pct));
    let (mut path, _captured) = build_audio_path(&control, &settings, TEST_RATE, 1, 1, &Vec::new());

    let frames = latency_frames * 4;
    let input: Vec<i32> = (1..=frames as i32).collect();
    path.input.process(&input);

    let (_, spilled) = control.take_underrun_counts();
    assert_eq!(spilled, 0, "the passthrough ring could not hold one callback");

    let mut out = vec![0; frames];
    path.output.process(&mut out);

    let mut expected = vec![0; latency_frames];
    expected.extend_from_slice(&input[..frames - latency_frames]);
    assert_eq!(out, expected, "delayed by the monitoring delay, otherwise whole");
}

/// The two ends need not carry the same number of channels - a capture
/// endpoint is often mono where the render one is stereo.
#[test]
fn the_input_and_output_channel_counts_are_independent() {
    let settings = test_settings();
    let latency_frames = (settings.latency_ms as usize * TEST_RATE as usize) / 1_000;
    let control = Arc::new(SharedControl::new(settings.volume_pct));
    let (mut path, _captured) = build_audio_path(&control, &settings, TEST_RATE, 1, 2, &Vec::new());

    // One mono channel in, two out, and long enough to push the
    // monitoring delay through so the output carries real samples.
    let frames = latency_frames + BLOCK;
    let input: Vec<i32> = (1..=frames as i32).collect();
    path.input.process(&input);

    let mut out = vec![0; frames * 2];
    path.output.process(&mut out);

    let first = latency_frames * 2;
    assert_eq!(out[first], input[0], "delayed by the monitoring delay");
    assert_eq!(out[first], out[first + 1], "and centred across both channels");
}

#[test]
fn the_delay_is_seamless_across_callbacks() {
    let mut split = MonitorDelay::new(5);
    let mut whole = MonitorDelay::new(5);
    let mut a = [1, 2, 3];
    let mut b = [4, 5, 6, 7, 8, 9, 10];
    split.apply(&mut a);
    split.apply(&mut b);
    let mut both = [1, 2, 3, 4, 5, 6, 7, 8, 9, 10];
    whole.apply(&mut both);
    let joined: Vec<i32> = a.iter().chain(b.iter()).copied().collect();
    assert_eq!(joined, both.to_vec());
    assert_eq!(joined, vec![0, 0, 0, 0, 0, 1, 2, 3, 4, 5]);
}

#[test]
fn a_removed_overdub_leaves_the_loop_as_it_was() {
    let control = SharedControl::new(100);
    let mut stack = LoopStack::new(8, 4);
    apply_state_change(&mut stack, &control, LoopState::Idle, LoopState::Recording);
    stack.record_first_layer(&[1, 2, 3, 4]);
    apply_state_change(&mut stack, &control, LoopState::Recording, LoopState::Looping);
    let mut before = [0; 4];
    stack.read_mixed(&mut before, 100);

    apply_state_change(&mut stack, &control, LoopState::Looping, LoopState::Overdubbing);
    assert_eq!(control.take_start(), 0, "where the take began is published");
    let mut out = [0; 2];
    stack.read_mixed_with_overdub(&mut out, &[10, 20], 100);
    apply_state_change(&mut stack, &control, LoopState::Overdubbing, LoopState::Looping);
    assert_eq!(stack.layer_count(), 2);

    stack.remove_last_layer();
    let mut after = [0; 4];
    stack.read_mixed(&mut after, 100);
    // Playback moved on by the two overdubbed samples.
    assert_eq!(after, [3, 4, 1, 2]);
    assert_eq!(before, [1, 2, 3, 4]);
}

#[test]
fn every_output_channel_carries_the_frame_and_a_part_frame_is_left_alone() {
    let settings = test_settings();
    let latency_frames = (settings.latency_ms as usize * TEST_RATE as usize) / 1_000;
    let control = Arc::new(SharedControl::new(settings.volume_pct));
    let (mut path, _captured) = build_audio_path(&control, &settings, TEST_RATE, 2, 3, &Vec::new());

    // Two channels in, the first one captured; three out.
    let frames = latency_frames + BLOCK;
    let input: Vec<i32> = (0..frames as i32 * 2).map(|i| if i % 2 == 0 { i + 1 } else { -7 }).collect();
    path.input.process(&input);

    // Room for every frame and two samples of one more, which is not a
    // whole frame and has to come back untouched.
    let mut out = vec![99; frames * 3 + 2];
    path.output.process(&mut out);

    for frame in out[..frames * 3].chunks(3) {
        assert_eq!(frame[0], frame[1]);
        assert_eq!(frame[0], frame[2]);
    }
    assert_eq!(out[latency_frames * 3], input[0], "the captured channel, delayed");
    assert_eq!(&out[frames * 3..], &[99, 99]);
}

#[test]
fn nothing_reaches_the_copy_while_idle() {
    let settings = test_settings();
    let control = Arc::new(SharedControl::new(settings.volume_pct));
    let (mut path, mut captured) = build_audio_path(&control, &settings, TEST_RATE, 1, 1, &Vec::new());
    let mut next = 0;
    drive(&mut path, &ramp(&mut next));
    let mut got = [0; 8];
    assert_eq!(captured.pop_slice(&mut got), 0);
}
