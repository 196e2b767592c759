use looper_pedal::audio::fault::keep_first;
use looper_pedal::audio::ring::sample_ring;
use looper_pedal::audio::shared_control::SharedControl;
use looper_pedal::state_machine::LoopState;

#[test]
fn a_ring_hands_on_what_was_pushed_and_no_more_than_fits() {
    let (mut tx, mut rx) = sample_ring(4);
    assert_eq!(tx.push_slice(&[1, 2, 3, 4, 5, 6]), 4, "four fit");
    assert!(!tx.try_push(7), "a full ring refuses");

    let mut out = [0; 3];
    assert_eq!(rx.pop_slice(&mut out), 3);
    assert_eq!(out, [1, 2, 3]);
    assert!(tx.try_push(8));

    let mut rest = [9; 4];
    assert_eq!(rx.pop_slice(&mut rest), 2);
    assert_eq!(rest, [4, 8, 9, 9], "what was not popped into is left alone");
}

#[test]
fn the_relay_carries_the_state_and_one_shot_requests() {
    let control = SharedControl::new(80);
    assert_eq!(control.load_state(), LoopState::Idle);
    control.publish_state(LoopState::Overdubbing);
    assert_eq!(control.load_state(), LoopState::Overdubbing);
    assert_eq!(control.volume_pct(), 80);

    assert!(!control.take_clear_request());
    control.request_clear();
    assert!(control.take_clear_request());
    assert!(!control.take_clear_request(), "one-shot");

    control.request_remove_layer();
    assert!(control.take_remove_layer_request());
    assert!(!control.take_remove_layer_request());
}

#[test]
fn telemetry_and_counts_cross_back() {
    let control = SharedControl::new(100);
    control.publish_telemetry(480, 12, 3);
    control.publish_take_start(7);
    assert_eq!((control.loop_len(), control.play_pos(), control.layer_count()), (480, 12, 3));
    assert_eq!(control.take_start(), 7);

    control.note_input_underrun();
    control.note_input_underrun();
    control.note_output_underrun();
    assert_eq!(control.take_underrun_counts(), (2, 1));
    assert_eq!(control.take_underrun_counts(), (0, 0), "drained");

    control.note_capture_lost(5);
    assert_eq!(control.take_capture_lost(), 5);
    assert_eq!(control.take_capture_lost(), 0);
}

#[test]
fn the_first_failure_is_kept() {
    assert_eq!(keep_first(None, "first".to_string()), Some("first".to_string()));
    assert_eq!(keep_first(Some("first".to_string()), "second".to_string()), Some("first".to_string()));
}

#[test]
fn the_loop_gain_is_the_one_the_relay_was_made_with() {
    assert_eq!(SharedControl::new(0).volume_pct(), 0);
    assert_eq!(SharedControl::new(150).volume_pct(), 150);
}
