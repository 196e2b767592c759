// State behind the looper screen: the state machine (owned here, on the
// UI thread), the relay into the audio thread, the input handling, the
// pre-roll and the copy of the loop that gets saved. Opening the device,
// writing files and logging are the caller's: each frame says what of that
// it needs done.

use std::sync::Arc;
use vstd::prelude::*;
use crate::audio::ring::SampleReceiver;
use crate::audio::shared_control::{SharedControl, Telemetry};
use crate::config::AppConfig;
use crate::input::{input_event, input_next, InputEvent, InputHandler, InputModel};
use crate::loop_mirror::{after_tick, received, saved_files, LoopMirror, MirrorModel};
use crate::preroll::{since, Preroll, PrerollModel};
use crate::state_machine::{press_spec, toggle_overdub_spec, LoopState, LoopStateMachine};

verus! {

pub struct LooperState {
    control: Arc<SharedControl>,
    state_machine: LoopStateMachine,
    input_handler: InputHandler,
    // Latched on press, cleared only when the pointer is released
    // anywhere: a cursor drifting off the button reads as a release even
    // while it is still held, which would break long-press-clear from the
    // on-screen button. Set by the renderer, kept here to survive frames.
    button_held: bool,
    /// The countdown before the first recording starts.
    preroll: Preroll,
    /// Kept here as well as in the layer stack, which lives on the audio
    /// thread out of reach - the UI needs it to show "n/max" and to know
    /// when overdubbing is still possible.
    max_layers: usize,
    /// The loop as the UI thread sees it, which is the only copy that can
    /// be written to disk.
    mirror: LoopMirror,
    sample_rate: u32,
    /// When the current frame was ticked, in milliseconds. The readouts
    /// answer from this rather than asking the clock again, so what a
    /// frame shows cannot disagree with the state it was drawn beside.
    now: u64,
    /// Every loop length and take start read from the audio thread's
    /// telemetry, one pair a frame, in order.
    telemetry_read: Ghost<Seq<(usize, usize)>>,
}

/// The looper as values. What the audio thread publishes is not part of
/// it: that is read fresh from the relay whenever it is needed.
pub struct LooperModel {
    pub state: LoopState,
    pub input: InputModel,
    pub button_held: bool,
    pub preroll: PrerollModel,
    pub max_layers: nat,
    pub mirror: MirrorModel,
    pub sample_rate: u32,
    pub now: u64,
}

impl View for LooperState {
    type V = LooperModel;

    closed spec fn view(&self) -> LooperModel {
        LooperModel {
            state: self.state_machine.view_state(),
            input: self.input_handler@,
            button_held: self.button_held,
            preroll: self.preroll@,
            max_layers: self.max_layers as nat,
            mirror: self.mirror@,
            sample_rate: self.sample_rate,
            now: self.now,
        }
    }
}

/// What a frame needs done outside: the underruns to report, whether to
/// delete the saved loop, and - after that - what to save, or why nothing
/// could be.
pub struct FrameReport {
    pub input_underruns: usize,
    pub output_underruns: usize,
    pub delete_saved: bool,
    pub save: Option<Result<Vec<Vec<u8>>, String>>,
}

/// What dropping a layer needs done on disk.
pub enum DiskWork {
    Nothing,
    /// The loop is gone: delete what was saved.
    Delete,
    /// The loop changed: save it, or report why it could not be.
    Save(Result<Vec<Vec<u8>>, String>),
}

/// Whether the overdub control would do anything: there has to be a loop
/// playing and a layer left to record into, or an overdub to close.
pub open spec fn overdub_allowed(state: LoopState, layer_count: nat, max_layers: nat) -> bool {
    match state {
        LoopState::Looping => layer_count < max_layers,
        LoopState::Overdubbing => true,
        _ => false,
    }
}

/// Whether a layer may be dropped: only while nothing is being recorded -
/// dropping a finished layer mid-take would be ambiguous about which one
/// is meant.
pub open spec fn removal_allowed(state: LoopState, layer_count: nat) -> bool {
    layer_count > 0 && (state == LoopState::Looping || state == LoopState::Stopped)
}

/// A short press: a pre-roll is only for the first recording, so from Idle
/// with a wait configured it arms and starts counting down; otherwise it
/// advances the cycle and calls off any countdown.
pub open spec fn after_press(m: LooperModel) -> LooperModel {
    if m.state == LoopState::Idle && m.preroll.duration_ms > 0 {
        LooperModel {
            state: LoopState::Arming,
            preroll: PrerollModel { started_at: Some(m.now), ..m.preroll },
            ..m
        }
    } else {
        LooperModel {
            state: press_spec(m.state),
            preroll: PrerollModel { started_at: None, ..m.preroll },
            ..m
        }
    }
}

/// The mirror once cleared.
pub open spec fn mirror_cleared(m: MirrorModel) -> MirrorModel {
    MirrorModel {
        open_take: None,
        finished: Seq::empty(),
        loop_len: 0,
        save_pending: false,
        lost_samples: false,
        ..m
    }
}

/// The copy of the loop with its newest take dropped.
pub open spec fn mirror_dropped(m: MirrorModel) -> MirrorModel {
    MirrorModel {
        finished: if m.finished.len() > 0 {
            m.finished.drop_last()
        } else {
            m.finished
        },
        ..m
    }
}

/// What dropping the newest layer of a loop holding `count` layers comes
/// to: nothing while it is not allowed; a clear, with the saved loop
/// deleted, when it is the only one; otherwise the copy drops its newest
/// take and is saved again.
pub open spec fn removal_outcome(before: LooperModel, count: nat, after: LooperModel, work: DiskWork) -> bool {
    if !removal_allowed(before.state, count) {
        after == before && work is Nothing
    } else if count <= 1 {
        after == after_clear(before) && work is Delete
    } else {
        let dropped = mirror_dropped(before.mirror);
        &&& after == (LooperModel { mirror: dropped, ..before })
        &&& work matches DiskWork::Save(saved) && save_matches(saved, dropped)
    }
}

/// A clear: back to Idle, no countdown, no loop.
pub open spec fn after_clear(m: LooperModel) -> LooperModel {
    LooperModel {
        state: LoopState::Idle,
        preroll: PrerollModel { started_at: None, ..m.preroll },
        mirror: mirror_cleared(m.mirror),
        ..m
    }
}

/// The event a frame's input makes, from the key and the on-screen
/// button's latch folded into one control.
pub open spec fn frame_event(m: LooperModel, key_held: bool, now: u64) -> InputEvent {
    input_event(m.input, key_held || m.button_held, now)
}

/// The frame's input applied: the clock read, the control's event acted
/// on.
pub open spec fn after_input(m: LooperModel, key_held: bool, now: u64) -> LooperModel {
    let m1 = LooperModel { now, input: input_next(m.input, key_held || m.button_held, now), ..m };
    match frame_event(m, key_held, now) {
        InputEvent::ShortPress => after_press(m1),
        InputEvent::LongPressClear => after_clear(m1),
        InputEvent::Nothing => m1,
    }
}

/// The pre-roll checked after the input - so a press meant to call it off
/// that lands on the frame it runs out wins: recording starts once the
/// wait is over.
pub open spec fn after_countdown(m: LooperModel) -> LooperModel {
    match m.preroll.started_at {
        Some(at) => if since(at, m.now) >= m.preroll.duration_ms {
            LooperModel {
                state: if m.state == LoopState::Arming {
                    LoopState::Recording
                } else {
                    m.state
                },
                preroll: PrerollModel { started_at: None, ..m.preroll },
                ..m
            }
        } else {
            m
        },
        None => m,
    }
}

/// A frame's work on everything but the mirror's copy of the loop.
pub open spec fn after_frame(m: LooperModel, key_held: bool, now: u64) -> LooperModel {
    after_countdown(after_input(m, key_held, now))
}

/// The copy of the loop's part of a frame: whether samples were lost on
/// the way, what arrived, and the length and take start the audio thread
/// last published.
pub open spec fn mirror_frame(
    before: MirrorModel,
    lost: bool,
    arrived: Seq<i32>,
    state: LoopState,
    loop_len: nat,
    take_start: nat,
) -> (MirrorModel, bool) {
    let noted = if lost {
        MirrorModel { lost_samples: true, ..before }
    } else {
        before
    };
    after_tick(received(noted, arrived), state, loop_len, take_start)
}

/// What a save of `mirror` hands back.
pub open spec fn save_matches(save: Result<Vec<Vec<u8>>, String>, mirror: MirrorModel) -> bool {
    match saved_files(mirror) {
        Some(expected) => save matches Ok(f) && f@.len() == expected.len() && forall|i: int|
            0 <= i < f@.len() ==> #[trigger] f@[i]@ == expected[i],
        None => save is Err,
    }
}

impl LooperState {
    /// The looper over a stream already running at `sample_rate`, with
    /// `captured` delivering what the input records, and `restored` the
    /// loop saved last time, already held to `settings` by
    /// `loop_mirror::load`. A restored loop is there but silent until it
    /// is asked for, so the looper starts Stopped; with none it starts
    /// Idle. The starting state is published for the audio thread.
    pub fn new(
        control: Arc<SharedControl>,
        settings: &AppConfig,
        captured: SampleReceiver,
        sample_rate: u32,
        restored: Vec<Vec<i32>>,
    ) -> (looper: LooperState)
        ensures
            looper@.state == if restored@.len() > 0 {
                LoopState::Stopped
            } else {
                LoopState::Idle
            },
            looper@.input == (InputModel {
                pressed_at: None,
                long_press_fired: false,
                threshold_ms: settings.long_press_ms as u64,
            }),
            !looper@.button_held,
            looper@.preroll == (PrerollModel {
                duration_ms: settings.preroll_ms as u64,
                started_at: None,
            }),
            looper@.max_layers == settings.max_layers,
            looper@.sample_rate == sample_rate,
            looper@.mirror == (MirrorModel {
                previous_state: LoopState::Idle,
                open_take: None,
                finished: restored@.map_values(|l: Vec<i32>| (0int, l@)),
                loop_len: if restored@.len() > 0 {
                    restored@[0]@.len()
                } else {
                    0
                },
                sample_rate,
                save_pending: false,
                lost_samples: false,
            }),
    {
        let state_machine = if restored.len() > 0 {
            LoopStateMachine::stopped()
        } else {
            LoopStateMachine::new()
        };
        control.publish_state(state_machine.state());
        LooperState {
            control,
            state_machine,
            input_handler: InputHandler::with_threshold(settings.long_press_ms as u64),
            button_held: false,
            preroll: Preroll::new(settings.preroll_ms as u64),
            max_layers: settings.max_layers as usize,
            mirror: LoopMirror::new(captured, sample_rate, restored),
            sample_rate,
            now: 0,
            telemetry_read: Ghost(Seq::empty()),
        }
    }

    /// Every loop length and take start read from the audio thread's
    /// telemetry, one pair a frame, in order.
    pub closed spec fn telemetry_read(&self) -> Seq<(usize, usize)> {
        self.telemetry_read@
    }

    /// Reads the loop length and the take start the audio thread last
    /// published, and notes them.
    fn read_telemetry(&mut self) -> (published: Telemetry)
        ensures
            final(self).telemetry_read() == old(self).telemetry_read().push(published@),
            final(self)@ == old(self)@,
            final(self).control == old(self).control,
            final(self).mirror == old(self).mirror,
            final(self).state_machine == old(self).state_machine,
    {
        let published = self.control.telemetry();
        self.telemetry_read = Ghost(self.telemetry_read@.push(published@));
        published
    }

    pub fn state(&self) -> (state: LoopState)
        ensures
            state == self@.state,
    {
        self.state_machine.state()
    }

    pub fn is_long_press_active(&self) -> (active: bool)
        ensures
            active == (self@.input.pressed_at is Some && self@.input.long_press_fired),
    {
        self.input_handler.is_long_press_active()
    }

    /// How long the control has to be held to clear, in milliseconds, for
    /// the hint line.
    pub fn long_press_ms(&self) -> (ms: u64)
        ensures
            ms == self@.input.threshold_ms,
    {
        self.input_handler.long_press_threshold_ms()
    }

    /// The loop's length and the playback position, in samples, as the
    /// audio thread last published them.
    pub fn loop_position(&self) -> (len_and_pos: (usize, usize)) {
        (self.control.loop_len(), self.control.play_pos())
    }

    /// The rate the stream runs at.
    pub fn sample_rate(&self) -> (rate: u32)
        ensures
            rate == self@.sample_rate,
    {
        self.sample_rate
    }

    /// How many layers the audio thread last said it holds.
    pub fn layer_count(&self) -> (count: usize) {
        self.control.layer_count()
    }

    pub fn max_layers(&self) -> (max: usize)
        ensures
            max == self@.max_layers,
    {
        self.max_layers
    }

    /// Whether the overdub control would do anything, judged on the layer
    /// count the audio thread last published.
    pub fn can_overdub(&self) -> (can: bool)
        ensures
            exists|count: usize| can == overdub_allowed(self@.state, count as nat, self@.max_layers),
    {
        let count = self.layer_count();
        let can = can_overdub_with(self.state(), count, self.max_layers);
        assert(can == overdub_allowed(self@.state, count as nat, self@.max_layers));
        can
    }

    /// The overdub control: opens a layer over the playing loop, or closes
    /// the one in progress; nothing if there is no room or no loop. The
    /// new state is published. Room is judged on the layer count the audio
    /// thread last published - see `toggle_overdub_with`.
    pub fn toggle_overdub(&mut self)
        ensures
            exists|count: usize|
                final(self)@ == (LooperModel {
                    state: if #[trigger] overdub_allowed(
                        old(self)@.state,
                        count as nat,
                        old(self)@.max_layers,
                    ) {
                        toggle_overdub_spec(old(self)@.state)
                    } else {
                        old(self)@.state
                    },
                    ..old(self)@
                }),
    {
        let count = self.layer_count();
        self.toggle_overdub_with(count);
    }

    /// The overdub control, given that the loop holds `count` layers: with
    /// room for another and a loop playing, an overdub opens; an overdub in
    /// progress closes; otherwise nothing changes. The new state is
    /// published.
    pub fn toggle_overdub_with(&mut self, count: usize)
        ensures
            final(self)@ == (LooperModel {
                state: if overdub_allowed(old(self)@.state, count as nat, old(self)@.max_layers) {
                    toggle_overdub_spec(old(self)@.state)
                } else {
                    old(self)@.state
                },
                ..old(self)@
            }),
    {
        let allowed = can_overdub_with(self.state(), count, self.max_layers);
        if !allowed {
            assert(old(self)@ == (LooperModel { state: old(self)@.state, ..old(self)@ }));
            return;
        }
        self.state_machine.toggle_overdub();
        self.control.publish_state(self.state_machine.state());
        assert(self@ == (LooperModel {
            state: toggle_overdub_spec(old(self)@.state),
            ..old(self)@
        }));
    }

    /// Whether a layer may be dropped, judged on the layer count the audio
    /// thread last published.
    pub fn can_remove_layer(&self) -> (can: bool)
        ensures
            exists|count: usize| can == removal_allowed(self@.state, count as nat),
    {
        let count = self.layer_count();
        let can = can_remove_layer_with(self.state(), count);
        assert(can == removal_allowed(self@.state, count as nat));
        can
    }

    /// Drops the newest layer, judged on the layer count the audio thread
    /// last published - see `remove_last_layer_with`.
    pub fn remove_last_layer(&mut self) -> (work: DiskWork)
        ensures
            exists|count: usize| #[trigger] removal_outcome(old(self)@, count as nat, final(self)@, work),
    {
        let count = self.layer_count();
        self.remove_last_layer_with(count)
    }

    /// Drops the newest layer, given that the loop holds `count` layers.
    /// Dropping the only one leaves nothing to play, so that is a clear,
    /// back to Idle, and the saved loop goes; otherwise the audio thread
    /// is asked to drop it, the copy drops its newest take, and the loop
    /// is saved again. While recording, or with no layer, nothing changes.
    pub fn remove_last_layer_with(&mut self, count: usize) -> (work: DiskWork)
        ensures
            removal_outcome(old(self)@, count as nat, final(self)@, work),
    {
        if !can_remove_layer_with(self.state(), count) {
            return DiskWork::Nothing;
        }
        if count <= 1 {
            self.clear();
            DiskWork::Delete
        } else {
            self.control.request_remove_layer();
            self.mirror.remove_last_layer();
            DiskWork::Save(self.mirror.save())
        }
    }

    pub fn set_button_held(&mut self, held: bool)
        ensures
            final(self)@ == (LooperModel { button_held: held, ..old(self)@ }),
    {
        self.button_held = held;
    }

    /// Milliseconds left of the pre-roll countdown as of this frame, or 0
    /// when one is not running.
    pub fn preroll_remaining_ms(&self) -> (remaining: u64)
        ensures
            remaining == (match self@.preroll.started_at {
                Some(at) => if since(at, self@.now) >= self@.preroll.duration_ms {
                    0
                } else {
                    self@.preroll.duration_ms - since(at, self@.now)
                },
                None => 0,
            }),
    {
        self.preroll.remaining_ms(self.now)
    }

    /// Milliseconds of the pre-roll gone by as of this frame, never more
    /// than the wait; how far the bar has filled is this over the wait.
    pub fn preroll_elapsed_ms(&self) -> (elapsed: u64)
        ensures
            elapsed <= self@.preroll.duration_ms,
            elapsed == (match self@.preroll.started_at {
                Some(at) => if self@.preroll.duration_ms == 0 {
                    0
                } else if since(at, self@.now) >= self@.preroll.duration_ms {
                    self@.preroll.duration_ms as int
                } else {
                    since(at, self@.now) as int
                },
                None => 0,
            }),
    {
        self.preroll.elapsed_ms(self.now)
    }

    /// The configured pre-roll, in milliseconds.
    pub fn preroll_ms(&self) -> (ms: u64)
        ensures
            ms == self@.preroll.duration_ms,
    {
        self.preroll.duration_ms()
    }

    /// Call once per frame, with the time in milliseconds. Folds the key
    /// and the button's latch into one control, acts on what it did, then
    /// lets a pre-roll that has run out start recording; every state
    /// change is published as it is made. Then the copy of the loop takes
    /// in what was captured and follows the state, and if it has changed
    /// the loop is saved - after the saved one is deleted, where a clear
    /// asked for that.
    ///
    /// Everything but the copy's contents follows from the frame's input
    /// alone; the copy also depends on what the audio thread delivered,
    /// whether it lost samples, and the length and take start it last
    /// published.
    pub fn tick(&mut self, key_held: bool, now: u64) -> (report: FrameReport)
        ensures
            ({
                let expected = after_frame(old(self)@, key_held, now);
                &&& final(self)@.state == expected.state
                &&& final(self)@.input == expected.input
                &&& final(self)@.button_held == expected.button_held
                &&& final(self)@.preroll == expected.preroll
                &&& final(self)@.max_layers == expected.max_layers
                &&& final(self)@.sample_rate == expected.sample_rate
                &&& final(self)@.now == expected.now
            }),
            report.delete_saved == (frame_event(old(self)@, key_held, now)
                == InputEvent::LongPressClear),
            // One reading of the telemetry a frame, and the copy of the
            // loop follows the loop length and take start it gave.
            final(self).telemetry_read().len() == old(self).telemetry_read().len() + 1,
            final(self).telemetry_read().drop_last() == old(self).telemetry_read(),
            exists|lost: bool, arrived: Seq<i32>|
                {
                    let (mirror, out_of_date) = #[trigger] mirror_frame(
                        after_frame(old(self)@, key_held, now).mirror,
                        lost,
                        arrived,
                        final(self)@.state,
                        final(self).telemetry_read().last().0 as nat,
                        final(self).telemetry_read().last().1 as nat,
                    );
                    &&& final(self)@.mirror == mirror
                    &&& match report.save {
                        Some(saved) => out_of_date && save_matches(saved, mirror),
                        None => !out_of_date,
                    }
                },
    {
        self.now = now;
        let (input_underruns, output_underruns) = self.control.take_underrun_counts();
        let down = key_held || self.button_held;
        let event = self.input_handler.update(down, now);
        let delete_saved = match event {
            InputEvent::ShortPress => {
                if self.state() == LoopState::Idle && self.preroll.is_enabled() {
                    self.state_machine.arm();
                    self.preroll.start(now);
                } else {
                    self.state_machine.press();
                    self.preroll.cancel();
                }
                self.control.publish_state(self.state_machine.state());
                false
            },
            InputEvent::LongPressClear => {
                self.clear();
                true
            },
            InputEvent::Nothing => false,
        };
        if self.preroll.take_if_elapsed(now) {
            self.state_machine.finish_arming();
            self.control.publish_state(self.state_machine.state());
        }
        let ghost pre = self.mirror@;
        let lost = self.control.take_capture_lost() > 0;
        if lost {
            self.mirror.note_lost_samples();
        }
        let ghost noted = self.mirror@;
        let published = self.read_telemetry();
        let loop_len = published.loop_len();
        let take_start = published.take_start();
        let state = self.state_machine.state();
        let out_of_date = self.mirror.tick(state, loop_len, take_start);
        proof {
            let a = choose|a: Seq<i32>|
                (self.mirror@, out_of_date) == after_tick(
                    received(noted, a),
                    state,
                    loop_len as nat,
                    take_start as nat,
                );
            assert(mirror_frame(pre, lost, a, state, loop_len as nat, take_start as nat) == (
                self.mirror@,
                out_of_date,
            ));
            assert(self.telemetry_read().last() == (loop_len, take_start));
            assert(self.telemetry_read().drop_last() =~= old(self).telemetry_read());
        }
        let save = if out_of_date {
            Some(self.mirror.save())
        } else {
            None
        };
        FrameReport { input_underruns, output_underruns, delete_saved, save }
    }

    /// Back to Idle with no countdown and no loop; the audio thread is
    /// told, and the copy forgets its takes.
    fn clear(&mut self)
        ensures
            final(self)@ == after_clear(old(self)@),
            final(self).telemetry_read() == old(self).telemetry_read(),
    {
        self.state_machine.clear();
        self.preroll.cancel();
        self.control.publish_state(self.state_machine.state());
        self.control.request_clear();
        self.mirror.clear();
    }
}

/// Whether the overdub control would do anything, for a given layer count.
pub fn can_overdub_with(state: LoopState, layer_count: usize, max_layers: usize) -> (can: bool)
    ensures
        can == overdub_allowed(state, layer_count as nat, max_layers as nat),
{
    match state {
        LoopState::Looping => layer_count < max_layers,
        LoopState::Overdubbing => true,
        _ => false,
    }
}

/// Whether a layer may be dropped, for a given layer count.
pub fn can_remove_layer_with(state: LoopState, layer_count: usize) -> (can: bool)
    ensures
        can == removal_allowed(state, layer_count as nat),
{
    layer_count > 0 && (state == LoopState::Looping || state == LoopState::Stopped)
}


// ---------------------------------------------------------------------
// Laws
// ---------------------------------------------------------------------

/// A press beats the countdown: a short press on the frame a pre-roll runs
/// out calls it off instead of recording - the input is taken before the
/// expiry.
pub proof fn lemma_press_calls_off_the_countdown(m: LooperModel, key_held: bool, now: u64)
    requires
        m.state == LoopState::Arming,
        frame_event(m, key_held, now) == InputEvent::ShortPress,
    ensures
        after_frame(m, key_held, now).state == LoopState::Idle,
        after_frame(m, key_held, now).preroll.started_at is None,
{
}

/// A countdown left alone starts recording on the frame it runs out.
pub proof fn lemma_countdown_starts_recording(m: LooperModel, key_held: bool, now: u64, at: u64)
    requires
        m.state == LoopState::Arming,
        m.preroll.started_at == Some(at),
        frame_event(m, key_held, now) == InputEvent::Nothing,
        since(at, now) >= m.preroll.duration_ms,
    ensures
        after_frame(m, key_held, now).state == LoopState::Recording,
        after_frame(m, key_held, now).preroll.started_at is None,
{
}

/// A long press clears from any state: back to Idle, no countdown, and no
/// loop left in the copy to save.
pub proof fn lemma_long_press_clears(m: LooperModel, key_held: bool, now: u64)
    requires
        frame_event(m, key_held, now) == InputEvent::LongPressClear,
    ensures
        after_frame(m, key_held, now).state == LoopState::Idle,
        after_frame(m, key_held, now).preroll.started_at is None,
        after_frame(m, key_held, now).mirror.finished.len() == 0,
{
}

/// With no wait configured a press from Idle records at once; with one,
/// it arms and the countdown starts on that frame.
pub proof fn lemma_press_from_idle(m: LooperModel, key_held: bool, now: u64)
    requires
        m.state == LoopState::Idle,
        frame_event(m, key_held, now) == InputEvent::ShortPress,
    ensures
        m.preroll.duration_ms == 0 ==> after_frame(m, key_held, now).state == LoopState::Recording,
        m.preroll.duration_ms > 0 ==> after_frame(m, key_held, now).state == LoopState::Arming
            && after_frame(m, key_held, now).preroll.started_at == Some(now),
{
}

} // verus!
