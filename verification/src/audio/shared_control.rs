// Lock-free relay across the UI/audio thread boundary. The state machine
// stays single-owner on the UI thread; only its resulting value and the
// one-shot requests cross, via atomics, never a lock.
//
// Every value here is written by one thread and read by another at a
// moment that thread does not choose, so what a load returns is whatever
// was last stored by anyone: the contracts say what holds of every such
// value and no more.

use std::sync::atomic::{AtomicBool, AtomicU8, AtomicUsize, Ordering};
use vstd::prelude::*;
use crate::state_machine::{state_from_code, LoopState};

verus! {

pub struct SharedControl {
    state: AtomicU8,
    clear_requested: AtomicBool,
    remove_layer_requested: AtomicBool,
    // Telemetry the other way, audio -> UI: duration, progress, how many
    // layers are stacked, and where the open overdub take began.
    loop_len: AtomicUsize,
    play_pos: AtomicUsize,
    layer_count: AtomicUsize,
    take_start: AtomicUsize,
    // Also audio -> UI. Monotonic counts with no dependent data, so
    // Relaxed is enough. Logged from the UI thread - stdio in the callback
    // would add I/O exactly when it is already falling behind.
    input_underruns: AtomicUsize,
    output_underruns: AtomicUsize,
    capture_lost: AtomicUsize,
    // Loop playback gain. Set when the relay is made and only read after
    // that, by the audio thread, so it needs no atomic.
    volume_pct: u32,
}

impl SharedControl {
    /// The loop gain the relay carries, in percent of unity.
    pub closed spec fn gain(&self) -> u32 {
        self.volume_pct
    }

    /// A relay that starts out Idle, with nothing requested, nothing
    /// counted and the given loop gain.
    pub fn new(volume_pct: u32) -> (control: SharedControl)
        ensures
            control.gain() == volume_pct,
    {
        SharedControl {
            state: AtomicU8::new(LoopState::Idle.code()),
            clear_requested: AtomicBool::new(false),
            remove_layer_requested: AtomicBool::new(false),
            loop_len: AtomicUsize::new(0),
            play_pos: AtomicUsize::new(0),
            layer_count: AtomicUsize::new(0),
            take_start: AtomicUsize::new(0),
            input_underruns: AtomicUsize::new(0),
            output_underruns: AtomicUsize::new(0),
            capture_lost: AtomicUsize::new(0),
            volume_pct,
        }
    }

    /// Publishes the UI thread's state for the audio thread, as its code.
    pub fn publish_state(&self, state: LoopState) {
        self.state.store(state.code(), Ordering::Release);
    }

    /// The state last published. Whatever number was stored, the answer is
    /// the state it stands for; a number no state stands for reads as
    /// `Arming`, in which nothing is captured.
    pub fn load_state(&self) -> (state: LoopState)
        ensures
            exists|code: u8| state == state_from_code(code),
    {
        let code = self.state.load(Ordering::Acquire);
        LoopState::from_code(code)
    }

    /// Asks the audio thread to clear the loop, once.
    pub fn request_clear(&self) {
        self.clear_requested.store(true, Ordering::Release);
    }

    /// Asks the audio thread to drop the newest layer, once.
    pub fn request_remove_layer(&self) {
        self.remove_layer_requested.store(true, Ordering::Release);
    }

    /// Whether a clear was asked for since the last call; the request is
    /// consumed.
    pub fn take_clear_request(&self) -> (requested: bool) {
        self.clear_requested.swap(false, Ordering::AcqRel)
    }

    /// Whether a layer removal was asked for since the last call; the
    /// request is consumed.
    pub fn take_remove_layer_request(&self) -> (requested: bool) {
        self.remove_layer_requested.swap(false, Ordering::AcqRel)
    }

    /// Publishes the loop's length, the playback position and the layer
    /// count for the UI thread.
    pub fn publish_telemetry(&self, len: usize, pos: usize, layers: usize) {
        self.loop_len.store(len, Ordering::Release);
        self.play_pos.store(pos, Ordering::Release);
        self.layer_count.store(layers, Ordering::Release);
    }

    /// Publishes where the overdub take that just opened begins.
    pub fn publish_take_start(&self, pos: usize) {
        self.take_start.store(pos, Ordering::Release);
    }

    /// The layer count last published.
    pub fn layer_count(&self) -> (count: usize) {
        self.layer_count.load(Ordering::Acquire)
    }

    /// The loop length last published, in samples.
    pub fn loop_len(&self) -> (len: usize) {
        self.loop_len.load(Ordering::Acquire)
    }

    /// The playback position last published, in samples.
    pub fn play_pos(&self) -> (pos: usize) {
        self.play_pos.load(Ordering::Acquire)
    }

    /// Where the last overdub take began, as last published.
    pub fn take_start(&self) -> (pos: usize) {
        self.take_start.load(Ordering::Acquire)
    }

    /// The loop gain, in percent of unity.
    pub fn volume_pct(&self) -> (pct: u32)
        ensures
            pct == self.gain(),
    {
        self.volume_pct
    }

    /// Counts one callback in which the input had not kept up.
    pub fn note_input_underrun(&self) {
        self.input_underruns.fetch_add(1, Ordering::Relaxed);
    }

    /// Counts one callback in which the output had not kept up.
    pub fn note_output_underrun(&self) {
        self.output_underruns.fetch_add(1, Ordering::Relaxed);
    }

    /// Counts captured samples the UI thread's copy had no room for.
    pub fn note_capture_lost(&self, samples: usize) {
        self.capture_lost.fetch_add(samples, Ordering::Relaxed);
    }

    /// The captured samples lost since the last call; the count restarts.
    pub fn take_capture_lost(&self) -> (lost: usize) {
        self.capture_lost.swap(0, Ordering::Relaxed)
    }

    /// Drains the counts accumulated since the last call, `(input,
    /// output)`.
    pub fn take_underrun_counts(&self) -> (counts: (usize, usize)) {
        (
            self.input_underruns.swap(0, Ordering::Relaxed),
            self.output_underruns.swap(0, Ordering::Relaxed),
        )
    }
}


/// The state published, as the input half read it for one run. Only the
/// relay makes one, so what a run acts on is what was read.
pub struct PublishedState {
    state: LoopState,
}

impl View for PublishedState {
    type V = LoopState;

    closed spec fn view(&self) -> LoopState {
        self.state
    }
}

impl PublishedState {
    pub fn state(&self) -> (state: LoopState)
        ensures
            state == self@,
    {
        self.state
    }
}

/// What the output half read from the relay for one run: the state
/// published, and whether a clear and a layer removal had been asked for -
/// each request taken in the reading.
pub struct RunRequests {
    state: LoopState,
    clear: bool,
    remove: bool,
}

impl View for RunRequests {
    type V = (LoopState, bool, bool);

    closed spec fn view(&self) -> (LoopState, bool, bool) {
        (self.state, self.clear, self.remove)
    }
}

impl RunRequests {
    pub fn state(&self) -> (state: LoopState)
        ensures
            state == self@.0,
    {
        self.state
    }

    pub fn clear(&self) -> (clear: bool)
        ensures
            clear == self@.1,
    {
        self.clear
    }

    pub fn remove(&self) -> (remove: bool)
        ensures
            remove == self@.2,
    {
        self.remove
    }
}

/// What the UI thread read of the audio thread's telemetry for one frame:
/// the loop length it settled on and where the last overdub began.
pub struct Telemetry {
    loop_len: usize,
    take_start: usize,
}

impl View for Telemetry {
    type V = (usize, usize);

    closed spec fn view(&self) -> (usize, usize) {
        (self.loop_len, self.take_start)
    }
}

impl Telemetry {
    pub fn loop_len(&self) -> (len: usize)
        ensures
            len == self@.0,
    {
        self.loop_len
    }

    pub fn take_start(&self) -> (start: usize)
        ensures
            start == self@.1,
    {
        self.take_start
    }
}

impl SharedControl {
    /// The state last published, for one run of the input half.
    pub fn published_state(&self) -> (published: PublishedState) {
        PublishedState { state: self.load_state() }
    }

    /// The state last published and the requests waiting, for one run of
    /// the output half: the requests are taken.
    pub fn run_requests(&self) -> (requests: RunRequests) {
        let state = self.load_state();
        let clear = self.take_clear_request();
        let remove = self.take_remove_layer_request();
        RunRequests { state, clear, remove }
    }

    /// The loop length and the take start last published, for one frame
    /// of the UI thread.
    pub fn telemetry(&self) -> (published: Telemetry) {
        Telemetry { loop_len: self.loop_len(), take_start: self.take_start() }
    }
}

} // verus!
