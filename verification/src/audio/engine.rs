// Everything downstream of the device: the input and output halves of the
// audio path, the rings between them, and the choice of a stream
// configuration from what a device reports. No driver types appear here,
// so a test can build a path and push buffers through it.

use std::sync::Arc;
use vstd::prelude::*;
use vstd::string::StringExecFns;
use crate::audio::loop_stack::{
    advanced, cleared, mix, overdub_run, padded, sat_add, saturating_add, scaled, silence,
    step_pos, without_newest, LoopStack, OpenTake, StackModel,
};
use crate::audio::ring::{sample_ring, SampleReceiver, SampleSender};
use crate::audio::shared_control::{PublishedState, RunRequests, SharedControl};
use crate::config::AppConfig;
use crate::state_machine::{is_capturing, LoopState};
use crate::toml::{chars_of, decimal, push_decimal};

verus! {

broadcast use vstd::string::group_string_axioms;

/// Bounds one callback's worth of work at a fixed size, so the scratch
/// buffers can be taken up front. Not a setting - it is about what the
/// driver might hand us, not about how anyone wants the app to behave.
pub const SCRATCH_CAPACITY: usize = 32768;

/// Seconds of captured audio the UI thread's copy can fall behind by
/// before samples start being dropped. Generous: losing any means the
/// recorded loop cannot be saved.
pub const CAPTURE_BUFFER_SECONDS: usize = 2;

// ---------------------------------------------------------------------
// Mixing
// ---------------------------------------------------------------------

/// Adds `loop_signal` onto `dry` in place, saturating so a loud loop
/// cannot wrap the live signal into its opposite sign. Samples past the
/// shorter of the two are left as they are.
pub fn mix_add(dry: &mut [i32], loop_signal: &[i32])
    ensures
        final(dry)@.len() == old(dry)@.len(),
        forall|i: int|
            0 <= i < old(dry)@.len() ==> #[trigger] final(dry)@[i] == if i < loop_signal@.len() {
                sat_add(old(dry)@[i], loop_signal@[i])
            } else {
                old(dry)@[i]
            },
{
    let n = if dry.len() < loop_signal.len() {
        dry.len()
    } else {
        loop_signal.len()
    };
    let mut i: usize = 0;
    while i < n
        invariant
            i <= n,
            n <= dry@.len(),
            n <= loop_signal@.len(),
            dry@.len() == old(dry)@.len(),
            forall|j: int| 0 <= j < i ==> #[trigger] dry@[j] == sat_add(old(dry)@[j], loop_signal@[j]),
            forall|j: int| i <= j < dry@.len() ==> #[trigger] dry@[j] == old(dry)@[j],
        decreases n - i,
    {
        let mixed = saturating_add(dry[i], loop_signal[i]);
        dry[i] = mixed;
        i = i + 1;
    }
}

/// Duplicates mono across every output channel, so a single input is
/// centred rather than coming out of one side only: frame `f` of `out`
/// carries `mono[f]` on each of its `channels` samples, for as many whole
/// frames as `out` holds and `mono` has samples; anything past that is
/// left as it was.
pub fn duplicate_mono_to_channels(mono: &[i32], channels: u16, out: &mut [i32])
    requires
        channels > 0,
    ensures
        final(out)@.len() == old(out)@.len(),
        forall|f: int, c: int|
            0 <= f < mono@.len() && 0 <= c < channels && (f + 1) * channels <= old(out)@.len()
                ==> #[trigger] final(out)@[f * channels + c] == mono@[f],
        forall|i: int|
            0 <= i < old(out)@.len() && i >= mono@.len() * channels ==> #[trigger] final(out)@[i]
                == old(out)@[i],
        forall|i: int|
            0 <= i < old(out)@.len() && i >= (old(out)@.len() / (channels as nat)) * channels
                ==> #[trigger] final(out)@[i] == old(out)@[i],
{
    let ch = channels as usize;
    let whole = out.len() / ch;
    let frames = if whole < mono.len() {
        whole
    } else {
        mono.len()
    };
    assert(frames * ch <= out@.len()) by (nonlinear_arith)
        requires
            frames <= whole,
            whole == out@.len() / (ch as nat),
            ch > 0,
    ;
    let mut f: usize = 0;
    while f < frames
        invariant
            f <= frames,
            frames <= mono@.len(),
            frames * ch <= out@.len(),
            out@.len() <= usize::MAX,
            ch == channels,
            ch > 0,
            frames <= out@.len() / (ch as nat),
            out@.len() == old(out)@.len(),
            forall|g: int, c: int|
                0 <= g < f && 0 <= c < ch ==> #[trigger] out@[g * ch + c] == mono@[g],
            forall|i: int| f * ch <= i < out@.len() ==> #[trigger] out@[i] == old(out)@[i],
        decreases frames - f,
    {
        let sample = mono[f];
        assert(f * ch + ch <= out@.len()) by (nonlinear_arith)
            requires
                f < frames,
                frames * ch <= out@.len(),
                ch > 0,
        ;
        let base = f * ch;
        let mut c: usize = 0;
        while c < ch
            invariant
                c <= ch,
                base == f * ch,
                base + ch <= out@.len(),
                out@.len() <= usize::MAX,
                out@.len() == old(out)@.len(),
                forall|g: int, d: int|
                    0 <= g < f && 0 <= d < ch ==> #[trigger] out@[g * ch + d] == mono@[g],
                forall|d: int| 0 <= d < c ==> #[trigger] out@[base + d] == sample,
                forall|i: int| base + c <= i < out@.len() ==> #[trigger] out@[i] == old(out)@[i],
                f < frames,
                frames <= mono@.len(),
                sample == mono@[f as int],
                ch > 0,
            decreases ch - c,
        {
            let ghost before = out@;
            out[base + c] = sample;
            proof {
                assert forall|g: int, d: int| 0 <= g < f && 0 <= d < ch implies #[trigger] out@[g * ch
                    + d] == mono@[g] by {
                    assert(g * ch + d < base) by (nonlinear_arith)
                        requires
                            g < f,
                            d < ch,
                            base == f * ch,
                    ;
                    assert(out@[g * ch + d] == before[g * ch + d]);
                }
            }
            c = c + 1;
        }
        proof {
            assert forall|g: int, d: int| 0 <= g < f + 1 && 0 <= d < ch implies #[trigger] out@[g * ch
                + d] == mono@[g] by {
                if g == f {
                    assert(out@[base + d] == sample);
                }
            }
            assert((f + 1) * ch == base + ch) by (nonlinear_arith)
                requires
                    base == f * ch,
            ;
        }
        f = f + 1;
    }
    proof {
        assert forall|g: int, c: int|
            0 <= g < mono@.len() && 0 <= c < channels && (g + 1) * channels <= old(out)@.len()
                implies #[trigger] out@[g * channels + c] == mono@[g] by {
            assert(g < frames) by (nonlinear_arith)
                requires
                    (g + 1) * ch <= out@.len(),
                    ch > 0,
                    g < mono@.len(),
                    frames == (if out@.len() / (ch as nat) < mono@.len() {
                        out@.len() / (ch as nat)
                    } else {
                        mono@.len()
                    }),
            ;
        }
        assert forall|i: int|
            0 <= i < old(out)@.len() && i >= mono@.len() * channels implies #[trigger] out@[i]
                == old(out)@[i] by {
            assert(frames * ch <= mono@.len() * ch) by (nonlinear_arith)
                requires
                    frames <= mono@.len(),
            ;
        }
        assert forall|i: int|
            0 <= i < old(out)@.len() && i >= (old(out)@.len() / (channels as nat)) * channels
                implies #[trigger] out@[i] == old(out)@[i] by {
            assert(frames * ch <= (out@.len() / (ch as nat)) * ch) by (nonlinear_arith)
                requires
                    frames <= out@.len() / (ch as nat),
                    ch > 0,
            ;
        }
    }
}

// ---------------------------------------------------------------------
// Recording alignment
// ---------------------------------------------------------------------

/// Holds the recorded signal back by as many samples as the passthrough
/// carries of headroom, so the sample stored at loop position p is the one
/// heard against p rather than a whole monitoring delay fresher.
pub struct MonitorDelay {
    /// The last `frames` samples, oldest at `at`. Empty means no delay.
    buffer: Vec<i32>,
    at: usize,
}

proof fn lemma_mod_once(x: int, m: int)
    requires
        m > 0,
        0 <= x < 2 * m,
    ensures
        x % m == if x < m {
            x
        } else {
            x - m
        },
{
    if x < m {
        vstd::arithmetic::div_mod::lemma_small_mod(x as nat, m as nat);
    } else {
        vstd::arithmetic::div_mod::lemma_mod_add_multiples_vanish(x - m, m);
        vstd::arithmetic::div_mod::lemma_small_mod((x - m) as nat, m as nat);
    }
}

/// The samples a delay line holds, oldest first.
pub open spec fn line_of(buffer: Seq<i32>, at: int) -> Seq<i32> {
    Seq::new(buffer.len(), |k: int| buffer[(at + k) % (buffer.len() as int)])
}

impl MonitorDelay {
    pub closed spec fn wf(&self) -> bool {
        self.buffer@.len() == 0 || self.at < self.buffer@.len()
    }

    /// What the line holds, oldest first.
    pub closed spec fn held(&self) -> Seq<i32> {
        line_of(self.buffer@, self.at as int)
    }

    /// A delay of `frames` samples, starting from silence.
    pub fn new(frames: usize) -> (delay: MonitorDelay)
        ensures
            delay.wf(),
            delay.held() == Seq::new(frames as nat, |k: int| 0i32),
    {
        let delay = MonitorDelay { buffer: vec![0i32; frames], at: 0 };
        assert(delay.held() =~= Seq::new(frames as nat, |k: int| 0i32));
        delay
    }

    /// Replaces every sample with the one the line's length earlier, in
    /// place: what comes out is what the line held followed by what went
    /// in, cut to the length that went in, and the line keeps the rest.
    pub fn apply(&mut self, samples: &mut [i32])
        requires
            old(self).wf(),
        ensures
            final(self).wf(),
            final(samples)@ == (old(self).held() + old(samples)@).take(old(samples)@.len() as int),
            final(self).held() == (old(self).held() + old(samples)@).skip(old(samples)@.len() as int),
    {
        let ghost all = self.held() + samples@;
        let ghost input = samples@;
        let len = self.buffer.len();
        if len == 0 {
            assert(all =~= input);
            assert(all.take(input.len() as int) =~= input);
            assert(self.held() =~= all.skip(input.len() as int));
            return;
        }
        let n = samples.len();
        let mut i: usize = 0;
        assert(all.subrange(0, len as int) =~= self.held());
        while i < n
            invariant
                len == self.buffer@.len(),
                len > 0,
                self.at < len,
                n == samples@.len(),
                n == input.len(),
                all == old(self).held() + input,
                old(self).held().len() == len,
                i <= n,
                self.held() == all.subrange(i as int, i + len),
                forall|j: int| 0 <= j < i ==> #[trigger] samples@[j] == all[j],
                forall|j: int| i <= j < n ==> #[trigger] samples@[j] == input[j],
            decreases n - i,
        {
            let ghost before = self.buffer@;
            let ghost pos = self.at as int;
            let incoming = samples[i];
            let outgoing = self.buffer[self.at];
            samples[i] = outgoing;
            self.buffer.set(self.at, incoming);
            self.at = if self.at + 1 == len {
                0
            } else {
                self.at + 1
            };
            proof {
                vstd::arithmetic::div_mod::lemma_small_mod(pos as nat, len as nat);
                assert(outgoing == line_of(before, pos)[0]);
                assert(all[i as int] == outgoing);
                assert(all[i + len] == incoming);
                let next = self.at as int;
                assert(next == (pos + 1) % (len as int)) by {
                    if pos + 1 == len {
                        vstd::arithmetic::div_mod::lemma_mod_self_0(len as int);
                    } else {
                        vstd::arithmetic::div_mod::lemma_small_mod((pos + 1) as nat, len as nat);
                    }
                }
                assert forall|k: int| 0 <= k < len implies #[trigger] self.held()[k] == all[i + 1 + k] by {
                    let x = pos + 1 + k;
                    lemma_mod_once(x, len as int);
                    lemma_mod_once(next + k, len as int);
                    let idx = if x < len { x } else { x - len };
                    assert((next + k) % (len as int) == idx);
                    if k == len - 1 {
                        assert(idx == pos);
                        assert(self.buffer@[pos] == incoming);
                    } else {
                        assert(idx != pos);
                        assert(self.buffer@[idx] == before[idx]);
                        assert(line_of(before, pos)[k + 1] == before[(pos + (k + 1)) % (len as int)]);
                        assert(line_of(before, pos)[k + 1] == all[i + k + 1]);
                    }
                }
                assert(self.held() =~= all.subrange(i + 1, i + 1 + len));
            }
            i = i + 1;
        }
        assert(samples@ =~= all.take(n as int));
        assert(self.held() =~= all.skip(n as int));
    }
}

// ---------------------------------------------------------------------
// Layer bookkeeping on a state change
// ---------------------------------------------------------------------

/// The stack once the take that `from` was recording is closed: a first
/// take fixes the loop length, an overdub becomes a layer.
pub open spec fn after_leaving(m: StackModel, from: LoopState) -> StackModel {
    match from {
        LoopState::Recording => match m.take {
            OpenTake::First(recorded) => StackModel {
                loop_len: recorded.len(),
                play_pos: 0,
                layers: if recorded.len() > 0 {
                    seq![recorded]
                } else {
                    Seq::empty()
                },
                take: OpenTake::Idle,
                ..m
            },
            _ => m,
        },
        LoopState::Overdubbing => match m.take {
            OpenTake::Overdub { written, layer, .. } => StackModel {
                layers: if written > 0 {
                    m.layers.push(layer)
                } else {
                    m.layers
                },
                take: OpenTake::Idle,
                ..m
            },
            _ => m,
        },
        _ => m,
    }
}

/// Whether an overdub can open on the stack: there is a loop, and room for
/// another layer.
pub open spec fn can_open_overdub(m: StackModel) -> bool {
    m.loop_len > 0 && m.layers.len() < m.max_layers
}

/// The stack once the take that `to` records is opened: a first take
/// starts over from nothing, an overdub starts at the playback position.
pub open spec fn after_entering(m: StackModel, to: LoopState) -> StackModel {
    match to {
        LoopState::Recording => StackModel { take: OpenTake::First(Seq::empty()), ..cleared(m) },
        LoopState::Overdubbing => if can_open_overdub(m) {
            StackModel {
                take: OpenTake::Overdub { start: m.play_pos, written: 0, layer: silence(m.loop_len) },
                ..m
            }
        } else {
            m
        },
        _ => m,
    }
}

/// Layer bookkeeping that has to happen exactly when the state changes
/// rather than on every callback: closing the take the old state was
/// recording, then opening the one the new state records. Where an overdub
/// opens, where it starts is published for the UI thread's copy, which
/// cannot see the playback position the layer was aligned to otherwise.
pub fn apply_state_change(stack: &mut LoopStack, control: &SharedControl, from: LoopState, to: LoopState)
    requires
        old(stack).wf(),
    ensures
        final(stack).wf(),
        final(stack)@ == after_entering(after_leaving(old(stack)@, from), to),
{
    match from {
        LoopState::Recording => stack.finish_first_layer(),
        LoopState::Overdubbing => stack.finish_overdub(),
        _ => {},
    }
    match to {
        LoopState::Recording => stack.begin_first_layer(),
        LoopState::Overdubbing => {
            if stack.begin_overdub() {
                control.publish_take_start(stack.play_pos());
            }
        },
        _ => {},
    }
}

// ---------------------------------------------------------------------
// The two halves of the audio path
// ---------------------------------------------------------------------

/// The input half: one interleaved buffer from the driver, reduced to the
/// chosen channel as mono and handed to everyone who wants it.
pub struct InputPath {
    control: Arc<SharedControl>,
    channels: u16,
    input_channel: u16,
    scratch: Vec<i32>,
    delay: MonitorDelay,
    passthrough: SampleSender,
    recorder: SampleSender,
    capture: SampleSender,
    /// Every state read from the relay, one a run, in order.
    states_read: Ghost<Seq<LoopState>>,
}

/// Whether a take was being recorded in each of `states`.
pub open spec fn capturing_of(states: Seq<LoopState>) -> Seq<bool> {
    Seq::new(states.len(), |k: int| is_capturing(states[k]))
}

/// Nothing is recorded outside a take: runs read in states that do not
/// record - Idle, Arming, Looping, Stopped - hand nothing to the layer
/// stack or the copy, and a run read in one that does hands on exactly the
/// stretch it covers, after what the runs before it handed on.
pub proof fn lemma_recorded_only_in_a_take(stream: Seq<i32>, states: Seq<LoopState>, total: nat)
    ensures
        (forall|k: int| 0 <= k < states.len() ==> !is_capturing(#[trigger] states[k]))
            ==> captured_runs(stream, capturing_of(states), total) == Seq::<i32>::empty(),
        states.len() > 0 ==> captured_runs(stream, capturing_of(states), total) == captured_runs(
            stream,
            capturing_of(states.drop_last()),
            total,
        ) + if is_capturing(states.last()) {
            stream.subrange(
                (states.len() - 1) * SCRATCH_CAPACITY,
                (states.len() - 1) * SCRATCH_CAPACITY + run_frames(total, (states.len() - 1) as nat),
            )
        } else {
            Seq::empty()
        },
    decreases states.len(),
{
    if states.len() > 0 {
        assert(capturing_of(states).drop_last() =~= capturing_of(states.drop_last()));
        lemma_recorded_only_in_a_take(stream, states.drop_last(), total);
        if !is_capturing(states.last()) {
            assert(captured_runs(stream, capturing_of(states.drop_last()), total) + Seq::<i32>::empty()
                =~= captured_runs(stream, capturing_of(states.drop_last()), total));
        }
    } else {
        assert(capturing_of(states) =~= Seq::<bool>::empty());
    }
}

/// Noting one more state read keeps what was read before and adds its
/// capture flag.
proof fn lemma_one_more_read(
    before: Seq<LoopState>,
    reads: Seq<LoopState>,
    state: LoopState,
    capturing: Seq<bool>,
)
    requires
        reads.len() >= before.len(),
        reads.take(before.len() as int) == before,
        capturing == capturing_of(reads.skip(before.len() as int)),
    ensures
        reads.push(state).len() == reads.len() + 1,
        reads.push(state).take(before.len() as int) == before,
        capturing_of(reads.push(state).skip(before.len() as int)) == capturing.push(
            is_capturing(state),
        ),
{
    let n = before.len() as int;
    assert(reads.push(state).skip(n) =~= reads.skip(n).push(state));
    assert(reads.push(state).take(n) =~= reads.take(n));
    assert(capturing_of(reads.push(state).skip(n)) =~= capturing.push(is_capturing(state)));
}

/// The mono samples of interleaved `data` on `channel`: one per whole
/// frame.
pub open spec fn channel_of(data: Seq<i32>, channels: nat, channel: nat) -> Seq<i32> {
    Seq::new(data.len() / channels, |f: int| data[f * channels + channel])
}

/// Feeding a delay line what follows `done` samples of `mono`, `frames`
/// more of them, leaves it as if it had been fed the first `done + frames`
/// at once.
proof fn lemma_delay_advances(start: Seq<i32>, mono: Seq<i32>, done: int, frames: int, held: Seq<i32>)
    requires
        0 <= done,
        0 <= frames,
        done + frames <= mono.len(),
        held == (start + mono.take(done)).skip(done),
    ensures
        (held + mono.subrange(done, done + frames)).skip(frames) == (start + mono.take(done
            + frames)).skip(done + frames),
{
    assert((held + mono.subrange(done, done + frames)).skip(frames) =~= (start + mono.take(done
        + frames)).skip(done + frames));
}

/// How many scratch-sized runs a buffer of `total` frames is worked
/// through in.
pub open spec fn run_count(total: nat) -> nat {
    ((total + SCRATCH_CAPACITY - 1) / (SCRATCH_CAPACITY as int)) as nat
}

/// What the runs of a `total`-frame buffer hand on while a take is being
/// recorded: of the `stream` of delayed samples, the stretch each run
/// covers, for the runs in which `capturing` says a take was being
/// recorded, in order.
pub open spec fn captured_runs(stream: Seq<i32>, capturing: Seq<bool>, total: nat) -> Seq<i32>
    decreases capturing.len(),
{
    if capturing.len() == 0 {
        Seq::empty()
    } else {
        let k = (capturing.len() - 1) as nat;
        let before = captured_runs(stream, capturing.drop_last(), total);
        if capturing.last() {
            before + stream.subrange(
                k * SCRATCH_CAPACITY as int,
                k * SCRATCH_CAPACITY + run_frames(total, k),
            )
        } else {
            before
        }
    }
}

/// The run of a delay line fed what follows `done` samples of `mono` puts
/// out, `frames` of them, is that stretch of the line's contents followed
/// by `mono`.
proof fn lemma_delayed_run(start: Seq<i32>, mono: Seq<i32>, done: int, frames: int, held: Seq<i32>)
    requires
        0 <= done,
        0 <= frames,
        done + frames <= mono.len(),
        held == (start + mono.take(done)).skip(done),
    ensures
        (held + mono.subrange(done, done + frames)).take(frames) == (start + mono).subrange(
            done,
            done + frames,
        ),
{
    assert((held + mono.subrange(done, done + frames)).take(frames) =~= (start + mono).subrange(
        done,
        done + frames,
    ));
}

/// A buffer whose last run ends at `total` after `k` whole runs before it
/// is worked through in `k + 1` runs.
proof fn lemma_last_run(total: int, k: int)
    requires
        0 <= k,
        k * SCRATCH_CAPACITY < total <= (k + 1) * SCRATCH_CAPACITY,
    ensures
        run_count(total as nat) == k + 1,
{
    assert((total + SCRATCH_CAPACITY - 1) / (SCRATCH_CAPACITY as int) == k + 1) by (nonlinear_arith)
        requires
            k * SCRATCH_CAPACITY < total <= (k + 1) * SCRATCH_CAPACITY,
            SCRATCH_CAPACITY == 32768,
    ;
}

impl InputPath {
    pub closed spec fn wf(&self) -> bool {
        &&& self.channels > 0
        &&& self.input_channel < self.channels
        &&& self.scratch@.len() == SCRATCH_CAPACITY
        &&& self.delay.wf()
    }

    /// What the recording delay holds, oldest first: its length is the
    /// delay.
    pub closed spec fn delay_held(&self) -> Seq<i32> {
        self.delay.held()
    }

    /// How many interleaved channels a frame of input holds.
    pub closed spec fn channel_count(&self) -> nat {
        self.channels as nat
    }

    /// The channel captured.
    pub closed spec fn captured_channel(&self) -> nat {
        self.input_channel as nat
    }

    /// Every sample handed to the ring toward the output, in order.
    pub closed spec fn passthrough_offered(&self) -> Seq<i32> {
        self.passthrough.offered()
    }

    /// The recording delay holds the newest of the samples handed toward
    /// the output, as many as it is long: what it lets through next is
    /// what the output plays next.
    pub open spec fn monitor_aligned(&self) -> bool {
        &&& self.passthrough_offered().len() >= self.delay_held().len()
        &&& self.delay_held() == self.passthrough_offered().skip(
            self.passthrough_offered().len() - self.delay_held().len(),
        )
    }

    /// Every sample handed to the ring toward the layer stack, in order.
    pub closed spec fn recorder_offered(&self) -> Seq<i32> {
        self.recorder.offered()
    }

    /// Every sample handed to the ring toward the UI thread's copy, in
    /// order.
    pub closed spec fn capture_offered(&self) -> Seq<i32> {
        self.capture.offered()
    }

    /// Every state the input half has read from the relay, one a run, in
    /// order.
    pub closed spec fn states_read(&self) -> Seq<LoopState> {
        self.states_read@
    }

    /// Reads the state the UI thread published, for one run, and notes it.
    fn read_state(&mut self) -> (published: PublishedState)
        ensures
            final(self).states_read() == old(self).states_read().push(published@),
            final(self).control == old(self).control,
            final(self).channels == old(self).channels,
            final(self).input_channel == old(self).input_channel,
            final(self).scratch == old(self).scratch,
            final(self).delay == old(self).delay,
            final(self).passthrough == old(self).passthrough,
            final(self).recorder == old(self).recorder,
            final(self).capture == old(self).capture,
    {
        let published = self.control.published_state();
        self.states_read = Ghost(self.states_read@.push(published@));
        published
    }

    /// Takes the chosen channel out of `frames` whole frames of `data`
    /// starting at frame `first`, into the front of the scratch buffer.
    fn take_channel(&mut self, data: &[i32], first: usize, frames: usize)
        requires
            old(self).wf(),
            frames <= SCRATCH_CAPACITY,
            (first + frames) * old(self).channels <= data@.len(),
        ensures
            final(self).wf(),
            final(self).channels == old(self).channels,
            final(self).input_channel == old(self).input_channel,
            final(self).delay == old(self).delay,
            final(self).passthrough == old(self).passthrough,
            final(self).recorder == old(self).recorder,
            final(self).capture == old(self).capture,
            final(self).states_read == old(self).states_read,
            forall|f: int|
                0 <= f < frames ==> #[trigger] final(self).scratch@[f] == data@[(first + f)
                    * old(self).channels + old(self).input_channel],
    {
        let ch = self.channels as usize;
        let pick = self.input_channel as usize;
        let n = data.len();
        assert(first + frames <= data@.len()) by (nonlinear_arith)
            requires
                (first + frames) * ch <= data@.len(),
                ch > 0,
        ;
        let mut f: usize = 0;
        while f < frames
            invariant
                self.wf(),
                ch == self.channels,
                pick == self.input_channel,
                self.channels == old(self).channels,
                self.input_channel == old(self).input_channel,
                self.delay == old(self).delay,
                self.passthrough == old(self).passthrough,
                self.recorder == old(self).recorder,
                self.capture == old(self).capture,
                self.states_read == old(self).states_read,
                f <= frames,
                frames <= SCRATCH_CAPACITY,
                (first + frames) * ch <= data@.len(),
                first + frames <= data@.len(),
                data@.len() <= usize::MAX,
                forall|g: int|
                    0 <= g < f ==> #[trigger] self.scratch@[g] == data@[(first + g) * ch + pick],
            decreases frames - f,
        {
            assert((first + f) * ch <= data@.len()) by (nonlinear_arith)
                requires
                    f < frames,
                    (first + frames) * ch <= data@.len(),
            ;
            assert((first + f) * ch + pick < data@.len()) by (nonlinear_arith)
                requires
                    f < frames,
                    pick < ch,
                    (first + frames) * ch <= data@.len(),
            ;
            let row = first + f;
            assert(row * ch <= data@.len());
            let base = row * ch;
            let sample = data[base + pick];
            self.scratch.set(f, sample);
            f = f + 1;
        }
    }

    /// One run of `frames` whole frames of `data`, from frame `first`, with
    /// `state` the state the UI thread published: the chosen channel goes
    /// through to the output undelayed, and through the recording delay;
    /// what the delay lets out goes to the layer stack and to the UI
    /// thread's copy exactly when `state` is one in which a take is
    /// recorded. A full passthrough ring is counted as the output falling
    /// behind; samples the copy had no room for are counted as lost.
    pub fn process_run(&mut self, data: &[i32], first: usize, frames: usize, state: LoopState)
        requires
            old(self).wf(),
            frames <= SCRATCH_CAPACITY,
            (first + frames) * old(self).channel_count() <= data@.len(),
        ensures
            final(self).wf(),
            final(self).channel_count() == old(self).channel_count(),
            final(self).captured_channel() == old(self).captured_channel(),
            final(self).states_read() == old(self).states_read(),
            ({
                let run = channel_of(
                    data@,
                    old(self).channel_count(),
                    old(self).captured_channel(),
                ).subrange(first as int, first + frames);
                let line = old(self).delay_held() + run;
                let delayed = line.take(frames as int);
                let recorded = if is_capturing(state) {
                    delayed
                } else {
                    Seq::empty()
                };
                &&& final(self).delay_held() == line.skip(frames as int)
                &&& final(self).passthrough_offered() == old(self).passthrough_offered() + run
                &&& final(self).recorder_offered() == old(self).recorder_offered() + recorded
                &&& final(self).capture_offered() == old(self).capture_offered() + recorded
            }),
    {
        let ch = self.channels as usize;
        let ghost mono = channel_of(data@, ch as nat, self.input_channel as nat);
        assert(first + frames <= data@.len() / (ch as nat)) by (nonlinear_arith)
            requires
                (first + frames) * ch <= data@.len(),
                ch > 0,
        ;
        let ghost run = mono.subrange(first as int, first + frames);
        self.take_channel(data, first, frames);
        assert(self.scratch@.take(frames as int) =~= run);
        // A full ring means the far side has not drained it, so it is the
        // output that fell behind, not this callback.
        let pushed = {
            let (fresh, _) = self.scratch.as_slice().split_at(frames);
            self.passthrough.push_slice(fresh)
        };
        if pushed < frames {
            self.control.note_output_underrun();
        }
        // Held back to match what the passthrough is putting out right now.
        // The layer stack and the UI thread's copy are both fed from here,
        // so they still see the same samples as each other.
        let ghost held = self.delay_held();
        {
            let (fresh, _) = self.scratch.as_mut_slice().split_at_mut(frames);
            self.delay.apply(fresh);
        }
        let ghost delayed = self.scratch@.take(frames as int);
        assert(delayed == (held + run).take(frames as int));
        let ghost recorder_before = self.recorder_offered();
        let ghost capture_before = self.capture_offered();
        if state.is_capturing() {
            let (out, _) = self.scratch.as_slice().split_at(frames);
            assert(out@ == delayed);
            let _ = self.recorder.push_slice(out);
            let mirrored = self.capture.push_slice(out);
            if mirrored < frames {
                self.control.note_capture_lost(frames - mirrored);
            }
        } else {
            assert(recorder_before + Seq::<i32>::empty() =~= recorder_before);
            assert(capture_before + Seq::<i32>::empty() =~= capture_before);
        }
    }

    /// Called with each buffer the driver delivers: passes the chosen
    /// channel through to the output, and while a take is being recorded
    /// also to the layer stack and to the UI thread's copy. A full
    /// passthrough ring is counted as the output falling behind; samples
    /// the copy had no room for are counted as lost. Works through the
    /// buffer a scratch-sized run of frames at a time, so a driver handing
    /// over more than expected cannot overrun anything: each run is
    /// `process_run` with the state the UI thread published at the time.
    pub fn process(&mut self, data: &[i32])
        requires
            old(self).wf(),
        ensures
            final(self).wf(),
            final(self).channel_count() == old(self).channel_count(),
            final(self).captured_channel() == old(self).captured_channel(),
            ({
                let mono = channel_of(data@, old(self).channel_count(), old(self).captured_channel());
                let stream = old(self).delay_held() + mono;
                &&& final(self).delay_held() == stream.skip(mono.len() as int)
                &&& final(self).passthrough_offered() == old(self).passthrough_offered() + mono
                &&& old(self).monitor_aligned() ==> {
                    &&& final(self).monitor_aligned()
                    &&& stream == final(self).passthrough_offered().skip(
                        old(self).passthrough_offered().len() - old(self).delay_held().len(),
                    )
                }
                // One state is read a run, and a run is handed on to the
                // layer stack and to the copy exactly when the state read
                // for it is one in which a take is recorded.
                &&& final(self).states_read().len() == old(self).states_read().len() + run_count(
                    mono.len(),
                )
                &&& final(self).states_read().take(old(self).states_read().len() as int) == old(
                    self,
                ).states_read()
                &&& final(self).recorder_offered() == old(self).recorder_offered() + captured_runs(
                    stream,
                    capturing_of(final(self).states_read().skip(old(self).states_read().len() as int)),
                    mono.len(),
                )
                &&& final(self).capture_offered() == old(self).capture_offered() + captured_runs(
                    stream,
                    capturing_of(final(self).states_read().skip(old(self).states_read().len() as int)),
                    mono.len(),
                )
            }),
    {
        let ch = self.channels as usize;
        let total = data.len() / ch;
        let ghost mono = channel_of(data@, ch as nat, self.input_channel as nat);
        let ghost start = self.delay_held();
        let ghost stream = start + mono;
        let ghost mut capturing: Seq<bool> = Seq::empty();
        let mut done: usize = 0;
        assert((start + mono.take(0)).skip(0) =~= start);
        assert(old(self).passthrough_offered() + mono.take(0) =~= old(self).passthrough_offered());
        assert(old(self).recorder_offered() + captured_runs(stream, capturing, total as nat)
            =~= old(self).recorder_offered());
        assert(old(self).capture_offered() + captured_runs(stream, capturing, total as nat)
            =~= old(self).capture_offered());
        assert(self.states_read().skip(self.states_read().len() as int) =~= Seq::<LoopState>::empty());
        assert(capturing_of(Seq::<LoopState>::empty()) =~= capturing);
        assert(self.states_read().take(self.states_read().len() as int) =~= self.states_read());
        while done < total
            invariant
                self.wf(),
                ch == self.channels,
                self.channels == old(self).channels,
                self.input_channel == old(self).input_channel,
                done <= total,
                total == data@.len() / (ch as nat),
                mono == channel_of(data@, ch as nat, self.input_channel as nat),
                mono.len() == total,
                start == old(self).delay_held(),
                stream == start + mono,
                self.delay_held() == (start + mono.take(done as int)).skip(done as int),
                self.passthrough_offered() == old(self).passthrough_offered() + mono.take(done as int),
                self.recorder_offered() == old(self).recorder_offered() + captured_runs(
                    stream,
                    capturing,
                    total as nat,
                ),
                self.capture_offered() == old(self).capture_offered() + captured_runs(
                    stream,
                    capturing,
                    total as nat,
                ),
                done < total ==> done == capturing.len() * SCRATCH_CAPACITY,
                done == total ==> capturing.len() == run_count(total as nat),
                self.states_read().len() == old(self).states_read().len() + capturing.len(),
                self.states_read().take(old(self).states_read().len() as int) == old(
                    self,
                ).states_read(),
                capturing == capturing_of(
                    self.states_read().skip(old(self).states_read().len() as int),
                ),
            decreases total - done,
        {
            let frames = if total - done < SCRATCH_CAPACITY {
                total - done
            } else {
                SCRATCH_CAPACITY
            };
            assert((done + frames) * ch <= data@.len()) by (nonlinear_arith)
                requires
                    done + frames <= total,
                    total == data@.len() / (ch as nat),
                    ch > 0,
            ;
            // The state the UI thread last published decides whether this
            // run is part of a take.
            let ghost reads_before = self.states_read();
            let published = self.read_state();
            let state = published.state();
            let recording = state.is_capturing();
            let ghost held = self.delay_held();
            let ghost recorder_before = self.recorder_offered();
            let ghost capture_before = self.capture_offered();
            self.process_run(data, done, frames, state);
            proof {
                lemma_delay_advances(start, mono, done as int, frames as int, held);
                lemma_delayed_run(start, mono, done as int, frames as int, held);
                assert(run_frames(total as nat, capturing.len()) == frames);
                let delayed_run = stream.subrange(done as int, done + frames);
                let next = capturing.push(recording);
                assert(next.drop_last() =~= capturing);
                lemma_one_more_read(old(self).states_read(), reads_before, state, capturing);
                assert(old(self).passthrough_offered() + mono.take(done + frames) =~= old(
                    self,
                ).passthrough_offered() + mono.take(done as int) + mono.subrange(
                    done as int,
                    done + frames,
                ));
                if recording {
                    assert(self.recorder_offered() == recorder_before + delayed_run);
                    assert(old(self).recorder_offered() + captured_runs(stream, next, total as nat)
                        =~= old(self).recorder_offered() + captured_runs(
                        stream,
                        capturing,
                        total as nat,
                    ) + delayed_run);
                    assert(old(self).capture_offered() + captured_runs(stream, next, total as nat)
                        =~= old(self).capture_offered() + captured_runs(
                        stream,
                        capturing,
                        total as nat,
                    ) + delayed_run);
                } else {
                    assert(self.recorder_offered() =~= recorder_before);
                    assert(self.capture_offered() =~= capture_before);
                }
                if done + frames == total {
                    lemma_last_run(total as int, capturing.len() as int);
                }
                capturing = next;
            }
            done = done + frames;
        }
        assert(mono.take(total as int) =~= mono);
        proof {
            if old(self).monitor_aligned() {
                let p = old(self).passthrough_offered();
                let l = start.len() as int;
                assert(stream =~= self.passthrough_offered().skip(p.len() - l));
                assert(self.delay_held() =~= self.passthrough_offered().skip(
                    self.passthrough_offered().len() - self.delay_held().len(),
                ));
            }
        }
    }
}

/// What the output half learns from outside during one run of frames:
/// the state the UI thread has published, whether it asked for a clear and
/// for the newest layer to be dropped, and the samples the recorder and
/// passthrough rings gave up.
pub struct RunInput {
    pub state: LoopState,
    pub clear: bool,
    pub remove: bool,
    pub recorded: Seq<i32>,
    /// The dry samples the passthrough ring gave up.
    pub dry: Seq<i32>,
}

/// The layer stack once a run's requests are applied: layer bookkeeping
/// where the published `state` differs from the one seen last, then a
/// clear, then dropping the newest layer, as asked.
pub open spec fn settled(m: StackModel, previous: LoopState, state: LoopState, clear: bool, remove: bool) -> StackModel {
    let changed = if state != previous {
        after_entering(after_leaving(m, previous), state)
    } else {
        m
    };
    let emptied = if clear {
        cleared(changed)
    } else {
        changed
    };
    if remove {
        without_newest(emptied)
    } else {
        emptied
    }
}

/// What a run of `frames` frames does to the settled stack in the state
/// published: the first take grows by what was recorded, as far as there
/// is room; playing moves playback on; an overdub records the run, silence
/// filling what the recorder fell short of; the rest leave it be.
pub open spec fn run_effect(ready: StackModel, heard: RunInput, frames: nat) -> StackModel {
    match heard.state {
        LoopState::Recording => match ready.take {
            OpenTake::First(recorded) => StackModel {
                take: OpenTake::First(
                    recorded + heard.recorded.take(
                        vstd::math::min(heard.recorded.len() as int, ready.capacity - recorded.len()),
                    ),
                ),
                ..ready
            },
            _ => ready,
        },
        LoopState::Looping => advanced(ready, frames),
        LoopState::Overdubbing => match ready.take {
            OpenTake::Overdub { .. } => overdub_run(ready, padded(heard.recorded, frames)),
            _ => advanced(ready, frames),
        },
        _ => ready,
    }
}

/// The layer stack after one run of `frames` frames, given what was heard
/// from outside during it.
pub open spec fn run_step(m: StackModel, previous: LoopState, heard: RunInput, frames: nat) -> StackModel {
    run_effect(settled(m, previous, heard.state, heard.clear, heard.remove), heard, frames)
}

/// The loop as the `j`th sample of a run over the settled stack `ready`
/// plays it, at `gain` percent of unity: with an overdub open, over the
/// part of the take already recorded in this run.
pub open spec fn loop_sample(ready: StackModel, heard: RunInput, frames: nat, gain: u32, j: int) -> i32 {
    if heard.state == LoopState::Overdubbing && ready.take is Overdub {
        let before = overdub_run(ready, padded(heard.recorded, frames).take(j));
        scaled(mix(before, before.play_pos as int), gain as int)
    } else if ready.loop_len == 0 {
        0i32
    } else {
        scaled(mix(ready, step_pos(ready.play_pos, j as nat, ready.loop_len) as int), gain as int)
    }
}

/// The `j`th sample a run puts out: the dry signal, silence where the
/// passthrough ring fell short, with the loop mixed on while it plays.
pub open spec fn run_sample(ready: StackModel, heard: RunInput, frames: nat, gain: u32, j: int) -> i32 {
    let dry = padded(heard.dry, frames)[j];
    if heard.state == LoopState::Looping || heard.state == LoopState::Overdubbing {
        sat_add(dry, loop_sample(ready, heard, frames, gain, j))
    } else {
        dry
    }
}

/// An overdub keeps its shape while it records: still open, as long as
/// the loop, and playback still within the loop.
proof fn lemma_overdub_run_shape(m: StackModel, xs: Seq<i32>)
    requires
        m.take is Overdub,
        m.take->layer.len() == m.loop_len,
        m.loop_len > 0,
        m.play_pos < m.loop_len,
    ensures
        overdub_run(m, xs).take is Overdub,
        overdub_run(m, xs).take->layer.len() == m.loop_len,
        overdub_run(m, xs).loop_len == m.loop_len,
        overdub_run(m, xs).play_pos < m.loop_len,
    decreases xs.len(),
{
    if xs.len() > 0 {
        lemma_overdub_run_shape(m, xs.drop_last());
        let before = overdub_run(m, xs.drop_last());
        assert(step_pos(before.play_pos, 1, before.loop_len) < before.loop_len);
    }
}

/// What is heard is what is stored, within a run of an overdub: the
/// `j`th sample the run puts out plays the loop at the position where the
/// `j`th sample the recorder gave up is then stored - on the first pass
/// over it as it is, on a later pass summed into what the take already
/// holds there.
pub proof fn lemma_overdub_stored_where_heard(
    ready: StackModel,
    heard: RunInput,
    frames: nat,
    gain: u32,
    j: int,
)
    requires
        heard.state == LoopState::Overdubbing,
        ready.take is Overdub,
        ready.take->layer.len() == ready.loop_len,
        ready.loop_len > 0,
        ready.play_pos < ready.loop_len,
        0 <= j < frames,
    ensures
        ({
            let xs = padded(heard.recorded, frames);
            let before = overdub_run(ready, xs.take(j));
            let after = overdub_run(ready, xs.take(j + 1));
            let p = before.play_pos as int;
            &&& run_sample(ready, heard, frames, gain, j) == sat_add(
                padded(heard.dry, frames)[j],
                scaled(mix(before, p), gain as int),
            )
            &&& after.take is Overdub
            &&& (after.take->layer[p] == xs[j] || after.take->layer[p] == sat_add(
                before.take->layer[p],
                xs[j],
            ))
        }),
{
    let xs = padded(heard.recorded, frames);
    lemma_overdub_run_shape(ready, xs.take(j));
    assert(xs.take(j + 1).drop_last() =~= xs.take(j));
    assert(xs.take(j + 1).last() == xs[j]);
}

/// What is played is what is stored, within a run of an overdub whose
/// rings gave up the same samples - as they do when the recorder's samples
/// are held back by the passthrough ring's head start: the `j`th input
/// sample is heard over the loop at the position where it is then stored.
pub proof fn lemma_heard_input_is_stored(
    ready: StackModel,
    heard: RunInput,
    frames: nat,
    gain: u32,
    j: int,
)
    requires
        heard.state == LoopState::Overdubbing,
        heard.recorded == heard.dry,
        ready.take is Overdub,
        ready.take->layer.len() == ready.loop_len,
        ready.loop_len > 0,
        ready.play_pos < ready.loop_len,
        0 <= j < frames,
    ensures
        ({
            let input = padded(heard.dry, frames)[j];
            let before = overdub_run(ready, padded(heard.recorded, frames).take(j));
            let after = overdub_run(ready, padded(heard.recorded, frames).take(j + 1));
            let p = before.play_pos as int;
            &&& run_sample(ready, heard, frames, gain, j) == sat_add(
                input,
                scaled(mix(before, p), gain as int),
            )
            &&& (after.take->layer[p] == input || after.take->layer[p] == sat_add(
                before.take->layer[p],
                input,
            ))
        }),
{
    lemma_overdub_stored_where_heard(ready, heard, frames, gain, j);
}

/// A run whose published state does not play the loop - Idle, Arming or
/// Stopped - puts out the dry signal alone, silence past its end, with no
/// loop in it, and does nothing to the stack beyond the state change and
/// the requests. Coming from a state that was not recording, with nothing
/// requested, it leaves the loop exactly as it was: its layers, its length
/// and its playback position.
pub proof fn lemma_silent_states_play_dry(
    m: StackModel,
    previous: LoopState,
    heard: RunInput,
    frames: nat,
    gain: u32,
    j: int,
)
    requires
        heard.state == LoopState::Idle || heard.state == LoopState::Arming || heard.state
            == LoopState::Stopped,
        0 <= j < frames,
    ensures
        run_sample(settled(m, previous, heard.state, heard.clear, heard.remove), heard, frames, gain, j)
            == padded(heard.dry, frames)[j],
        run_step(m, previous, heard, frames) == settled(
            m,
            previous,
            heard.state,
            heard.clear,
            heard.remove,
        ),
        !is_capturing(previous) && !heard.clear && !heard.remove ==> run_step(
            m,
            previous,
            heard,
            frames,
        ) == m,
{
}

/// A layer removal asked for is carried out by the run that takes the
/// request, whatever state is published: with a loop of several layers and
/// no take open, playing or stopped, the newest layer goes and the rest
/// stay as they were, playback where it was.
pub proof fn lemma_removal_is_carried_out(m: StackModel, heard: RunInput, frames: nat)
    requires
        heard.remove,
        !heard.clear,
        heard.state == LoopState::Looping || heard.state == LoopState::Stopped,
        m.take == OpenTake::Idle,
        m.layers.len() >= 2,
    ensures
        ({
            let after = run_step(m, heard.state, heard, frames);
            &&& after.layers == m.layers.drop_last()
            &&& after.loop_len == m.loop_len
            &&& heard.state == LoopState::Stopped ==> after.play_pos == m.play_pos
        }),
{
}

/// The frames the run numbered `k` of a buffer of `total` frames covers:
/// scratch-sized runs, the last one whatever is left.
pub open spec fn run_frames(total: nat, k: nat) -> nat {
    if total <= k * SCRATCH_CAPACITY {
        0
    } else if total - k * SCRATCH_CAPACITY < SCRATCH_CAPACITY {
        (total - k * SCRATCH_CAPACITY) as nat
    } else {
        SCRATCH_CAPACITY as nat
    }
}

/// The sample frame `f` of a buffer of `total` frames is given on every
/// channel: what its run puts out there, over the stack as the runs before
/// it left it.
pub open spec fn frame_sample(m: StackModel, previous: LoopState, runs: Seq<RunInput>, total: nat, gain: u32, f: int) -> i32 {
    let k = f / (SCRATCH_CAPACITY as int);
    let j = f % (SCRATCH_CAPACITY as int);
    let (before, seen) = replay(m, previous, runs.take(k), total);
    let heard = runs[k];
    run_sample(
        settled(before, seen, heard.state, heard.clear, heard.remove),
        heard,
        run_frames(total, k as nat),
        gain,
        j,
    )
}

/// A buffer of `total` frames of `channels` channels, worked through in
/// `runs` over the stack `m` last seen in `previous`, comes out as `out`
/// and leaves the stack and the state last seen as `after`: one run per
/// scratch-sized stretch, each taking no more from the rings than it
/// covers, and every channel of every frame carrying what its run puts out
/// there.
pub open spec fn renders(
    m: StackModel,
    previous: LoopState,
    gain: u32,
    runs: Seq<RunInput>,
    channels: nat,
    total: nat,
    out: Seq<i32>,
    after: (StackModel, LoopState),
) -> bool {
    &&& runs.len() == run_count(total)
    &&& replay(m, previous, runs, total) == after
    &&& forall|k: int|
        0 <= k < runs.len() ==> #[trigger] runs[k].recorded.len() <= run_frames(total, k as nat)
            && runs[k].dry.len() <= run_frames(total, k as nat)
    &&& forall|f: int, c: int|
        0 <= f < total && 0 <= c < channels ==> #[trigger] out[f * channels + c] == frame_sample(
            m,
            previous,
            runs,
            total,
            gain,
            f,
        )
}

/// The layer stack, and the state last seen, after the runs of a buffer of
/// `total` frames, each with what was heard during it.
pub open spec fn replay(m: StackModel, previous: LoopState, runs: Seq<RunInput>, total: nat) -> (StackModel, LoopState)
    decreases runs.len(),
{
    if runs.len() == 0 {
        (m, previous)
    } else {
        let (before, seen) = replay(m, previous, runs.drop_last(), total);
        (
            run_step(before, seen, runs.last(), run_frames(total, (runs.len() - 1) as nat)),
            runs.last().state,
        )
    }
}

/// The output half: the dry signal, the loop mixed onto it, and the
/// overdub written back. Owns the layer stack outright - it lives here and
/// nowhere else, which is why nothing needs a lock to reach it.
pub struct OutputPath {
    control: Arc<SharedControl>,
    channels: u16,
    dry: Vec<i32>,
    loop_out: Vec<i32>,
    recorded: Vec<i32>,
    passthrough: SampleReceiver,
    recorder: SampleReceiver,
    stack: LoopStack,
    /// The callback only ever sees the published state, never the
    /// transitions, so layer bookkeeping keys off this changing.
    previous_state: LoopState,
    /// Every state and pair of requests read from the relay, one a run, in
    /// order.
    relay_read: Ghost<Seq<(LoopState, bool, bool)>>,
}

/// The state and requests each of `runs` acted on.
pub open spec fn requests_of(runs: Seq<RunInput>) -> Seq<(LoopState, bool, bool)> {
    Seq::new(runs.len(), |k: int| (runs[k].state, runs[k].clear, runs[k].remove))
}

/// The frames a run of a buffer puts out do not change when a later run is
/// added.
proof fn lemma_frame_sample_kept(
    m: StackModel,
    previous: LoopState,
    runs: Seq<RunInput>,
    next: RunInput,
    total: nat,
    gain: u32,
    f: int,
)
    requires
        0 <= f < runs.len() * SCRATCH_CAPACITY,
    ensures
        frame_sample(m, previous, runs.push(next), total, gain, f) == frame_sample(
            m,
            previous,
            runs,
            total,
            gain,
            f,
        ),
{
    let k = f / (SCRATCH_CAPACITY as int);
    assert(0 <= k < runs.len()) by (nonlinear_arith)
        requires
            0 <= f < runs.len() * SCRATCH_CAPACITY,
            k == f / (SCRATCH_CAPACITY as int),
            SCRATCH_CAPACITY == 32768,
    ;
    assert(runs.push(next).take(k) =~= runs.take(k));
}

/// The frames of a run added last are what that run puts out, over the
/// stack the runs before it left.
proof fn lemma_frame_sample_last(
    m: StackModel,
    previous: LoopState,
    runs: Seq<RunInput>,
    next: RunInput,
    total: nat,
    gain: u32,
    j: int,
)
    requires
        0 <= j < SCRATCH_CAPACITY,
    ensures
        ({
            let (before, seen) = replay(m, previous, runs, total);
            frame_sample(m, previous, runs.push(next), total, gain, runs.len() * SCRATCH_CAPACITY + j)
                == run_sample(
                settled(before, seen, next.state, next.clear, next.remove),
                next,
                run_frames(total, runs.len()),
                gain,
                j,
            )
        }),
{
    let f = runs.len() * SCRATCH_CAPACITY + j;
    vstd::arithmetic::div_mod::lemma_fundamental_div_mod_converse(
        f,
        SCRATCH_CAPACITY as int,
        runs.len() as int,
        j,
    );
    assert(runs.push(next).take(runs.len() as int) =~= runs);
}

/// Writing `frames` whole frames from frame `done` on, each with one
/// sample on every channel and nothing else touched, leaves every frame
/// before `done + frames` holding what `now` gives for it on every channel,
/// and everything after as it was at the start.
proof fn lemma_frames_filled(
    before: Seq<i32>,
    after: Seq<i32>,
    ch: int,
    done: int,
    frames: int,
    start: Seq<i32>,
    dry: Seq<i32>,
    was: spec_fn(int) -> i32,
    now: spec_fn(int) -> i32,
)
    requires
        ch > 0,
        0 <= done,
        0 <= frames,
        (done + frames) * ch <= before.len(),
        after.len() == before.len(),
        forall|g: int, c: int| 0 <= g < done && 0 <= c < ch ==> #[trigger] before[g * ch + c] == was(g),
        forall|g: int| 0 <= g < done ==> #[trigger] now(g) == was(g),
        forall|f: int| 0 <= f < frames ==> #[trigger] now(done + f) == dry[f],
        forall|i: int| done * ch <= i < before.len() ==> #[trigger] before[i] == start[i],
        forall|f: int, c: int|
            0 <= f < frames && 0 <= c < ch ==> #[trigger] after[(done + f) * ch + c] == dry[f],
        forall|i: int|
            0 <= i < before.len() && !(done * ch <= i < (done + frames) * ch) ==> #[trigger] after[i]
                == before[i],
    ensures
        forall|g: int, c: int|
            0 <= g < done + frames && 0 <= c < ch ==> #[trigger] after[g * ch + c] == now(g),
        forall|i: int| (done + frames) * ch <= i < after.len() ==> #[trigger] after[i] == start[i],
{
    assert(done * ch <= (done + frames) * ch) by (nonlinear_arith)
        requires
            0 <= frames,
            ch > 0,
    ;
    assert forall|g: int, c: int| 0 <= g < done + frames && 0 <= c < ch implies #[trigger] after[g
        * ch + c] == now(g) by {
        if g < done {
            assert(g * ch + c < done * ch && 0 <= g * ch) by (nonlinear_arith)
                requires
                    0 <= g < done,
                    0 <= c < ch,
            ;
            assert(after[g * ch + c] == before[g * ch + c]);
        } else {
            let f = g - done;
            assert(g * ch == (done + f) * ch);
            assert(after[(done + f) * ch + c] == dry[f]);
            assert(now(done + f) == dry[f]);
        }
    }
    assert forall|i: int| (done + frames) * ch <= i < after.len() implies #[trigger] after[i]
        == start[i] by {
        assert(after[i] == before[i]);
    }
}

/// Puts the dry signal, silence past its end, into `out`: under what
/// `out` already holds where the loop is `playing`, in place of it
/// otherwise.
fn lay_dry(out: &mut [i32], dry: &[i32], playing: bool)
    ensures
        final(out)@.len() == old(out)@.len(),
        forall|j: int|
            0 <= j < old(out)@.len() ==> #[trigger] final(out)@[j] == if playing {
                sat_add(padded(dry@, old(out)@.len())[j], old(out)@[j])
            } else {
                padded(dry@, old(out)@.len())[j]
            },
{
    let n = out.len();
    let mut i: usize = 0;
    while i < n
        invariant
            i <= n,
            n == old(out)@.len(),
            out@.len() == n,
            forall|j: int|
                0 <= j < i ==> #[trigger] out@[j] == if playing {
                    sat_add(padded(dry@, n as nat)[j], old(out)@[j])
                } else {
                    padded(dry@, n as nat)[j]
                },
            forall|j: int| i <= j < n ==> #[trigger] out@[j] == old(out)@[j],
        decreases n - i,
    {
        let d = if i < dry.len() {
            dry[i]
        } else {
            0
        };
        let sample = if playing {
            saturating_add(d, out[i])
        } else {
            d
        };
        out[i] = sample;
        i = i + 1;
    }
}

/// One run of the output half, given what was heard from outside during
/// it: the `state` the UI thread published, whether it asked for a clear
/// and for the newest layer to be dropped, and the samples the passthrough
/// ring (`dry`) and the recorder ring (`recorded`) gave up. The layer
/// stack takes the state change, the requests and the state's work on the
/// loop (`run_step`); `previous` becomes `state`; and `out` is filled with
/// what the run puts out (`run_sample`): the dry signal, silence where the
/// ring fell short, with the loop mixed on while the state plays it.
pub fn play_run(
    stack: &mut LoopStack,
    previous: &mut LoopState,
    control: &SharedControl,
    state: LoopState,
    clear: bool,
    remove: bool,
    dry: &[i32],
    recorded: &[i32],
    out: &mut [i32],
)
    requires
        old(stack).wf(),
    ensures
        final(stack).wf(),
        *final(previous) == state,
        final(out)@.len() == old(out)@.len(),
        ({
            let heard = RunInput { state, clear, remove, recorded: recorded@, dry: dry@ };
            let frames = old(out)@.len();
            &&& final(stack)@ == run_step(old(stack)@, *old(previous), heard, frames)
            &&& forall|j: int|
                0 <= j < frames ==> #[trigger] final(out)@[j] == run_sample(
                    settled(old(stack)@, *old(previous), state, clear, remove),
                    heard,
                    frames,
                    control.gain(),
                    j,
                )
        }),
        // Only Looping and Overdubbing play the loop: in any other state
        // the run puts out the dry signal alone, silence past its end.
        !(state == LoopState::Looping || state == LoopState::Overdubbing) ==> forall|j: int|
            0 <= j < old(out)@.len() ==> #[trigger] final(out)@[j] == padded(dry@, old(out)@.len())[j],
        // Idle, Arming and Stopped do nothing to the loop beyond the state
        // change and the requests: playback stays where it was.
        (state == LoopState::Idle || state == LoopState::Arming || state == LoopState::Stopped)
            ==> final(stack)@ == settled(old(stack)@, *old(previous), state, clear, remove),
{
    let ghost heard = RunInput { state, clear, remove, recorded: recorded@, dry: dry@ };
    let ghost frames = out@.len();
    let ghost start = stack@;
    let ghost seen = *previous;
    if state != *previous {
        apply_state_change(stack, control, *previous, state);
        *previous = state;
    }
    if clear {
        stack.clear();
    }
    if remove {
        stack.remove_last_layer();
    }
    let ghost ready = stack@;
    assert(ready == settled(start, seen, state, clear, remove));
    match state {
        LoopState::Recording => {
            let _ = stack.record_first_layer(recorded);
            lay_dry(out, dry, false);
        },
        LoopState::Looping | LoopState::Overdubbing => {
            let gain = control.volume_pct();
            if state == LoopState::Overdubbing {
                stack.read_mixed_with_overdub(out, recorded, gain);
            } else {
                stack.read_mixed(out, gain);
            }
            assert forall|j: int| 0 <= j < frames implies #[trigger] out@[j] == loop_sample(
                ready,
                heard,
                frames,
                gain,
                j,
            ) by {}
            let ghost played = out@;
            lay_dry(out, dry, true);
            assert forall|j: int| 0 <= j < frames implies #[trigger] out@[j] == run_sample(
                ready,
                heard,
                frames,
                gain,
                j,
            ) by {
                assert(out@[j] == sat_add(padded(dry@, frames)[j], played[j]));
            }
        },
        // Arming captures nothing - the pre-roll is still counting down on
        // the UI thread.
        LoopState::Idle | LoopState::Stopped | LoopState::Arming => {
            lay_dry(out, dry, false);
        },
    }
    assert(run_effect(ready, heard, frames) == stack@);
}

impl OutputPath {
    pub closed spec fn wf(&self) -> bool {
        &&& self.channels > 0
        &&& self.dry@.len() == SCRATCH_CAPACITY
        &&& self.loop_out@.len() == SCRATCH_CAPACITY
        &&& self.recorded@.len() == SCRATCH_CAPACITY
        &&& self.stack.wf()
    }

    /// The layer stack the output plays.
    pub closed spec fn stack_model(&self) -> StackModel {
        self.stack@
    }

    /// How many interleaved channels a frame of output holds.
    pub closed spec fn channel_count(&self) -> nat {
        self.channels as nat
    }

    /// The published state the output half saw last.
    pub closed spec fn last_state(&self) -> LoopState {
        self.previous_state
    }

    /// The loop gain the output plays at, in percent of unity.
    pub closed spec fn gain(&self) -> u32 {
        self.control.gain()
    }

    /// Every state and pair of requests the output half has read from the
    /// relay, one a run, in order.
    pub closed spec fn relay_read(&self) -> Seq<(LoopState, bool, bool)> {
        self.relay_read@
    }

    /// Reads the published state and takes the requests waiting, for one
    /// run, and notes them.
    fn read_relay(&mut self) -> (requests: RunRequests)
        ensures
            final(self).relay_read() == old(self).relay_read().push(requests@),
            final(self).control == old(self).control,
            final(self).channels == old(self).channels,
            final(self).dry == old(self).dry,
            final(self).loop_out == old(self).loop_out,
            final(self).recorded == old(self).recorded,
            final(self).passthrough == old(self).passthrough,
            final(self).recorder == old(self).recorder,
            final(self).stack == old(self).stack,
            final(self).previous_state == old(self).previous_state,
    {
        let requests = self.control.run_requests();
        self.relay_read = Ghost(self.relay_read@.push(requests@));
        requests
    }

    /// Where the loop's playback is.
    pub fn play_pos(&self) -> (pos: usize)
        requires
            self.wf(),
        ensures
            pos == self.stack_model().play_pos,
    {
        self.stack.play_pos()
    }

    /// One playback pass of the loop on its own, as the output mixes it:
    /// every layer, the take in progress over the part already recorded,
    /// at `gain_pct` percent of unity; playback moves on.
    pub fn read_loop(&mut self, out: &mut [i32], gain_pct: u32)
        requires
            old(self).wf(),
        ensures
            final(self).wf(),
            final(self).channel_count() == old(self).channel_count(),
            final(out)@.len() == old(out)@.len(),
            final(self).stack_model() == advanced(old(self).stack_model(), old(out)@.len()),
            forall|i: int|
                0 <= i < old(out)@.len() ==> #[trigger] final(out)@[i] == (if old(self).stack_model().loop_len
                    == 0 {
                    0i32
                } else {
                    scaled(
                        mix(
                            old(self).stack_model(),
                            step_pos(old(self).stack_model().play_pos, i as nat, old(self).stack_model().loop_len) as int,
                        ),
                        gain_pct as int,
                    )
                }),
    {
        self.stack.read_mixed(out, gain_pct);
    }

    /// One run of at most a scratch buffer's worth of frames: what the
    /// rings and the relay hold now is taken in, and `play_run` makes the
    /// run of it, into `dry`.
    fn render_frames(&mut self, frames: usize)
        requires
            old(self).wf(),
            frames <= SCRATCH_CAPACITY,
        ensures
            final(self).wf(),
            final(self).channels == old(self).channels,
            final(self).control == old(self).control,
            exists|heard: RunInput|
                final(self).relay_read() == old(self).relay_read().push(
                    (heard.state, heard.clear, heard.remove),
                ) && heard.recorded.len() <= frames && heard.dry.len() <= frames && #[trigger] run_step(
                    old(self).stack@,
                    old(self).previous_state,
                    heard,
                    frames as nat,
                ) == final(self).stack@ && final(self).previous_state == heard.state && forall|j: int|
                    0 <= j < frames ==> #[trigger] final(self).dry@[j] == run_sample(
                        settled(
                            old(self).stack@,
                            old(self).previous_state,
                            heard.state,
                            heard.clear,
                            heard.remove,
                        ),
                        heard,
                        frames as nat,
                        old(self).gain(),
                        j,
                    ),
    {
        let read = {
            let (dry, _) = self.dry.as_mut_slice().split_at_mut(frames);
            self.passthrough.pop_slice(dry)
        };
        if read < frames {
            // A short read means the input has not filled the ring yet:
            // the input fell behind. What is missing plays as silence.
            self.control.note_input_underrun();
        }
        let requests = self.read_relay();
        let state = requests.state();
        let clear = requests.clear();
        let remove = requests.remove();
        let got = if state.is_capturing() {
            let (recorded, _) = self.recorded.as_mut_slice().split_at_mut(frames);
            self.recorder.pop_slice(recorded)
        } else {
            0
        };
        let ghost heard = RunInput {
            state,
            clear,
            remove,
            recorded: self.recorded@.take(got as int),
            dry: self.dry@.take(read as int),
        };
        {
            let (dry, _) = self.dry.as_slice().split_at(read);
            let (recorded, _) = self.recorded.as_slice().split_at(got);
            let (out, _) = self.loop_out.as_mut_slice().split_at_mut(frames);
            play_run(
                &mut self.stack,
                &mut self.previous_state,
                &self.control,
                state,
                clear,
                remove,
                dry,
                recorded,
                out,
            );
        }
        // The run's output becomes the buffer written out; the old dry
        // samples become the next run's working space.
        std::mem::swap(&mut self.dry, &mut self.loop_out);
        assert(heard.recorded.len() <= frames && heard.dry.len() <= frames);
        assert(run_step(old(self).stack@, old(self).previous_state, heard, frames as nat)
            == self.stack@);
    }

    /// Fills each of the first `frames` whole frames of `data` from frame
    /// `first` on with the matching dry sample on every channel.
    fn write_frames(&self, data: &mut [i32], first: usize, frames: usize)
        requires
            self.wf(),
            frames <= SCRATCH_CAPACITY,
            (first + frames) * self.channels <= old(data)@.len(),
        ensures
            final(data)@.len() == old(data)@.len(),
            forall|f: int, c: int|
                0 <= f < frames && 0 <= c < self.channels ==> #[trigger] final(data)@[(first + f)
                    * self.channels + c] == self.dry@[f],
            forall|i: int|
                0 <= i < old(data)@.len() && !(first * self.channels <= i < (first + frames)
                    * self.channels) ==> #[trigger] final(data)@[i] == old(data)@[i],
    {
        let ch = self.channels as usize;
        let n = data.len();
        assert(first + frames <= data@.len()) by (nonlinear_arith)
            requires
                (first + frames) * ch <= data@.len(),
                ch > 0,
        ;
        let mut f: usize = 0;
        while f < frames
            invariant
                ch == self.channels,
                ch > 0,
                first + frames <= data@.len(),
                f <= frames,
                frames <= SCRATCH_CAPACITY,
                self.dry@.len() == SCRATCH_CAPACITY,
                (first + frames) * ch <= data@.len(),
                data@.len() <= usize::MAX,
                data@.len() == old(data)@.len(),
                forall|g: int, c: int|
                    0 <= g < f && 0 <= c < ch ==> #[trigger] data@[(first + g) * ch + c] == self.dry@[g],
                forall|i: int|
                    0 <= i < data@.len() && !(first * ch <= i < (first + f) * ch) ==> #[trigger] data@[i]
                        == old(data)@[i],
            decreases frames - f,
        {
            let sample = self.dry[f];
            assert((first + f) * ch + ch <= data@.len()) by (nonlinear_arith)
                requires
                    f < frames,
                    (first + frames) * ch <= data@.len(),
            ;
            let row = first + f;
            assert(row * ch + ch <= data@.len());
            let base = row * ch;
            let mut c: usize = 0;
            while c < ch
                invariant
                    ch == self.channels,
                    ch > 0,
                    c <= ch,
                    f < frames,
                    frames <= SCRATCH_CAPACITY,
                    self.dry@.len() == SCRATCH_CAPACITY,
                    sample == self.dry@[f as int],
                    base == (first + f) * ch,
                    base + ch <= data@.len(),
                    data@.len() == old(data)@.len(),
                    forall|g: int, d: int|
                        0 <= g < f && 0 <= d < ch ==> #[trigger] data@[(first + g) * ch + d]
                            == self.dry@[g],
                    forall|d: int| 0 <= d < c ==> #[trigger] data@[base + d] == sample,
                    forall|i: int|
                        0 <= i < data@.len() && !(first * ch <= i < base + c) ==> #[trigger] data@[i]
                            == old(data)@[i],
                decreases ch - c,
            {
                let ghost before = data@;
                data[base + c] = sample;
                proof {
                    assert forall|g: int, d: int| 0 <= g < f && 0 <= d < ch implies #[trigger] data@[(
                    first + g) * ch + d] == self.dry@[g] by {
                        assert((first + g) * ch + d < base) by (nonlinear_arith)
                            requires
                                g < f,
                                d < ch,
                                base == (first + f) * ch,
                        ;
                        assert(data@[(first + g) * ch + d] == before[(first + g) * ch + d]);
                    }
                    assert(first * ch <= base) by (nonlinear_arith)
                        requires
                            base == (first + f) * ch,
                            f >= 0,
                            ch > 0,
                    ;
                }
                c = c + 1;
            }
            proof {
                assert((first + f + 1) * ch == base + ch) by (nonlinear_arith)
                    requires
                        base == (first + f) * ch,
                ;
                assert forall|g: int, d: int| 0 <= g < f + 1 && 0 <= d < ch implies #[trigger] data@[(
                first + g) * ch + d] == self.dry@[g] by {
                    if g == f {
                        assert(data@[base + d] == sample);
                    }
                }
            }
            f = f + 1;
        }
    }

    /// Called with each buffer the driver wants filled: the dry signal,
    /// the loop mixed onto it as the published state says, on every
    /// channel of each whole frame; a trailing part-frame is left as it
    /// was. Applies layer bookkeeping when the state has changed, and a
    /// clear or layer removal when one was asked for, then publishes the
    /// loop's length, position and layer count.
    ///
    /// What the UI thread published and what the passthrough and recorder
    /// rings held are not this half's to know in advance, so the buffer
    /// and the layer stack are stated as what some such sequence of runs
    /// makes of them (`renders`): every frame is its run's dry sample, with
    /// the loop mixed on while the published state plays it, and the stack
    /// changes only as its own rules allow. Each run is `play_run` over
    /// what the relay and the rings gave at the time.
    pub fn process(&mut self, data: &mut [i32])
        requires
            old(self).wf(),
        ensures
            final(self).wf(),
            final(self).channel_count() == old(self).channel_count(),
            final(data)@.len() == old(data)@.len(),
            exists|runs: Seq<RunInput>|
                #[trigger] renders(
                    old(self).stack_model(),
                    old(self).last_state(),
                    old(self).gain(),
                    runs,
                    old(self).channel_count(),
                    old(data)@.len() / old(self).channel_count(),
                    final(data)@,
                    (final(self).stack_model(), final(self).last_state()),
                ) && final(self).relay_read() == old(self).relay_read() + requests_of(runs),
            forall|f: int, c: int|
                0 <= f < old(data)@.len() / old(self).channel_count() && 0 <= c
                    < old(self).channel_count() ==> #[trigger] final(data)@[f
                    * old(self).channel_count() + c] == final(data)@[f * old(self).channel_count()],
            forall|i: int|
                (old(data)@.len() / old(self).channel_count()) * old(self).channel_count() <= i
                    < old(data)@.len() ==> #[trigger] final(data)@[i] == old(data)@[i],
    {
        let ch = self.channels as usize;
        let total = data.len() / ch;
        let mut done: usize = 0;
        let ghost mut runs: Seq<RunInput> = Seq::empty();
        let ghost m0 = self.stack@;
        let ghost p0 = self.previous_state;
        let ghost gain = self.gain();
        assert(old(self).relay_read() + requests_of(runs) =~= old(self).relay_read());
        while done < total
            invariant
                self.wf(),
                ch == self.channels,
                self.channels == old(self).channels,
                self.control == old(self).control,
                gain == old(self).gain(),
                m0 == old(self).stack@,
                p0 == old(self).previous_state,
                done <= total,
                total == old(data)@.len() / (ch as nat),
                data@.len() == old(data)@.len(),
                forall|g: int, c: int|
                    0 <= g < done && 0 <= c < ch ==> #[trigger] data@[g * ch + c] == frame_sample(
                        m0,
                        p0,
                        runs,
                        total as nat,
                        gain,
                        g,
                    ),
                forall|i: int| done * ch <= i < data@.len() ==> #[trigger] data@[i] == old(data)@[i],
                done < total ==> done == runs.len() * SCRATCH_CAPACITY,
                done == total ==> runs.len() == run_count(total as nat),
                replay(m0, p0, runs, total as nat) == (self.stack@, self.previous_state),
                self.relay_read() == old(self).relay_read() + requests_of(runs),
                forall|k: int|
                    0 <= k < runs.len() ==> #[trigger] runs[k].recorded.len() <= run_frames(
                        total as nat,
                        k as nat,
                    ) && runs[k].dry.len() <= run_frames(total as nat, k as nat),
            decreases total - done,
        {
            let frames = if total - done < SCRATCH_CAPACITY {
                total - done
            } else {
                SCRATCH_CAPACITY
            };
            assert((done + frames) * ch <= data@.len()) by (nonlinear_arith)
                requires
                    done + frames <= total,
                    total == data@.len() / (ch as nat),
                    ch > 0,
            ;
            let ghost stack_before = self.stack@;
            let ghost state_before = self.previous_state;
            let ghost log_before = self.relay_read();
            self.render_frames(frames);
            let ghost heard = choose|heard: RunInput|
                self.relay_read() == log_before.push((heard.state, heard.clear, heard.remove))
                    && heard.recorded.len() <= frames && heard.dry.len() <= frames && #[trigger] run_step(
                    stack_before,
                    state_before,
                    heard,
                    frames as nat,
                ) == self.stack@ && self.previous_state == heard.state && forall|j: int|
                    0 <= j < frames ==> #[trigger] self.dry@[j] == run_sample(
                        settled(stack_before, state_before, heard.state, heard.clear, heard.remove),
                        heard,
                        frames as nat,
                        gain,
                        j,
                    );
            let ghost next = runs.push(heard);
            proof {
                assert(requests_of(next) =~= requests_of(runs).push((heard.state, heard.clear, heard.remove)));
                assert(old(self).relay_read() + requests_of(next) =~= (old(self).relay_read()
                    + requests_of(runs)).push((heard.state, heard.clear, heard.remove)));
                assert(run_frames(total as nat, runs.len()) == frames);
                assert(next.drop_last() =~= runs);
                assert forall|g: int| 0 <= g < done implies #[trigger] frame_sample(
                    m0,
                    p0,
                    next,
                    total as nat,
                    gain,
                    g,
                ) == frame_sample(m0, p0, runs, total as nat, gain, g) by {
                    lemma_frame_sample_kept(m0, p0, runs, heard, total as nat, gain, g);
                }
                assert forall|f: int| 0 <= f < frames implies #[trigger] frame_sample(
                    m0,
                    p0,
                    next,
                    total as nat,
                    gain,
                    done + f,
                ) == self.dry@[f] by {
                    lemma_frame_sample_last(m0, p0, runs, heard, total as nat, gain, f);
                }
                if done + frames == total {
                    lemma_last_run(total as int, runs.len() as int);
                }
            }
            let ghost before = data@;
            self.write_frames(data, done, frames);
            proof {
                lemma_frames_filled(
                    before,
                    data@,
                    ch as int,
                    done as int,
                    frames as int,
                    old(data)@,
                    self.dry@,
                    |g: int| frame_sample(m0, p0, runs, total as nat, gain, g),
                    |g: int| frame_sample(m0, p0, next, total as nat, gain, g),
                );
                runs = next;
            }
            done = done + frames;
        }
        let len = self.stack.recorded_len();
        let pos = self.stack.play_pos();
        let layers = self.stack.layer_count();
        self.control.publish_telemetry(len, pos, layers);
        proof {
            if total == 0 {
                assert(run_count(0) == 0) by (nonlinear_arith)
                    requires
                        SCRATCH_CAPACITY == 32768,
                ;
            }
            assert(renders(
                old(self).stack_model(),
                old(self).last_state(),
                old(self).gain(),
                runs,
                old(self).channel_count(),
                old(data)@.len() / old(self).channel_count(),
                data@,
                (self.stack_model(), self.last_state()),
            ));
            assert forall|f: int, c: int|
                0 <= f < total && 0 <= c < ch implies #[trigger] data@[f * ch + c] == data@[f * ch] by {
                assert(data@[f * ch + 0] == frame_sample(m0, p0, runs, total as nat, gain, f));
            }
        }
    }
}

/// Both halves, built as one piece because that is where the recorded
/// signal's alignment against the monitored one is decided.
pub struct AudioPath {
    pub input: InputPath,
    pub output: OutputPath,
}

/// The stack once each of `layers` has been offered to it in turn, as
/// `LoopStack::add_layer` takes them.
pub open spec fn with_layers(m: StackModel, layers: Seq<Seq<i32>>) -> StackModel
    decreases layers.len(),
{
    if layers.len() == 0 {
        m
    } else {
        let before = with_layers(m, layers.drop_last());
        let l = layers.last();
        if before.take == OpenTake::Idle && before.layers.len() < before.max_layers && l.len() > 0
            && l.len() <= before.capacity && (before.loop_len == 0 || l.len() == before.loop_len) {
            StackModel { loop_len: l.len(), play_pos: 0, layers: before.layers.push(l), ..before }
        } else {
            before
        }
    }
}

/// The headroom between the callbacks, in frames: just enough to absorb
/// timing jitter, not a deliberate monitoring delay.
pub open spec fn latency_frames(latency_ms: u32, sample_rate: u32) -> int {
    (latency_ms as int * sample_rate as int) / 1000
}

/// Builds the audio path for `settings` at the device's `sample_rate` and
/// `channels`, and the receiving end of the ring the UI thread's copy of
/// the loop reads captured samples from.
///
/// The passthrough ring starts with `latency_frames` of silence, so the
/// output has something to play while the input catches up; the ring to
/// the layer stack starts empty. The stack holds `max_loop_secs` of audio
/// per layer and `max_layers` layers, seeded with `restored` - a loop
/// saved earlier, already held to these settings by `loop_mirror::load`.
pub fn build_audio_path(
    control: &Arc<SharedControl>,
    settings: &AppConfig,
    sample_rate: u32,
    input_channels: u16,
    output_channels: u16,
    restored: &Vec<Vec<i32>>,
) -> (built: (AudioPath, SampleReceiver))
    requires
        input_channels > 0,
        output_channels > 0,
        settings.input_channel < input_channels,
        latency_frames(settings.latency_ms, sample_rate) + SCRATCH_CAPACITY <= usize::MAX,
        sample_rate > 0,
        CAPTURE_BUFFER_SECONDS * sample_rate <= usize::MAX,
        settings.max_loop_secs * sample_rate <= usize::MAX,
    ensures
        built.0.input.wf(),
        built.0.output.wf(),
        built.0.input.channel_count() == input_channels,
        built.0.input.captured_channel() == settings.input_channel,
        built.0.input.delay_held() == Seq::new(
            latency_frames(settings.latency_ms, sample_rate) as nat,
            |k: int| 0i32,
        ),
        built.0.input.passthrough_offered() == Seq::new(
            latency_frames(settings.latency_ms, sample_rate) as nat,
            |k: int| 0i32,
        ),
        built.0.input.monitor_aligned(),
        built.0.input.recorder_offered() == Seq::<i32>::empty(),
        built.0.input.capture_offered() == Seq::<i32>::empty(),
        built.0.output.channel_count() == output_channels,
        built.0.output.stack_model() == with_layers(
            StackModel {
                capacity: (settings.max_loop_secs * sample_rate) as nat,
                max_layers: if settings.max_layers == 0 {
                    1
                } else {
                    settings.max_layers as nat
                },
                loop_len: 0,
                play_pos: 0,
                layers: Seq::empty(),
                take: OpenTake::Idle,
            },
            restored@.map_values(|l: Vec<i32>| l@),
        ),
{
    let latency_ms = settings.latency_ms as u64;
    let rate = sample_rate as u64;
    assert(latency_ms * rate <= u64::MAX) by (nonlinear_arith)
        requires
            latency_ms <= u32::MAX,
            rate <= u32::MAX,
    ;
    let wide = latency_ms * rate;
    let latency = (wide / 1000) as usize;
    // Room for the delay and a whole callback on top of it: the delay is
    // the backlog these rings carry at rest, so a push has to fit above
    // it or it spills. The prefill, not the capacity, sets the delay.
    let ring_capacity = latency + SCRATCH_CAPACITY;
    let (mut passthrough_tx, passthrough_rx) = sample_ring(ring_capacity);
    let mut k: usize = 0;
    assert(passthrough_tx.offered() =~= Seq::new(0, |j: int| 0i32));
    while k < latency
        invariant
            k <= latency,
            passthrough_tx.offered() == Seq::new(k as nat, |j: int| 0i32),
        decreases latency - k,
    {
        let _ = passthrough_tx.try_push(0);
        assert(passthrough_tx.offered() =~= Seq::new((k + 1) as nat, |j: int| 0i32));
        k = k + 1;
    }
    let (recorder_tx, recorder_rx) = sample_ring(ring_capacity);
    let (capture_tx, capture_rx) = sample_ring(CAPTURE_BUFFER_SECONDS * sample_rate as usize);
    let capacity = settings.max_loop_secs as usize * sample_rate as usize;
    let mut stack = LoopStack::new(capacity, settings.max_layers as usize);
    let ghost start = stack@;
    assert(start.layers =~= Seq::<Seq<i32>>::empty());
    let ghost all = restored@.map_values(|l: Vec<i32>| l@);
    let mut i: usize = 0;
    while i < restored.len()
        invariant
            i <= restored@.len(),
            stack.wf(),
            all == restored@.map_values(|l: Vec<i32>| l@),
            stack@ == with_layers(start, all.take(i as int)),
        decreases restored@.len() - i,
    {
        proof {
            assert(all.take(i + 1).drop_last() =~= all.take(i as int));
        }
        let _ = stack.add_layer(restored[i].as_slice());
        i = i + 1;
    }
    assert(all.take(restored@.len() as int) =~= all);
    let path = AudioPath {
        input: InputPath {
            control: control.clone(),
            channels: input_channels,
            input_channel: settings.input_channel,
            scratch: vec![0i32; SCRATCH_CAPACITY],
            delay: MonitorDelay::new(latency),
            passthrough: passthrough_tx,
            recorder: recorder_tx,
            capture: capture_tx,
            states_read: Ghost(Seq::empty()),
        },
        output: OutputPath {
            control: control.clone(),
            channels: output_channels,
            dry: vec![0i32; SCRATCH_CAPACITY],
            loop_out: vec![0i32; SCRATCH_CAPACITY],
            recorded: vec![0i32; SCRATCH_CAPACITY],
            passthrough: passthrough_rx,
            recorder: recorder_rx,
            stack,
            previous_state: LoopState::Idle,
            relay_read: Ghost(Seq::empty()),
        },
    };
    assert(path.input.passthrough_offered().skip(0) =~= path.input.passthrough_offered());
    (path, capture_rx)
}


// ---------------------------------------------------------------------
// Choosing a stream configuration
// ---------------------------------------------------------------------

/// The rates offered in settings, filtered to what the chosen device
/// supports. A probe list, not a choice.
pub open spec fn candidate_rates() -> Seq<u32> {
    seq![44_100u32, 48_000u32, 88_200u32, 96_000u32, 192_000u32]
}

pub fn candidate_sample_rates() -> (rates: Vec<u32>)
    ensures
        rates@ == candidate_rates(),
{
    vec![44_100, 48_000, 88_200, 96_000, 192_000]
}

/// A device's default configuration in one direction, as the driver
/// reports it: its sample format by name, and its channel count.
pub struct DefaultConfig {
    pub format: String,
    pub channels: u16,
}

/// One range of configurations a device supports for output: a sample
/// format by name, a channel count, and the rates it runs at.
pub struct ConfigRange {
    pub format: String,
    pub channels: u16,
    pub min_rate: u32,
    pub max_rate: u32,
}

/// The name the driver gives 32-bit integer samples, the format this
/// project is built around.
pub open spec fn i32_format() -> Seq<char> {
    "I32"@
}

/// Whether `r` runs 32-bit integer samples at `rate`.
pub open spec fn offers_rate(r: ConfigRange, rate: u32) -> bool {
    r.format@ == i32_format() && r.min_rate <= rate <= r.max_rate
}

/// Whether `r` runs 32-bit integer samples on `channels` channels at
/// `rate`.
pub open spec fn matches_request(r: ConfigRange, channels: u16, rate: u32) -> bool {
    offers_rate(r, rate) && r.channels == channels
}

/// The candidates some range runs in 32-bit integer samples, in order.
pub open spec fn rates_offered(candidates: Seq<u32>, ranges: Seq<ConfigRange>) -> Seq<u32>
    decreases candidates.len(),
{
    if candidates.len() == 0 {
        Seq::empty()
    } else {
        let rest = rates_offered(candidates.drop_last(), ranges);
        if exists|i: int| 0 <= i < ranges.len() && offers_rate(#[trigger] ranges[i], candidates.last()) {
            rest.push(candidates.last())
        } else {
            rest
        }
    }
}

fn is_i32_format(format: &String) -> (is: bool)
    ensures
        is == (format@ == i32_format()),
{
    let name = chars_of(format.as_str());
    let expected = chars_of("I32");
    if name.len() != expected.len() {
        return false;
    }
    let mut i: usize = 0;
    while i < name.len()
        invariant
            i <= name@.len(),
            name@.len() == expected@.len(),
            name@ == format@,
            expected@ == i32_format(),
            forall|j: int| 0 <= j < i ==> name@[j] == expected@[j],
        decreases name@.len() - i,
    {
        if name[i] != expected[i] {
            assert(name@[i as int] != expected@[i as int]);
            return false;
        }
        i = i + 1;
    }
    assert(name@ =~= expected@);
    true
}

fn offers(r: &ConfigRange, rate: u32) -> (yes: bool)
    ensures
        yes == offers_rate(*r, rate),
{
    is_i32_format(&r.format) && r.min_rate <= rate && rate <= r.max_rate
}

/// The candidates `ranges` can run in 32-bit integer samples, in order.
pub fn supported_sample_rates(candidates: &Vec<u32>, ranges: &Vec<ConfigRange>) -> (rates: Vec<u32>)
    ensures
        rates@ == rates_offered(candidates@, ranges@),
{
    let mut rates: Vec<u32> = Vec::new();
    let mut i: usize = 0;
    while i < candidates.len()
        invariant
            i <= candidates@.len(),
            rates@ == rates_offered(candidates@.take(i as int), ranges@),
        decreases candidates@.len() - i,
    {
        let rate = candidates[i];
        proof {
            assert(candidates@.take(i + 1).drop_last() =~= candidates@.take(i as int));
            assert(candidates@.take(i + 1).last() == rate);
        }
        let mut j: usize = 0;
        let mut found = false;
        while j < ranges.len() && !found
            invariant
                j <= ranges@.len(),
                found ==> exists|k: int| 0 <= k < ranges@.len() && offers_rate(#[trigger] ranges@[k], rate),
                !found ==> forall|k: int| 0 <= k < j ==> !offers_rate(#[trigger] ranges@[k], rate),
            decreases ranges@.len() - j,
        {
            if offers(&ranges[j], rate) {
                found = true;
            }
            j = j + 1;
        }
        if found {
            rates.push(rate);
        }
        i = i + 1;
    }
    assert(candidates@.take(candidates@.len() as int) =~= candidates@);
    rates
}

/// Why no stream could be opened on a device.
pub enum NegotiationError {
    /// Input and output default to different sample formats.
    FormatMismatch,
    /// The device's format is not 32-bit integer samples.
    UnsupportedFormat(String),
    /// No output range runs the device's full channel count at the rate.
    RateUnsupported(u32),
    /// The chosen input channel is not one the device has.
    ChannelOutOfRange { channel: u16, channels: u16 },
}

/// The first range that runs 32-bit integer samples on `channels` channels
/// at `rate`, if any.
pub open spec fn first_match(ranges: Seq<ConfigRange>, channels: u16, rate: u32) -> Option<int> {
    if exists|i: int| 0 <= i < ranges.len() && matches_request(#[trigger] ranges[i], channels, rate) {
        Some(
            choose|i: int|
                0 <= i < ranges.len() && matches_request(#[trigger] ranges[i], channels, rate)
                    && forall|j: int| 0 <= j < i ==> !matches_request(#[trigger] ranges[j], channels, rate),
        )
    } else {
        None
    }
}

/// Picks the output range to open the device with at `rate`: input and
/// output have to share a format, that format has to be 32-bit integer
/// samples, and the range has to carry the device's full input channel
/// count - ranges are listed separately per channel count, so the full
/// count is matched explicitly rather than opening whichever comes first.
/// The answer is the index of the first such range.
pub fn negotiate(input: &DefaultConfig, output: &DefaultConfig, ranges: &Vec<ConfigRange>, rate: u32) -> (chosen: Result<usize, NegotiationError>)
    ensures
        input.format@ != output.format@ ==> chosen matches Err(NegotiationError::FormatMismatch),
        input.format@ == output.format@ && input.format@ != i32_format() ==> (chosen matches Err(
            NegotiationError::UnsupportedFormat(f),
        ) && f@ == input.format@),
        input.format@ == output.format@ && input.format@ == i32_format() ==> match first_match(
            ranges@,
            input.channels,
            rate,
        ) {
            Some(i) => chosen == Ok::<usize, NegotiationError>(i as usize),
            None => (chosen matches Err(NegotiationError::RateUnsupported(r)) && r == rate),
        },
{
    if input.format != output.format {
        return Err(NegotiationError::FormatMismatch);
    }
    if !is_i32_format(&input.format) {
        return Err(NegotiationError::UnsupportedFormat(input.format.clone()));
    }
    let mut i: usize = 0;
    while i < ranges.len()
        invariant
            i <= ranges@.len(),
            input.format@ == output.format@,
            input.format@ == i32_format(),
            forall|j: int| 0 <= j < i ==> !matches_request(#[trigger] ranges@[j], input.channels, rate),
        decreases ranges@.len() - i,
    {
        if offers(&ranges[i], rate) && ranges[i].channels == input.channels {
            proof {
                let k = choose|k: int|
                    0 <= k < ranges@.len() && matches_request(#[trigger] ranges@[k], input.channels, rate)
                        && forall|j: int| 0 <= j < k ==> !matches_request(#[trigger] ranges@[j], input.channels, rate);
                assert(matches_request(ranges@[i as int], input.channels, rate));
                if k < i {
                    assert(!matches_request(ranges@[k], input.channels, rate));
                } else if k > i {
                    assert(!matches_request(ranges@[i as int], input.channels, rate));
                }
            }
            return Ok(i);
        }
        i = i + 1;
    }
    Err(NegotiationError::RateUnsupported(rate))
}

/// Checks the chosen input channel against how many the device has.
pub fn check_input_channel(channel: u16, channels: u16) -> (checked: Result<(), NegotiationError>)
    ensures
        channel < channels ==> checked is Ok,
        channel >= channels ==> (checked matches Err(
            NegotiationError::ChannelOutOfRange { channel: c, channels: n },
        ) && c == channel && n == channels),
{
    if channel >= channels {
        Err(NegotiationError::ChannelOutOfRange { channel, channels })
    } else {
        Ok(())
    }
}

impl NegotiationError {
    /// What to tell the user, naming the device where it matters.
    /// Channels are numbered from one, the way the settings list them.
    pub fn message(&self, device_name: &str) -> (text: String)
        ensures
            text@ == match self {
                NegotiationError::FormatMismatch => "input and output must share a sample format"@,
                NegotiationError::UnsupportedFormat(f) => "unsupported sample format "@ + f@
                    + " (expected i32)"@,
                NegotiationError::RateUnsupported(r) => decimal(*r as nat) + " Hz is not supported by '"@
                    + device_name@ + "'"@,
                NegotiationError::ChannelOutOfRange { channel, channels } => "input channel "@ + decimal(
                    *channel as nat + 1,
                ) + " is out of range (device has "@ + decimal(*channels as nat) + " channel(s))"@,
            },
    {
        let mut text = String::new();
        match self {
            NegotiationError::FormatMismatch => {
                text.append("input and output must share a sample format");
            },
            NegotiationError::UnsupportedFormat(f) => {
                text.append("unsupported sample format ");
                text.append(f.as_str());
                text.append(" (expected i32)");
            },
            NegotiationError::RateUnsupported(r) => {
                push_decimal(&mut text, *r);
                text.append(" Hz is not supported by '");
                text.append(device_name);
                text.append("'");
            },
            NegotiationError::ChannelOutOfRange { channel, channels } => {
                text.append("input channel ");
                push_decimal(&mut text, *channel as u32 + 1);
                text.append(" is out of range (device has ");
                push_decimal(&mut text, *channels as u32);
                text.append(" channel(s))");
            },
        }
        proof {
            assert(Seq::<char>::empty() + "input and output must share a sample format"@ =~= "input and output must share a sample format"@);
        }
        text
    }
}


// ---------------------------------------------------------------------
// Laws
// ---------------------------------------------------------------------

/// The recording delay is seamless across callbacks: two buffers through
/// it give what the one buffer holding both would, and leave the line in
/// the same state.
pub proof fn lemma_delay_is_seamless(held: Seq<i32>, a: Seq<i32>, b: Seq<i32>)
    ensures
        (held + a).take(a.len() as int) + ((held + a).skip(a.len() as int) + b).take(b.len() as int)
            == (held + (a + b)).take((a.len() + b.len()) as int),
        ((held + a).skip(a.len() as int) + b).skip(b.len() as int) == (held + (a + b)).skip(
            (a.len() + b.len()) as int,
        ),
{
    assert((held + a).take(a.len() as int) + ((held + a).skip(a.len() as int) + b).take(
        b.len() as int,
    ) =~= (held + (a + b)).take((a.len() + b.len()) as int));
    assert(((held + a).skip(a.len() as int) + b).skip(b.len() as int) =~= (held + (a + b)).skip(
        (a.len() + b.len()) as int,
    ));
}

/// Dropping the newest layer undoes the overdub that made it: an overdub
/// with something in it, closed and then removed, leaves the layers as
/// they were before it.
pub proof fn lemma_removing_undoes_an_overdub(m: StackModel)
    requires
        m.take matches OpenTake::Overdub { written, .. } && written > 0,
        m.layers.len() >= 1,
    ensures
        without_newest(after_leaving(m, LoopState::Overdubbing)) == (StackModel {
            take: OpenTake::Idle,
            ..m
        }),
{
    let closed = after_leaving(m, LoopState::Overdubbing);
    assert(closed.layers.drop_last() =~= m.layers);
}

} // verus!
