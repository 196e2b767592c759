// The UI thread's own copy of the recorded loop, kept so it can be saved:
// the layer stack itself lives inside the audio callback, where nothing may
// reach in and read it.

use vstd::prelude::*;
use vstd::string::StringExecFns;
use crate::audio::loop_stack::{
    lay_out, lemma_lay_out_len, lemma_lay_out_places, lemma_overdub_lays_out_take, overdub_run, sat_add, saturating_add,
    silence, OpenTake, StackModel,
};
use crate::audio::engine::CAPTURE_BUFFER_SECONDS;
use crate::audio::ring::SampleReceiver;
use crate::config::{AppConfig, ConfigModel};
use crate::state_machine::{is_capturing, LoopState};
use crate::wav::{decode, decode_spec, encode, lemma_wav_round_trip, wav_bytes};

verus! {

/// More layers than any setting allows, so a stale file from a bigger
/// setting still gets found and cleaned up.
pub const MAX_SAVED_LAYERS: usize = 16;

/// The size of one drained chunk.
pub const DRAIN_CHUNK: usize = 4096;

/// One recorded take: where in the loop it began, and what was played.
/// Saved layers come back in this shape too, laid out from position zero.
struct Take {
    start: usize,
    samples: Vec<i32>,
}

/// Captured samples arrive through a ring - the same lock-free audio -> UI
/// direction the telemetry uses - and takes are kept as played, laid out
/// into layers only when saving. So this costs about what was actually
/// recorded rather than a second full-size stack.
pub struct LoopMirror {
    captured: SampleReceiver,
    previous_state: LoopState,
    open_take: Option<Vec<i32>>,
    finished: Vec<Take>,
    /// Taken from the audio thread's telemetry rather than from how many
    /// samples arrived here, a frame after a take ends - see `tick`.
    loop_len: usize,
    sample_rate: u32,
    save_pending: bool,
    /// Set if the capture ring overflowed while a take was open: the takes
    /// held here no longer match what is playing, so they must not be
    /// written over a good save. Cleared once the takes it applies to are
    /// gone.
    lost_samples: bool,
}

/// The mirror as values: each finished take is its start and samples.
pub struct MirrorModel {
    pub previous_state: LoopState,
    pub open_take: Option<Seq<i32>>,
    pub finished: Seq<(int, Seq<i32>)>,
    pub loop_len: nat,
    pub sample_rate: u32,
    pub save_pending: bool,
    pub lost_samples: bool,
}

impl View for LoopMirror {
    type V = MirrorModel;

    closed spec fn view(&self) -> MirrorModel {
        MirrorModel {
            previous_state: self.previous_state,
            open_take: match self.open_take {
                Some(t) => Some(t@),
                None => None,
            },
            finished: self.finished@.map_values(|t: Take| (t.start as int, t.samples@)),
            loop_len: self.loop_len as nat,
            sample_rate: self.sample_rate,
            save_pending: self.save_pending,
            lost_samples: self.lost_samples,
        }
    }
}

/// `arrived` appended to the open take; dropped if no take is open, since
/// such samples belong to one that has already finished.
pub open spec fn received(m: MirrorModel, arrived: Seq<i32>) -> MirrorModel {
    MirrorModel {
        open_take: match m.open_take {
            Some(t) => Some(t + arrived),
            None => None,
        },
        ..m
    }
}

/// One frame of the mirror, after what arrived has been received: the
/// mirror that follows, and whether the loop on disk is now out of date.
///
/// The audio thread settles the loop length a callback or two after the
/// state change that ended a take, so a pending save waits for a non-zero
/// length. Starting to capture opens a take - a first take also drops the
/// whole old loop; stopping closes it, an overdub keeping where it began.
/// A first take that caught nothing leaves no loop at all, which makes the
/// saved copy stale at once.
pub open spec fn after_tick(m: MirrorModel, state: LoopState, loop_len: nat, take_start: nat) -> (
    MirrorModel,
    bool,
) {
    let settled = m.save_pending && loop_len > 0;
    let m1 = if m.save_pending {
        MirrorModel { loop_len, save_pending: loop_len == 0, ..m }
    } else {
        m
    };
    let capturing = is_capturing(state);
    let was_capturing = is_capturing(m.previous_state);
    if capturing && !was_capturing {
        if state == LoopState::Recording {
            (
                MirrorModel {
                    previous_state: state,
                    open_take: Some(Seq::empty()),
                    finished: Seq::empty(),
                    loop_len: 0,
                    lost_samples: false,
                    ..m1
                },
                settled,
            )
        } else {
            (MirrorModel { previous_state: state, open_take: Some(Seq::empty()), ..m1 }, settled)
        }
    } else if was_capturing && !capturing {
        let take = match m1.open_take {
            Some(t) => t,
            None => Seq::empty(),
        };
        if take.len() > 0 {
            let start = if m.previous_state == LoopState::Overdubbing {
                take_start as int
            } else {
                0
            };
            (
                MirrorModel {
                    previous_state: state,
                    open_take: None,
                    finished: m1.finished.push((start, take)),
                    save_pending: true,
                    ..m1
                },
                settled,
            )
        } else {
            (
                MirrorModel { previous_state: state, open_take: None, ..m1 },
                settled || m.previous_state == LoopState::Recording,
            )
        }
    } else {
        (MirrorModel { previous_state: state, ..m1 }, settled)
    }
}

/// A take laid out over a loop of `len` samples; nothing while there is no
/// loop length yet.
pub open spec fn laid_out(start: int, take: Seq<i32>, len: nat) -> Seq<i32> {
    if len == 0 {
        Seq::empty()
    } else {
        lay_out(start, take, len)
    }
}

/// Every finished take laid out as a layer, in order.
pub open spec fn mirror_layers(m: MirrorModel) -> Seq<Seq<i32>> {
    m.finished.map_values(|t: (int, Seq<i32>)| laid_out(t.0, t.1, m.loop_len))
}

/// Whether every layer's WAV can record its size and rate in the format's
/// 32-bit fields.
pub open spec fn fits_wav(m: MirrorModel) -> bool {
    m.loop_len * 4 + 36 <= u32::MAX && m.sample_rate * 4 <= u32::MAX
}

/// The files a save writes, one WAV per layer in order; `None` while
/// samples are known to be missing, or when a layer cannot be written as
/// a WAV.
pub open spec fn saved_files(m: MirrorModel) -> Option<Seq<Seq<u8>>> {
    if m.lost_samples || !fits_wav(m) {
        None
    } else {
        Some(mirror_layers(m).map_values(|layer: Seq<i32>| wav_bytes(layer, m.sample_rate)))
    }
}

/// The leading files that decode, at most `limit` of them: reading stops
/// at the first one that is missing or unreadable.
pub open spec fn readable(files: Seq<Seq<u8>>, limit: nat) -> Seq<(Seq<i32>, u32)>
    decreases files.len(),
{
    if limit == 0 || files.len() == 0 {
        Seq::empty()
    } else {
        match decode_spec(files[0]) {
            Some(d) => seq![d] + readable(files.drop_first(), (limit - 1) as nat),
            None => Seq::empty(),
        }
    }
}

/// Whether every layer found was recorded at `rate`, holds samples, and
/// is as long as the first.
pub open spec fn consistent(found: Seq<(Seq<i32>, u32)>, rate: u32) -> bool {
    forall|i: int|
        0 <= i < found.len() ==> #[trigger] found[i].1 == rate && found[i].0.len() > 0
            && found[i].0.len() == found[0].0.len()
}

/// The layers of a saved loop, in order, or nothing if there is none or it
/// no longer fits `settings`: a loop recorded at another rate, whose files
/// disagree on a length, or longer than `max_loop_secs` now allows is
/// dropped whole; layers past `max_layers` are dropped on their own.
pub open spec fn saved_loop(files: Seq<Seq<u8>>, settings: ConfigModel) -> Seq<Seq<i32>> {
    let found = readable(files, MAX_SAVED_LAYERS as nat);
    let capacity = settings.max_loop_secs * settings.sample_rate;
    if found.len() == 0 || !consistent(found, settings.sample_rate) || found[0].0.len()
        > capacity {
        Seq::empty()
    } else {
        let kept = if found.len() > settings.max_layers {
            found.take(settings.max_layers as int)
        } else {
            found
        };
        kept.map_values(|d: (Seq<i32>, u32)| d.0)
    }
}

fn layer_of(start: usize, samples: &Vec<i32>, len: usize) -> (layer: Vec<i32>)
    ensures
        layer@ == laid_out(start as int, samples@, len as nat),
{
    if len == 0 {
        return Vec::new();
    }
    let mut layer: Vec<i32> = vec![0i32; len];
    let mut at = start % len;
    let n = samples.len();
    let mut i: usize = 0;
    proof {
        assert(samples@.take(0) =~= Seq::<i32>::empty());
        assert(layer@ =~= lay_out(start as int, samples@.take(0), len as nat));
    }
    while i < n
        invariant
            n == samples@.len(),
            len > 0,
            i <= n,
            at == (start as int + i) % (len as int),
            layer@ == lay_out(start as int, samples@.take(i as int), len as nat),
            layer@.len() == len,
        decreases n - i,
    {
        let ghost before = layer@;
        let sample = samples[i];
        proof {
            assert(samples@.take(i + 1).drop_last() =~= samples@.take(i as int));
            assert(samples@.take(i + 1).last() == sample);
        }
        if i < len {
            layer.set(at, sample);
        } else {
            let mixed = saturating_add(layer[at], sample);
            assert(mixed == sat_add(before[at as int], sample));
            layer.set(at, mixed);
        }
        proof {
            lemma_lay_out_len(start as int, samples@.take(i + 1), len as nat);
            assert(layer@ =~= lay_out(start as int, samples@.take(i + 1), len as nat));
        }
        if at + 1 == len {
            at = 0;
        } else {
            at = at + 1;
        }
        proof {
            vstd::arithmetic::div_mod::lemma_add_mod_noop(start as int + i, 1, len as int);
            if len == 1 {
                assert((start as int + i + 1) % 1 == 0);
            } else {
                vstd::arithmetic::div_mod::lemma_small_mod(1, len as nat);
            }
            if at == 0 {
                vstd::arithmetic::div_mod::lemma_mod_self_0(len as int);
            } else {
                vstd::arithmetic::div_mod::lemma_small_mod(at as nat, len as nat);
            }
        }
        i = i + 1;
    }
    assert(samples@.take(n as int) =~= samples@);
    layer
}

impl LoopMirror {
    /// A mirror over the samples `captured` delivers, seeded with a loop
    /// restored from disk: each restored layer is a take from the top, and
    /// the first one's length is the loop's.
    pub fn new(captured: SampleReceiver, sample_rate: u32, restored: Vec<Vec<i32>>) -> (mirror: LoopMirror)
        ensures
            mirror@ == (MirrorModel {
                previous_state: LoopState::Idle,
                open_take: None,
                finished: restored@.map_values(|l: Vec<i32>| (0int, l@)),
                loop_len: if restored@.len() > 0 {
                    restored@[0]@.len()
                } else {
                    0
                },
                sample_rate,
                save_pending: false,
                lost_samples: false,
            }),
    {
        let loop_len = if restored.len() > 0 {
            restored[0].len()
        } else {
            0
        };
        let mut finished: Vec<Take> = Vec::new();
        let mut rest = restored;
        let ghost all = rest@;
        let mut taken: Vec<Vec<i32>> = Vec::new();
        // Moved out from the back and put back in order below, so each
        // layer is moved rather than copied.
        while rest.len() > 0
            invariant
                taken@.len() + rest@.len() == all.len(),
                rest@ == all.take(rest@.len() as int),
                forall|k: int| 0 <= k < taken@.len() ==> #[trigger] taken@[k] == all[all.len() - 1 - k],
            decreases rest@.len(),
        {
            let layer = rest.pop().unwrap();
            taken.push(layer);
            assert(rest@ =~= all.take(rest@.len() as int));
        }
        while taken.len() > 0
            invariant
                finished@.len() + taken@.len() == all.len(),
                forall|k: int| 0 <= k < taken@.len() ==> #[trigger] taken@[k] == all[all.len() - 1 - k],
                forall|k: int|
                    0 <= k < finished@.len() ==> #[trigger] finished@[k].start == 0
                        && finished@[k].samples@ == all[k]@,
            decreases taken@.len(),
        {
            let samples = taken.pop().unwrap();
            finished.push(Take { start: 0, samples });
        }
        let mirror = LoopMirror {
            captured,
            previous_state: LoopState::Idle,
            open_take: None,
            finished,
            loop_len,
            sample_rate,
            save_pending: false,
            lost_samples: false,
        };
        assert(mirror@.finished =~= all.map_values(|l: Vec<i32>| (0int, l@)));
        mirror
    }

    /// Samples went missing on the way here, so what is mirrored is no
    /// longer what is playing.
    pub fn note_lost_samples(&mut self)
        ensures
            final(self)@ == (MirrorModel { lost_samples: true, ..old(self)@ }),
    {
        self.lost_samples = true;
    }

    /// Takes in one chunk of captured samples: appended to the open take,
    /// or dropped if no take is open.
    pub fn receive(&mut self, chunk: &[i32])
        ensures
            final(self)@ == received(old(self)@, chunk@),
    {
        match &mut self.open_take {
            Some(take) => {
                let ghost start = take@;
                let mut k: usize = 0;
                while k < chunk.len()
                    invariant
                        k <= chunk@.len(),
                        take@ == start + chunk@.take(k as int),
                    decreases chunk@.len() - k,
                {
                    take.push(chunk[k]);
                    assert(take@ =~= start + chunk@.take(k + 1));
                    k = k + 1;
                }
                assert(chunk@.take(chunk@.len() as int) =~= chunk@);
            },
            None => {},
        }
    }

    /// Moves what has arrived into the open take, or drops it if none is
    /// open. Drains as many chunks as it takes to empty the capture ring
    /// of all it can hold; anything arriving meanwhile past that waits.
    fn drain(&mut self)
        ensures
            exists|arrived: Seq<i32>| final(self)@ == received(old(self)@, arrived),
    {
        let mut scratch: Vec<i32> = vec![0i32; DRAIN_CHUNK];
        let ghost mut arrived: Seq<i32> = Seq::empty();
        assert(old(self)@ == received(old(self)@, arrived)) by {
            match old(self)@.open_take {
                Some(t) => {
                    assert(t + Seq::<i32>::empty() =~= t);
                },
                None => {},
            }
        }
        // The capture ring never holds more than it was made for, so once
        // more than that has been taken everything it held on entry is
        // out; stopping there keeps a fast producer from holding the frame.
        let seconds = CAPTURE_BUFFER_SECONDS as u64;
        let rate = self.sample_rate as u64;
        assert(seconds == 2);
        let limit: u64 = seconds * rate / (DRAIN_CHUNK as u64) + 2;
        let mut rounds: u64 = 0;
        while rounds < limit
            invariant
                self@ == received(old(self)@, arrived),
                scratch@.len() == DRAIN_CHUNK,
            decreases limit - rounds,
        {
            let n = self.captured.pop_slice(scratch.as_mut_slice());
            if n == 0 {
                break;
            }
            let chunk = vstd::slice::slice_subrange(scratch.as_slice(), 0, n);
            proof {
                match old(self)@.open_take {
                    Some(t) => {
                        assert(t + arrived + chunk@ =~= t + (arrived + chunk@));
                    },
                    None => {},
                }
                arrived = arrived + chunk@;
            }
            self.receive(chunk);
            rounds = rounds + 1;
        }
    }

    /// The part of a frame that follows draining: settles a pending loop
    /// length, opens or closes a take as the state starts or stops
    /// capturing, and says whether the loop on disk is now out of date.
    pub fn step(&mut self, state: LoopState, loop_len: usize, take_start: usize) -> (out_of_date: bool)
        ensures
            (final(self)@, out_of_date) == after_tick(
                old(self)@,
                state,
                loop_len as nat,
                take_start as nat,
            ),
    {
        let mut out_of_date = false;
        if self.save_pending {
            self.loop_len = loop_len;
            if self.loop_len > 0 {
                self.save_pending = false;
                out_of_date = true;
            }
        }
        let capturing = state.is_capturing();
        let was_capturing = self.previous_state.is_capturing();
        if capturing && !was_capturing {
            if state == LoopState::Recording {
                // The first take of a new loop replaces everything -
                // including any doubt about what the old one held.
                self.finished = Vec::new();
                self.loop_len = 0;
                self.lost_samples = false;
            }
            self.open_take = Some(Vec::new());
        } else if was_capturing && !capturing {
            let take = match self.open_take.take() {
                Some(t) => t,
                None => Vec::new(),
            };
            if take.len() > 0 {
                // Overdubs begin wherever playback had reached; a first
                // take always begins at the top.
                let start = if self.previous_state == LoopState::Overdubbing {
                    take_start
                } else {
                    0
                };
                self.finished.push(Take { start, samples: take });
                self.save_pending = true;
            } else if self.previous_state == LoopState::Recording {
                // Record pressed and undone before a sample arrived: the
                // old loop has been replaced by no loop.
                out_of_date = true;
            }
        }
        self.previous_state = state;
        proof {
            assert(self@.finished =~= after_tick(
                old(self)@,
                state,
                loop_len as nat,
                take_start as nat,
            ).0.finished);
        }
        out_of_date
    }

    /// Call once per frame, after the state machine has been advanced:
    /// drains what was captured since the last frame - so samples captured
    /// just before a transition still land in the take that is ending -
    /// then steps. Returns whether the loop on disk is now out of date.
    /// Each chunk popped from the capture ring is taken in by `receive`.
    ///
    /// `loop_len` and `take_start` come from the audio thread's telemetry:
    /// the length it settled on, and where the last overdub began.
    pub fn tick(&mut self, state: LoopState, loop_len: usize, take_start: usize) -> (out_of_date: bool)
        ensures
            exists|arrived: Seq<i32>|
                (final(self)@, out_of_date) == after_tick(
                    received(old(self)@, arrived),
                    state,
                    loop_len as nat,
                    take_start as nat,
                ),
    {
        self.drain();
        self.step(state, loop_len, take_start)
    }

    /// Drops the newest take, as the layer stack drops its newest layer.
    pub fn remove_last_layer(&mut self)
        ensures
            final(self)@ == (MirrorModel {
                finished: if old(self)@.finished.len() > 0 {
                    old(self)@.finished.drop_last()
                } else {
                    old(self)@.finished
                },
                ..old(self)@
            }),
    {
        let _ = self.finished.pop();
        assert(self@.finished =~= (if old(self)@.finished.len() > 0 {
            old(self)@.finished.drop_last()
        } else {
            old(self)@.finished
        }));
    }

    /// Forgets the whole loop, and with it any doubt about what it held.
    pub fn clear(&mut self)
        ensures
            final(self)@ == (MirrorModel {
                open_take: None,
                finished: Seq::empty(),
                loop_len: 0,
                save_pending: false,
                lost_samples: false,
                ..old(self)@
            }),
    {
        self.finished = Vec::new();
        self.open_take = None;
        self.loop_len = 0;
        self.save_pending = false;
        self.lost_samples = false;
        assert(self@.finished =~= Seq::<(int, Seq<i32>)>::empty());
    }

    /// Every take laid out as a layer, in order - how it is stored and how
    /// the audio thread holds it.
    pub fn layers(&self) -> (layers: Vec<Vec<i32>>)
        ensures
            layers@.len() == mirror_layers(self@).len(),
            forall|i: int| 0 <= i < layers@.len() ==> #[trigger] layers@[i]@ == mirror_layers(self@)[i],
    {
        let mut layers: Vec<Vec<i32>> = Vec::new();
        let mut i: usize = 0;
        while i < self.finished.len()
            invariant
                i <= self.finished@.len(),
                layers@.len() == i,
                forall|k: int| 0 <= k < i ==> #[trigger] layers@[k]@ == mirror_layers(self@)[k],
            decreases self.finished@.len() - i,
        {
            let take = &self.finished[i];
            layers.push(layer_of(take.start, &take.samples, self.loop_len));
            i = i + 1;
        }
        layers
    }

    /// The files that hold the loop: one WAV per layer, in order, to
    /// replace whatever was saved before. Refused while samples are known
    /// to be missing - better no save than one that does not match what
    /// was played - and when a layer is too long for a WAV's size fields.
    pub fn save(&self) -> (files: Result<Vec<Vec<u8>>, String>)
        ensures
            match saved_files(self@) {
                Some(expected) => files matches Ok(f) && f@.len() == expected.len() && forall|i: int|
                    0 <= i < f@.len() ==> #[trigger] f@[i]@ == expected[i],
                None => files is Err,
            },
    {
        if self.lost_samples {
            return Err(String::from_str("captured samples were lost; leaving the saved loop alone"));
        }
        if self.loop_len > (0xffff_ffffusize - 36) / 4 || self.sample_rate > 0xffff_ffffu32 / 4 {
            return Err(String::from_str("the loop is too long to save as a WAV file"));
        }
        let layers = self.layers();
        let ghost expected = saved_files(self@)->0;
        let mut files: Vec<Vec<u8>> = Vec::new();
        let mut i: usize = 0;
        while i < layers.len()
            invariant
                i <= layers@.len(),
                layers@.len() == mirror_layers(self@).len(),
                forall|k: int| 0 <= k < layers@.len() ==> #[trigger] layers@[k]@ == mirror_layers(self@)[k],
                expected == mirror_layers(self@).map_values(|layer: Seq<i32>| wav_bytes(layer, self.sample_rate)),
                self.loop_len * 4 + 36 <= u32::MAX,
                self.sample_rate * 4 <= u32::MAX,
                files@.len() == i,
                forall|k: int| 0 <= k < i ==> #[trigger] files@[k]@ == expected[k],
            decreases layers@.len() - i,
        {
            proof {
                let t = self@.finished[i as int];
                if self.loop_len > 0 {
                    lemma_lay_out_len(t.0, t.1, self.loop_len as nat);
                }
                assert(layers@[i as int]@.len() <= self.loop_len);
            }
            files.push(encode(layers[i].as_slice(), self.sample_rate));
            i = i + 1;
        }
        Ok(files)
    }
}

/// The layers of a saved loop, in order, or nothing if there is none or it
/// no longer fits `settings` - see `saved_loop`. `files` holds the saved
/// layers' files in order, as far as they could be read.
///
/// Every rule about whether a saved loop still applies lives here, so the
/// layer stack and the mirror are seeded from the same list.
pub fn load(files: &Vec<Vec<u8>>, settings: &AppConfig) -> (layers: Vec<Vec<i32>>)
    ensures
        layers@.len() == saved_loop(files@.map_values(|f: Vec<u8>| f@), settings@).len(),
        forall|i: int|
            0 <= i < layers@.len() ==> #[trigger] layers@[i]@ == saved_loop(
                files@.map_values(|f: Vec<u8>| f@),
                settings@,
            )[i],
{
    let ghost fv = files@.map_values(|f: Vec<u8>| f@);
    let mut found: Vec<(Vec<i32>, u32)> = Vec::new();
    let mut i: usize = 0;
    let mut reading = true;
    assert(fv.skip(0) =~= fv);
    while reading && i < files.len() && i < MAX_SAVED_LAYERS
        invariant
            i <= files@.len(),
            i <= MAX_SAVED_LAYERS,
            fv == files@.map_values(|f: Vec<u8>| f@),
            found@.len() == i,
            reading ==> readable(fv, MAX_SAVED_LAYERS as nat) == found@.map_values(
                |d: (Vec<i32>, u32)| (d.0@, d.1),
            ) + readable(fv.skip(i as int), (MAX_SAVED_LAYERS - i) as nat),
            !reading ==> readable(fv, MAX_SAVED_LAYERS as nat) == found@.map_values(
                |d: (Vec<i32>, u32)| (d.0@, d.1),
            ),
        decreases (files@.len() - i) * 2 + if reading {
            1int
        } else {
            0int
        },
    {
        let ghost before = found@.map_values(|d: (Vec<i32>, u32)| (d.0@, d.1));
        proof {
            assert(fv.skip(i as int)[0] == files@[i as int]@);
            assert(fv.skip(i as int).drop_first() =~= fv.skip(i + 1));
        }
        match decode(files[i].as_slice()) {
            Some(d) => {
                found.push(d);
                proof {
                    let now = found@.map_values(|d: (Vec<i32>, u32)| (d.0@, d.1));
                    assert(now =~= before.push(now.last()));
                    assert(before + (seq![now.last()] + readable(
                        fv.skip(i + 1),
                        (MAX_SAVED_LAYERS - i - 1) as nat,
                    )) =~= now + readable(fv.skip(i + 1), (MAX_SAVED_LAYERS - i - 1) as nat));
                }
                i = i + 1;
            },
            None => {
                proof {
                    assert(before + Seq::<(Seq<i32>, u32)>::empty() =~= before);
                }
                reading = false;
            },
        }
    }
    let ghost fview = found@.map_values(|d: (Vec<i32>, u32)| (d.0@, d.1));
    proof {
        if reading {
            if i == files@.len() {
                assert(fv.skip(i as int) =~= Seq::<Seq<u8>>::empty());
            }
            assert(readable(fv.skip(i as int), (MAX_SAVED_LAYERS - i) as nat) =~= Seq::<
                (Seq<i32>, u32),
            >::empty());
            assert(fview + Seq::<(Seq<i32>, u32)>::empty() =~= fview);
        }
        assert(readable(fv, MAX_SAVED_LAYERS as nat) == fview);
    }
    if found.len() == 0 {
        return Vec::new();
    }
    let first_len = found[0].0.len();
    let mut k: usize = 0;
    while k < found.len()
        invariant
            k <= found@.len(),
            found@.len() > 0,
            first_len == found@[0].0@.len(),
            fview == found@.map_values(|d: (Vec<i32>, u32)| (d.0@, d.1)),
            fv == files@.map_values(|f: Vec<u8>| f@),
            readable(fv, MAX_SAVED_LAYERS as nat) == fview,
            forall|j: int|
                0 <= j < k ==> #[trigger] fview[j].1 == settings.sample_rate && fview[j].0.len() > 0
                    && fview[j].0.len() == fview[0].0.len(),
        decreases found@.len() - k,
    {
        let samples = &found[k].0;
        let rate = found[k].1;
        if rate != settings.sample_rate || samples.len() == 0 || samples.len() != first_len {
            proof {
                assert(fview[k as int].1 == rate);
                assert(!consistent(fview, settings.sample_rate));
            }
            return Vec::new();
        }
        proof {
            assert(fview[k as int] == (found@[k as int].0@, found@[k as int].1));
            assert(fview[0] == (found@[0].0@, found@[0].1));
            assert(fview[k as int].1 == settings.sample_rate);
            assert(fview[k as int].0.len() == fview[0].0.len());
            assert(fview[k as int].0.len() > 0);
            assert forall|j: int| 0 <= j < k + 1 implies #[trigger] fview[j].1 == settings.sample_rate
                && fview[j].0.len() > 0 && fview[j].0.len() == fview[0].0.len() by {
                if j < k {
                } else {
                    assert(j == k);
                }
            }
        }
        k = k + 1;
    }
    assert(consistent(fview, settings.sample_rate));
    let secs = settings.max_loop_secs as u64;
    let rate = settings.sample_rate as u64;
    assert(secs * rate <= u64::MAX) by (nonlinear_arith)
        requires
            secs <= u32::MAX,
            rate <= u32::MAX,
    ;
    let capacity = secs * rate;
    if first_len as u64 > capacity {
        return Vec::new();
    }
    let keep = if found.len() > settings.max_layers as usize {
        settings.max_layers as usize
    } else {
        found.len()
    };
    let mut layers: Vec<Vec<i32>> = Vec::new();
    let mut rest = found;
    let ghost expected = saved_loop(fv, settings@);
    proof {
        let kept = if fview.len() > settings.max_layers {
            fview.take(settings.max_layers as int)
        } else {
            fview
        };
        assert(expected == kept.map_values(|d: (Seq<i32>, u32)| d.0));
        assert(expected.len() == keep);
    }
    // Moved out from the back, then put in order, so no layer is copied.
    let mut backwards: Vec<Vec<i32>> = Vec::new();
    while rest.len() > 0
        invariant
            backwards@.len() + rest@.len() == fview.len(),
            forall|j: int| 0 <= j < rest@.len() ==> #[trigger] rest@[j].0@ == fview[j].0,
            forall|j: int|
                0 <= j < backwards@.len() ==> #[trigger] backwards@[j]@ == fview[fview.len() - 1 - j].0,
        decreases rest@.len(),
    {
        let (samples, _) = rest.pop().unwrap();
        backwards.push(samples);
    }
    while backwards.len() > 0
        invariant
            keep <= fview.len(),
            expected.len() == keep,
            forall|j: int| 0 <= j < keep ==> #[trigger] expected[j] == fview[j].0,
            forall|j: int|
                0 <= j < backwards@.len() ==> #[trigger] backwards@[j]@ == fview[fview.len() - 1 - j].0,
            backwards@.len() <= fview.len(),
            layers@.len() == vstd::math::min((fview.len() - backwards@.len()) as int, keep as int),
            forall|j: int| 0 <= j < layers@.len() ==> #[trigger] layers@[j]@ == expected[j],
        decreases backwards@.len(),
    {
        let samples = backwards.pop().unwrap();
        if layers.len() < keep {
            layers.push(samples);
        }
    }
    layers
}


// ---------------------------------------------------------------------
// Laws
// ---------------------------------------------------------------------

proof fn lemma_readable_all(files: Seq<Seq<u8>>, decoded: Seq<(Seq<i32>, u32)>, limit: nat)
    requires
        files.len() == decoded.len(),
        files.len() <= limit,
        forall|i: int| 0 <= i < files.len() ==> decode_spec(#[trigger] files[i]) == Some(decoded[i]),
    ensures
        readable(files, limit) == decoded,
    decreases files.len(),
{
    if files.len() > 0 {
        assert(decode_spec(files[0]) == Some(decoded[0]));
        assert forall|i: int| 0 <= i < files.drop_first().len() implies decode_spec(
            #[trigger] files.drop_first()[i],
        ) == Some(decoded.drop_first()[i]) by {
            assert(files.drop_first()[i] == files[i + 1]);
            assert(decode_spec(files[i + 1]) == Some(decoded[i + 1]));
        }
        lemma_readable_all(files.drop_first(), decoded.drop_first(), (limit - 1) as nat);
        assert(seq![decoded[0]] + decoded.drop_first() =~= decoded);
    } else {
        assert(decoded =~= Seq::<(Seq<i32>, u32)>::empty());
    }
}

/// A saved loop comes back layer for layer: loading what `save` wrote,
/// under settings at the same sample rate that still allow the loop's
/// length, gives back the mirror's layers - those past `max_layers` left
/// out.
pub proof fn lemma_saved_loop_reloads(m: MirrorModel, settings: ConfigModel)
    requires
        saved_files(m) is Some,
        m.loop_len > 0,
        m.finished.len() <= MAX_SAVED_LAYERS,
        settings.sample_rate == m.sample_rate,
        m.loop_len <= settings.max_loop_secs * settings.sample_rate,
    ensures
        saved_loop(saved_files(m)->0, settings) == (if mirror_layers(m).len()
            > settings.max_layers {
            mirror_layers(m).take(settings.max_layers as int)
        } else {
            mirror_layers(m)
        }),
{
    let layers = mirror_layers(m);
    let files = saved_files(m)->0;
    let decoded = layers.map_values(|l: Seq<i32>| (l, m.sample_rate));
    assert forall|i: int| 0 <= i < layers.len() implies #[trigger] layers[i].len() == m.loop_len by {
        lemma_lay_out_len(m.finished[i].0, m.finished[i].1, m.loop_len);
    }
    assert forall|i: int| 0 <= i < files.len() implies decode_spec(#[trigger] files[i]) == Some(
        decoded[i],
    ) by {
        assert(layers[i].len() == m.loop_len);
        lemma_wav_round_trip(layers[i], m.sample_rate);
    }
    lemma_readable_all(files, decoded, MAX_SAVED_LAYERS as nat);
    let found = readable(files, MAX_SAVED_LAYERS as nat);
    assert(found == decoded);
    if found.len() > 0 {
        assert(consistent(found, settings.sample_rate)) by {
            assert forall|i: int| 0 <= i < found.len() implies #[trigger] found[i].1
                == settings.sample_rate && found[i].0.len() > 0 && found[i].0.len()
                == found[0].0.len() by {
                assert(layers[i].len() == m.loop_len);
                assert(layers[0].len() == m.loop_len);
            }
        }
        assert(found[0].0.len() == m.loop_len) by {
            assert(layers[0].len() == m.loop_len);
        }
    }
    let kept = if found.len() > settings.max_layers {
        found.take(settings.max_layers as int)
    } else {
        found
    };
    assert(kept.map_values(|d: (Seq<i32>, u32)| d.0) =~= (if layers.len() > settings.max_layers {
        layers.take(settings.max_layers as int)
    } else {
        layers
    }));
}

/// A take the mirror lays out in one go is the layer the stack wrote a
/// sample at a time while it played: an overdub that began at the stack's
/// playback position and ran straight through leaves the stack holding
/// exactly the mirror's layer for that take.
pub proof fn lemma_mirror_layer_is_played_layer(m: StackModel, take: Seq<i32>)
    requires
        m.loop_len > 0,
        m.play_pos < m.loop_len,
        m.take == (OpenTake::Overdub { start: m.play_pos, written: 0, layer: silence(m.loop_len) }),
    ensures
        overdub_run(m, take).take->layer == laid_out(m.play_pos as int, take, m.loop_len),
{
    lemma_overdub_lays_out_take(m, take);
}

/// An overdub is kept from where it began: the frame that closes an
/// overdub files the take as the copy's newest, beginning at the take
/// start it was handed, and once the loop length is known the take's `i`th
/// sample stands `i` positions on from that start, round the loop - where
/// the layer stack recorded it.
pub proof fn lemma_closed_overdub_starts_at_take_start(
    m: MirrorModel,
    state: LoopState,
    loop_len: nat,
    take_start: nat,
)
    requires
        m.previous_state == LoopState::Overdubbing,
        !is_capturing(state),
        m.open_take matches Some(t) && t.len() > 0,
    ensures
        ({
            let after = after_tick(m, state, loop_len, take_start).0;
            let t = m.open_take->0;
            &&& after.finished.drop_last() == m.finished
            &&& after.finished.last() == (take_start as int, t)
            &&& after.open_take is None
            &&& (after.loop_len > 0 && t.len() <= after.loop_len) ==> forall|i: int|
                0 <= i < t.len() ==> #[trigger] mirror_layers(after).last()[(take_start + i) % (
                after.loop_len as int)] == t[i]
        }),
{
    let after = after_tick(m, state, loop_len, take_start).0;
    let t = m.open_take->0;
    assert(after.finished.drop_last() =~= m.finished);
    if after.loop_len > 0 && t.len() <= after.loop_len {
        lemma_lay_out_places(take_start as int, t, after.loop_len);
        assert(mirror_layers(after).last() == laid_out(take_start as int, t, after.loop_len));
    }
}

} // verus!
