use vstd::prelude::*;

verus! {

// ---------------------------------------------------------------------
// Sample arithmetic
// ---------------------------------------------------------------------

/// `x` brought into the range an `i32` sample can hold.
pub open spec fn clamp_i32(x: int) -> i32 {
    if x > i32::MAX {
        i32::MAX
    } else if x < i32::MIN {
        i32::MIN
    } else {
        x as i32
    }
}

/// Two samples summed, pinned at full scale rather than wrapping into the
/// opposite sign.
pub open spec fn sat_add(a: i32, b: i32) -> i32 {
    clamp_i32(a + b)
}

/// Division that rounds toward zero, the way integer division does in
/// executable code.
pub open spec fn div_toward_zero(a: int, b: int) -> int {
    if a >= 0 {
        a / b
    } else {
        -((-a) / b)
    }
}

/// A full-precision sum at `gain_pct` percent of unity, clipped once at
/// the end.
pub open spec fn scaled(sum: int, gain_pct: int) -> i32 {
    clamp_i32(div_toward_zero(sum * gain_pct, 100))
}

/// The largest magnitude a sum of samples can reach here: one full-scale
/// sample for every layer a `usize` can count, and one more.
pub open spec fn sum_bound() -> int {
    0x8000_0000_0000_0000_0000_0000int
}

/// Sums two samples, saturating at full scale instead of wrapping.
pub fn saturating_add(a: i32, b: i32) -> (sum: i32)
    ensures
        sum == sat_add(a, b),
{
    let wide: i64 = a as i64 + b as i64;
    if wide > 0x7fff_ffffi64 {
        i32::MAX
    } else if wide < -0x8000_0000i64 {
        i32::MIN
    } else {
        wide as i32
    }
}

/// Applies the loop volume to a full-precision sum of layers and only
/// then clamps it back into a sample. Clamping first would make a hot
/// stack permanently crunchy; this way turning the loop volume down still
/// recovers it.
pub fn scale_and_clamp(sum: i128, gain_pct: u32) -> (sample: i32)
    requires
        -sum_bound() <= sum <= sum_bound(),
    ensures
        sample == scaled(sum as int, gain_pct as int),
{
    let gain: i128 = gain_pct as i128;
    assert(-sum_bound() * 0xffff_ffffint <= sum * gain <= sum_bound() * 0xffff_ffffint)
        by (nonlinear_arith)
        requires
            -sum_bound() <= sum <= sum_bound(),
            0 <= gain <= 0xffff_ffffint,
    ;
    let product: i128 = sum * gain;
    let scaled: i128 = if product >= 0 {
        product / 100
    } else {
        -((-product) / 100)
    };
    if scaled > 0x7fff_ffffi128 {
        i32::MAX
    } else if scaled < -0x8000_0000i128 {
        i32::MIN
    } else {
        scaled as i32
    }
}

// ---------------------------------------------------------------------
// The overdub layout rule
// ---------------------------------------------------------------------

/// A loop of `len` samples of silence.
pub open spec fn silence(len: nat) -> Seq<i32> {
    Seq::new(len, |p: int| 0i32)
}

/// A take laid out over a loop of `len` samples, beginning at loop
/// position `start`: the first pass over a position replaces what is
/// there, every later pass sums into it. Positions the take never reached
/// are silent.
///
/// This is the one statement of the overdub rule. The layer stack applies
/// it a sample at a time as it plays (`LoopStack::read_mixed_with_overdub`)
/// and the UI thread's copy applies it to a whole take at once
/// (`LoopMirror::layers`); both are proved against this.
pub open spec fn lay_out(start: int, take: Seq<i32>, len: nat) -> Seq<i32>
    decreases take.len(),
{
    if take.len() == 0 {
        silence(len)
    } else {
        let earlier = lay_out(start, take.drop_last(), len);
        let i = take.len() - 1;
        let at = (start + i) % (len as int);
        earlier.update(
            at,
            if i < len {
                take.last()
            } else {
                sat_add(earlier[at], take.last())
            },
        )
    }
}

/// How far loop position `pos` lies past `start`, going round the loop.
pub open spec fn offset_from(pos: int, start: int, len: int) -> int {
    if pos >= start {
        pos - start
    } else {
        pos + len - start
    }
}

/// The window a layer was recorded over - `written` positions from
/// `start` on - read as a loop: the recorded samples inside it, silence
/// outside.
pub open spec fn window_view(samples: Seq<i32>, start: int, written: int, len: nat) -> Seq<i32> {
    Seq::new(
        len,
        |p: int|
            if offset_from(p, start, len as int) < written {
                samples[p]
            } else {
                0i32
            },
    )
}

/// The sum of every layer's sample at loop position `pos`.
pub open spec fn layers_sum(layers: Seq<Seq<i32>>, pos: int) -> int
    decreases layers.len(),
{
    if layers.len() == 0 {
        0
    } else {
        layers_sum(layers.drop_last(), pos) + layers.last()[pos] as int
    }
}

// ---------------------------------------------------------------------
// The model
// ---------------------------------------------------------------------

/// The take being recorded right now, if any.
pub enum OpenTake {
    Idle,
    /// The first take of a loop, as far as it has got. It fixes the loop
    /// length when it finishes.
    First(Seq<i32>),
    /// An overdub over a loop of fixed length: it began at loop position
    /// `start`, has walked `written` positions from there, and `layer` is
    /// what it holds laid out over the whole loop.
    Overdub { start: nat, written: nat, layer: Seq<i32> },
}

/// What a `LoopStack` is, as far as anyone outside it can tell.
pub struct StackModel {
    /// Samples each layer can hold.
    pub capacity: nat,
    /// Layers the stack can hold, the first recording included.
    pub max_layers: nat,
    /// Loop length in samples, fixed when the first take ends; 0 while
    /// empty.
    pub loop_len: nat,
    /// Where playback is within the loop.
    pub play_pos: nat,
    /// Every finished layer, each laid out over the whole loop.
    pub layers: Seq<Seq<i32>>,
    pub take: OpenTake,
}

/// Every layer's contribution at `pos`, the take in progress included
/// over the part of it already recorded.
pub open spec fn mix(m: StackModel, pos: int) -> int {
    layers_sum(m.layers, pos) + match m.take {
        OpenTake::Overdub { layer, .. } => layer[pos] as int,
        _ => 0int,
    }
}

/// The stack with nothing in it and nothing being recorded.
pub open spec fn cleared(m: StackModel) -> StackModel {
    StackModel {
        loop_len: 0,
        play_pos: 0,
        layers: Seq::empty(),
        take: OpenTake::Idle,
        ..m
    }
}

/// The stack once its newest finished layer is dropped: the loop length
/// and playback position stay, so the layers underneath keep playing;
/// dropping the only one empties the loop.
pub open spec fn without_newest(m: StackModel) -> StackModel {
    if m.layers.len() <= 1 {
        cleared(m)
    } else {
        StackModel { layers: m.layers.drop_last(), ..m }
    }
}

/// The loop position `n` samples on from `pos`.
pub open spec fn step_pos(pos: nat, n: nat, len: nat) -> nat {
    (((pos + n) as int) % (len as int)) as nat
}

/// Playback moved on by `n` samples, nothing else touched.
pub open spec fn advanced(m: StackModel, n: nat) -> StackModel {
    if m.loop_len == 0 {
        m
    } else {
        StackModel { play_pos: step_pos(m.play_pos, n, m.loop_len), ..m }
    }
}

/// One sample of an overdub: the input sample `x` recorded at the
/// playback position, which then moves on by one. Within the window the
/// take already covers it sums in; past it, it replaces, and the window
/// grows to reach it.
pub open spec fn overdub_step(m: StackModel, x: i32) -> StackModel {
    match m.take {
        OpenTake::Overdub { start, written, layer } => {
            let pos = m.play_pos as int;
            let offset = offset_from(pos, start as int, m.loop_len as int);
            StackModel {
                play_pos: step_pos(m.play_pos, 1, m.loop_len),
                take: if offset < written {
                    OpenTake::Overdub { start, written, layer: layer.update(pos, sat_add(layer[pos], x)) }
                } else {
                    OpenTake::Overdub { start, written: (offset + 1) as nat, layer: layer.update(pos, x) }
                },
                ..m
            }
        },
        _ => m,
    }
}

/// `xs` overdubbed one sample after another.
pub open spec fn overdub_run(m: StackModel, xs: Seq<i32>) -> StackModel
    decreases xs.len(),
{
    if xs.len() == 0 {
        m
    } else {
        overdub_step(overdub_run(m, xs.drop_last()), xs.last())
    }
}

/// `input` stretched or cut to `n` samples, silence filling any shortfall.
pub open spec fn padded(input: Seq<i32>, n: nat) -> Seq<i32> {
    Seq::new(n, |i: int| if i < input.len() { input[i] } else { 0i32 })
}

// ---------------------------------------------------------------------
// Layers
// ---------------------------------------------------------------------

/// One recorded layer, indexed by absolute position in the loop.
///
/// An overdub starts wherever playback happens to be and can be stopped
/// early, so a layer covers only the window it was recorded over:
/// `written` samples from `start` onward. Outside that window the buffer
/// still holds an earlier take's samples and is simply never read - which
/// is what lets a layer be reused without clearing megabytes inside the
/// audio callback.
struct Layer {
    samples: Vec<i32>,
    start: usize,
    written: usize,
}

impl Layer {
    fn new(capacity: usize) -> (layer: Layer)
        ensures
            layer.samples@.len() == capacity,
            layer.start == 0,
            layer.written == 0,
    {
        Layer { samples: vec![0i32; capacity], start: 0, written: 0 }
    }

    spec fn view_over(self, len: nat) -> Seq<i32> {
        window_view(self.samples@, self.start as int, self.written as int, len)
    }

    /// How far `pos` is past the point this layer started recording,
    /// wrapping with the loop.
    fn offset_from_start(&self, pos: usize, len: usize) -> (offset: usize)
        requires
            self.start < len,
            pos < len,
        ensures
            offset == offset_from(pos as int, self.start as int, len as int),
            offset < len,
    {
        if pos >= self.start {
            pos - self.start
        } else {
            pos + (len - self.start)
        }
    }

    /// What this layer contributes at loop position `pos` - zero outside
    /// the window it was recorded over.
    fn sample_at(&self, pos: usize, len: usize) -> (sample: i32)
        requires
            self.start < len,
            pos < len,
            len <= self.samples@.len(),
        ensures
            sample == self.view_over(len as nat)[pos as int],
    {
        if self.offset_from_start(pos, len) < self.written {
            self.samples[pos]
        } else {
            0
        }
    }
}

// ---------------------------------------------------------------------
// The stack
// ---------------------------------------------------------------------

/// A stack of aligned loop layers: the first recording fixes the loop
/// length, and each overdub adds another layer on top of it, playing back
/// as their sum. Layers are recorded and dropped independently.
///
/// Nothing allocates outside `new`, so it's safe in a real-time callback -
/// which is also why every layer is a full `capacity`-sized buffer taken
/// up front, making the layer count a straight memory multiplier.
pub struct LoopStack {
    layers: Vec<Layer>,
    /// How many layers hold a finished take.
    count: usize,
    /// Loop length in samples, fixed when the first layer stops recording;
    /// 0 while empty.
    loop_len: usize,
    play_pos: usize,
    /// The layer being written to right now, if any. It sits just above
    /// `count` and is only counted once the take is finished.
    recording: Option<usize>,
}

impl View for LoopStack {
    type V = StackModel;

    closed spec fn view(&self) -> StackModel {
        StackModel {
            capacity: self.layers@[0].samples@.len(),
            max_layers: self.layers@.len(),
            loop_len: self.loop_len as nat,
            play_pos: self.play_pos as nat,
            layers: Seq::new(
                self.count as nat,
                |k: int| self.layers@[k].view_over(self.loop_len as nat),
            ),
            take: match self.recording {
                None => OpenTake::Idle,
                Some(i) => if self.loop_len == 0 {
                    OpenTake::First(self.layers@[0].samples@.take(self.layers@[0].written as int))
                } else {
                    OpenTake::Overdub {
                        start: self.layers@[i as int].start as nat,
                        written: self.layers@[i as int].written as nat,
                        layer: self.layers@[i as int].view_over(self.loop_len as nat),
                    }
                },
            },
        }
    }
}

impl LoopStack {
    /// The stack's internal consistency, which every operation keeps.
    pub closed spec fn wf(&self) -> bool {
        &&& self.layers@.len() >= 1
        &&& forall|k: int|
            0 <= k < self.layers@.len() ==> #[trigger] self.layers@[k].samples@.len()
                == self.layers@[0].samples@.len()
        &&& self.count <= self.layers@.len()
        &&& self.loop_len <= self.layers@[0].samples@.len()
        &&& (self.count > 0) == (self.loop_len > 0)
        &&& self.loop_len == 0 ==> self.play_pos == 0
        &&& self.loop_len > 0 ==> self.play_pos < self.loop_len
        &&& forall|k: int|
            0 <= k < self.count ==> #[trigger] self.layers@[k].start < self.loop_len
                && self.layers@[k].written <= self.loop_len
        &&& match self.recording {
            None => true,
            Some(i) => if self.loop_len == 0 {
                &&& i == 0
                &&& self.layers@[0].start == 0
                &&& self.layers@[0].written <= self.layers@[0].samples@.len()
            } else {
                &&& i == self.count
                &&& i < self.layers@.len()
                &&& self.layers@[i as int].start < self.loop_len
                &&& self.layers@[i as int].written <= self.loop_len
            },
        }
    }

    /// `max_layers` buffers of `capacity` samples each, allocated now and
    /// never again. A stack always has room for at least one layer.
    pub fn new(capacity: usize, max_layers: usize) -> (stack: LoopStack)
        ensures
            stack.wf(),
            stack@.capacity == capacity,
            stack@.max_layers == (if max_layers == 0 {
                1
            } else {
                max_layers
            }),
            stack@.loop_len == 0,
            stack@.play_pos == 0,
            stack@.layers.len() == 0,
            stack@.take == OpenTake::Idle,
    {
        let wanted: usize = if max_layers == 0 {
            1
        } else {
            max_layers
        };
        let mut layers: Vec<Layer> = Vec::new();
        while layers.len() < wanted
            invariant
                layers@.len() <= wanted,
                forall|k: int| 0 <= k < layers@.len() ==> #[trigger] layers@[k].samples@.len() == capacity,
            decreases wanted - layers@.len(),
        {
            layers.push(Layer::new(capacity));
        }
        LoopStack { layers, count: 0, loop_len: 0, play_pos: 0, recording: None }
    }

    /// Samples each layer can hold.
    pub fn capacity(&self) -> (capacity: usize)
        requires
            self.wf(),
        ensures
            capacity == self@.capacity,
    {
        self.layers[0].samples.len()
    }

    /// How much audio is recorded: the loop's fixed length, or how far
    /// the first take has got while it's still running - the elapsed
    /// time shown during recording comes from this.
    pub fn recorded_len(&self) -> (len: usize)
        requires
            self.wf(),
        ensures
            len == (match self@.take {
                OpenTake::First(recorded) => recorded.len(),
                _ => self@.loop_len,
            }),
    {
        match self.recording {
            Some(index) => {
                if self.loop_len == 0 {
                    self.layers[0].written
                } else {
                    self.loop_len
                }
            },
            None => self.loop_len,
        }
    }

    /// Nothing to play: no loop length has been fixed.
    pub fn is_empty(&self) -> (empty: bool)
        ensures
            empty == (self@.loop_len == 0),
    {
        self.loop_len == 0
    }

    pub fn play_pos(&self) -> (pos: usize)
        ensures
            pos == self@.play_pos,
    {
        self.play_pos
    }

    /// How many finished layers are stacked up.
    pub fn layer_count(&self) -> (count: usize)
        ensures
            count == self@.layers.len(),
    {
        self.count
    }

    /// No room for another layer.
    pub fn is_full(&self) -> (full: bool)
        requires
            self.wf(),
        ensures
            full == (self@.layers.len() >= self@.max_layers),
    {
        self.count >= self.layers.len()
    }

    /// Drops every layer and resets playback. Does not reallocate - the
    /// buffers keep their stale contents, which the recorded-window logic
    /// makes unreadable.
    pub fn clear(&mut self)
        requires
            old(self).wf(),
        ensures
            final(self).wf(),
            final(self)@ == cleared(old(self)@),
    {
        self.count = 0;
        self.loop_len = 0;
        self.play_pos = 0;
        self.recording = None;
        assert(self@.layers =~= Seq::<Seq<i32>>::empty());
    }

    /// Starts the first layer, dropping whatever was there. The loop
    /// length isn't known until `finish_first_layer`, so this take simply
    /// appends from zero.
    pub fn begin_first_layer(&mut self)
        requires
            old(self).wf(),
        ensures
            final(self).wf(),
            final(self)@ == (StackModel { take: OpenTake::First(Seq::empty()), ..cleared(old(self)@) }),
    {
        self.clear();
        let mut first = Layer { samples: Vec::new(), start: 0, written: 0 };
        std::mem::swap(&mut first, &mut self.layers[0]);
        first.start = 0;
        first.written = 0;
        self.layers.set(0, first);
        self.recording = Some(0);
        assert(self@.layers =~= Seq::<Seq<i32>>::empty());
        assert(self.layers@[0].samples@.take(0) =~= Seq::<i32>::empty());
    }

    /// Appends to the first take, stopping at capacity - a take that
    /// reaches `max_loop_secs` stops growing rather than wrapping. Returns
    /// how many samples landed; none while no first take is running.
    pub fn record_first_layer(&mut self, input: &[i32]) -> (landed: usize)
        requires
            old(self).wf(),
        ensures
            final(self).wf(),
            match old(self)@.take {
                OpenTake::First(recorded) => {
                    &&& landed == vstd::math::min(
                        input@.len() as int,
                        old(self)@.capacity - recorded.len(),
                    )
                    &&& final(self)@ == (StackModel {
                        take: OpenTake::First(recorded + input@.take(landed as int)),
                        ..old(self)@
                    })
                },
                _ => landed == 0 && final(self)@ == old(self)@,
            },
    {
        if self.loop_len != 0 {
            return 0;
        }
        match self.recording {
            None => { return 0; },
            Some(_) => {},
        }
        let ghost before = self.layers@[0].samples@.take(self.layers@[0].written as int);
        let capacity = self.layers[0].samples.len();
        let written = self.layers[0].written;
        let n: usize = if input.len() < capacity - written {
            input.len()
        } else {
            capacity - written
        };
        let mut first = Layer { samples: Vec::new(), start: 0, written: 0 };
        std::mem::swap(&mut first, &mut self.layers[0]);
        let mut j: usize = 0;
        while j < n
            invariant
                j <= n,
                written + n <= capacity,
                first.samples@.len() == capacity,
                first.start == 0,
                forall|q: int| 0 <= q < written ==> first.samples@[q] == before[q],
                forall|q: int| 0 <= q < j ==> first.samples@[written + q] == input@[q],
                before.len() == written,
                n <= input@.len(),
            decreases n - j,
        {
            first.samples.set(written + j, input[j]);
            j = j + 1;
        }
        first.written = written + n;
        self.layers.set(0, first);
        assert forall|k: int| 0 <= k < self.layers@.len() implies #[trigger] self.layers@[k].samples@.len()
            == self.layers@[0].samples@.len() by {
            if k != 0 {
                assert(self.layers@[k] == old(self).layers@[k]);
            }
        }
        assert(self.layers@[0].samples@.take(self.layers@[0].written as int) =~= before
            + input@.take(n as int));
        assert(self@.layers =~= old(self)@.layers);
        n
    }

    /// Fixes the loop length at whatever was recorded and rewinds to the
    /// top. A take with nothing in it leaves the stack empty.
    pub fn finish_first_layer(&mut self)
        requires
            old(self).wf(),
        ensures
            final(self).wf(),
            match old(self)@.take {
                OpenTake::First(recorded) => final(self)@ == (StackModel {
                    loop_len: recorded.len(),
                    play_pos: 0,
                    layers: if recorded.len() > 0 {
                        seq![recorded]
                    } else {
                        Seq::empty()
                    },
                    take: OpenTake::Idle,
                    ..old(self)@
                }),
                _ => final(self)@ == old(self)@,
            },
    {
        if self.loop_len != 0 {
            return;
        }
        match self.recording {
            None => { return; },
            Some(_) => {},
        }
        let ghost recorded = self.layers@[0].samples@.take(self.layers@[0].written as int);
        self.recording = None;
        self.loop_len = self.layers[0].written;
        self.play_pos = 0;
        self.count = if self.loop_len > 0 {
            1
        } else {
            0
        };
        if self.loop_len > 0 {
            assert(self.layers@[0].view_over(self.loop_len as nat) =~= recorded);
            assert(self@.layers =~= seq![recorded]);
        } else {
            assert(self@.layers =~= Seq::<Seq<i32>>::empty());
        }
    }

    /// Starts a layer aligned to the current playback position. False if
    /// there's no loop to overdub onto, or no layer left.
    pub fn begin_overdub(&mut self) -> (started: bool)
        requires
            old(self).wf(),
        ensures
            final(self).wf(),
            started == (old(self)@.loop_len > 0 && old(self)@.layers.len() < old(self)@.max_layers),
            started ==> final(self)@ == (StackModel {
                take: OpenTake::Overdub {
                    start: old(self)@.play_pos,
                    written: 0,
                    layer: silence(old(self)@.loop_len),
                },
                ..old(self)@
            }),
            !started ==> final(self)@ == old(self)@,
    {
        if self.loop_len == 0 || self.count >= self.layers.len() {
            return false;
        }
        let index = self.count;
        let mut layer = Layer { samples: Vec::new(), start: 0, written: 0 };
        std::mem::swap(&mut layer, &mut self.layers[index]);
        layer.start = self.play_pos;
        layer.written = 0;
        self.layers.set(index, layer);
        self.recording = Some(index);
        assert(self.layers@[index as int].view_over(self.loop_len as nat) =~= silence(
            self.loop_len as nat,
        ));
        assert(self@.layers =~= old(self)@.layers);
        true
    }

    /// Keeps the overdub just recorded as a new layer. One with nothing in
    /// it is dropped rather than adding a silent layer.
    pub fn finish_overdub(&mut self)
        requires
            old(self).wf(),
        ensures
            final(self).wf(),
            match old(self)@.take {
                OpenTake::Overdub { written, layer, .. } => final(self)@ == (StackModel {
                    layers: if written > 0 {
                        old(self)@.layers.push(layer)
                    } else {
                        old(self)@.layers
                    },
                    take: OpenTake::Idle,
                    ..old(self)@
                }),
                _ => final(self)@ == old(self)@,
            },
    {
        if self.loop_len == 0 {
            return;
        }
        match self.recording {
            None => {},
            Some(index) => {
                let total = self.layers.len();
                assert(index < total);
                self.recording = None;
                if self.layers[index].written > 0 {
                    self.count = index + 1;
                    assert(self@.layers =~= old(self)@.layers.push(
                        self.layers@[index as int].view_over(self.loop_len as nat),
                    ));
                } else {
                    assert(self@.layers =~= old(self)@.layers);
                }
            },
        }
    }

    /// Adds a layer already laid out over the whole loop, as a saved one
    /// is. The first fixes the loop length; the rest have to match it.
    /// For rebuilding a stack off the audio thread - false if it doesn't
    /// fit, or if a take is being recorded.
    pub fn add_layer(&mut self, samples: &[i32]) -> (added: bool)
        requires
            old(self).wf(),
        ensures
            final(self).wf(),
            added == (old(self)@.take == OpenTake::Idle && old(self)@.layers.len()
                < old(self)@.max_layers && samples@.len() > 0 && samples@.len()
                <= old(self)@.capacity && (old(self)@.loop_len == 0 || samples@.len()
                == old(self)@.loop_len)),
            added ==> final(self)@ == (StackModel {
                loop_len: samples@.len(),
                play_pos: 0,
                layers: old(self)@.layers.push(samples@),
                ..old(self)@
            }),
            !added ==> final(self)@ == old(self)@,
    {
        match self.recording {
            Some(_) => { return false; },
            None => {},
        }
        let n = samples.len();
        if self.count >= self.layers.len() || n == 0 || n > self.layers[0].samples.len() {
            return false;
        }
        if self.loop_len != 0 && n != self.loop_len {
            return false;
        }
        let index = self.count;
        let ghost capacity = self.layers@[0].samples@.len();
        let mut layer = Layer { samples: Vec::new(), start: 0, written: 0 };
        std::mem::swap(&mut layer, &mut self.layers[index]);
        let mut j: usize = 0;
        while j < n
            invariant
                j <= n,
                n == samples@.len(),
                n <= layer.samples@.len(),
                layer.samples@.len() == capacity,
                forall|q: int| 0 <= q < j ==> layer.samples@[q] == samples@[q],
            decreases n - j,
        {
            layer.samples.set(j, samples[j]);
            j = j + 1;
        }
        layer.start = 0;
        layer.written = n;
        self.layers.set(index, layer);
        self.loop_len = n;
        self.count = index + 1;
        self.play_pos = 0;
        assert forall|k: int| 0 <= k < self.layers@.len() implies #[trigger] self.layers@[k].samples@.len()
            == self.layers@[0].samples@.len() by {
            if k != index {
                assert(self.layers@[k] == old(self).layers@[k]);
            }
        }
        assert(self.layers@[index as int].view_over(n as nat) =~= samples@);
        assert(self@.layers =~= old(self)@.layers.push(samples@));
        true
    }

    /// Drops the newest finished layer, leaving the loop length and
    /// playback position alone so the layers underneath keep playing.
    /// Dropping the only one empties the loop. An overdub in progress
    /// carries on, now on top of what is left.
    pub fn remove_last_layer(&mut self)
        requires
            old(self).wf(),
        ensures
            final(self).wf(),
            final(self)@ == without_newest(old(self)@),
    {
        if self.count <= 1 {
            self.clear();
            return;
        }
        let newest = self.count - 1;
        match self.recording {
            None => {},
            Some(index) => {
                // The take in progress moves down into the slot the
                // dropped layer leaves, so it stays on top of the stack.
                let mut taken = Layer { samples: Vec::new(), start: 0, written: 0 };
                std::mem::swap(&mut taken, &mut self.layers[index]);
                let mut dropped = Layer { samples: Vec::new(), start: 0, written: 0 };
                std::mem::swap(&mut dropped, &mut self.layers[newest]);
                self.layers.set(newest, taken);
                self.layers.set(index, dropped);
                self.recording = Some(newest);
            },
        }
        self.count = newest;
        assert(self@.layers =~= old(self)@.layers.drop_last());
    }

    /// Every layer's contribution at `pos`, summed in full precision. The
    /// take in progress is included - only over the part of it already
    /// recorded - so a second pass hears the first one come back around.
    ///
    /// Deliberately not clamped: stacked takes can sum past full scale,
    /// and clamping that away here would make the loudness unrecoverable.
    fn mix_at(&self, pos: usize) -> (sum: i128)
        requires
            self.wf(),
            self.loop_len > 0,
            pos < self.loop_len,
        ensures
            sum == mix(self@, pos as int),
            -sum_bound() <= sum <= sum_bound(),
    {
        let len = self.loop_len;
        let active: usize = match self.recording {
            Some(index) => {
                let total = self.layers.len();
                assert(index < total);
                index + 1
            },
            None => self.count,
        };
        let ghost all = Seq::new(
            active as nat,
            |k: int| self.layers@[k].view_over(len as nat),
        );
        let mut sum: i128 = 0;
        let mut k: usize = 0;
        while k < active
            invariant
                self.wf(),
                len == self.loop_len,
                len > 0,
                pos < len,
                active <= self.layers@.len(),
                k <= active,
                all == Seq::new(active as nat, |k: int| self.layers@[k].view_over(len as nat)),
                forall|q: int| 0 <= q < active ==> #[trigger] self.layers@[q].start < len,
                sum == layers_sum(all.take(k as int), pos as int),
                -0x8000_0000int * k <= sum <= 0x8000_0000int * k,
            decreases active - k,
        {
            let sample = self.layers[k].sample_at(pos, len);
            assert(all.take(k as int + 1).drop_last() =~= all.take(k as int));
            sum = sum + sample as i128;
            k = k + 1;
        }
        assert(all.take(active as int) =~= all);
        proof {
            match self.recording {
                Some(index) => {
                    assert(all.drop_last() =~= self@.layers);
                },
                None => {
                    assert(all =~= self@.layers);
                },
            }
        }
        sum
    }

    /// One playback pass: mixes every layer into `out` at `gain_pct`
    /// percent of unity, advancing the shared playback position. Silence
    /// while empty.
    ///
    /// Layers all play at the level they were recorded at - there's no
    /// per-layer gain - so this is the only volume control over them.
    pub fn read_mixed(&mut self, out: &mut [i32], gain_pct: u32)
        requires
            old(self).wf(),
        ensures
            final(self).wf(),
            final(out)@.len() == old(out)@.len(),
            final(self)@ == advanced(old(self)@, old(out)@.len()),
            forall|i: int|
                0 <= i < old(out)@.len() ==> #[trigger] final(out)@[i] == (if old(self)@.loop_len
                    == 0 {
                    0i32
                } else {
                    scaled(
                        mix(
                            old(self)@,
                            step_pos(old(self)@.play_pos, i as nat, old(self)@.loop_len) as int,
                        ),
                        gain_pct as int,
                    )
                }),
    {
        let n = out.len();
        if self.loop_len == 0 {
            let mut i: usize = 0;
            while i < n
                invariant
                    n == out@.len(),
                    i <= n,
                    forall|j: int| 0 <= j < i ==> out@[j] == 0i32,
                decreases n - i,
            {
                out[i] = 0;
                i = i + 1;
            }
            return;
        }
        let ghost start = self@;
        let len = self.loop_len;
        proof {
            lemma_step_pos_zero(start.play_pos, len as nat);
        }
        let mut i: usize = 0;
        while i < n
            invariant
                self.wf(),
                start.play_pos < len,
                n == out@.len(),
                i <= n,
                len == self.loop_len,
                len > 0,
                start.loop_len == len,
                self@ == advanced(start, i as nat),
                forall|j: int|
                    0 <= j < i ==> #[trigger] out@[j] == scaled(
                        mix(start, step_pos(start.play_pos, j as nat, len as nat) as int),
                        gain_pct as int,
                    ),
            decreases n - i,
        {
            let pos = self.play_pos;
            proof {
                lemma_step_pos_zero(start.play_pos, len as nat);
                lemma_step_pos_succ(start.play_pos, i as nat, len as nat);
                assert(mix(self@, pos as int) == mix(start, pos as int));
            }
            let sum = self.mix_at(pos);
            out[i] = scale_and_clamp(sum, gain_pct);
            self.play_pos = if pos + 1 == len {
                0
            } else {
                pos + 1
            };
            i = i + 1;
        }
    }

    /// One sample of an overdub - see `overdub_step`. Positions the take
    /// jumps past (playback having moved on without it) are silenced as
    /// the window grows over them, so a stale sample is never let back in.
    fn overdub_one(&mut self, x: i32)
        requires
            old(self).wf(),
            old(self).loop_len > 0,
            old(self).recording.is_some(),
        ensures
            final(self).wf(),
            final(self).loop_len == old(self).loop_len,
            final(self).recording.is_some(),
            final(self)@ == overdub_step(old(self)@, x),
    {
        let len = self.loop_len;
        let index: usize = match self.recording {
            Some(i) => i,
            None => { return; },
        };
        let pos = self.play_pos;
        let ghost old_layer = self.layers@[index as int];
        let mut layer = Layer { samples: Vec::new(), start: 0, written: 0 };
        std::mem::swap(&mut layer, &mut self.layers[index]);
        let start = layer.start;
        let written = layer.written;
        let offset = layer.offset_from_start(pos, len);
        if offset < written {
            let current = layer.samples[pos];
            layer.samples.set(pos, saturating_add(current, x));
            proof {
                assert forall|p: int| 0 <= p < len implies #[trigger] layer.view_over(len as nat)[p]
                    == old_layer.view_over(len as nat).update(
                    pos as int,
                    sat_add(old_layer.view_over(len as nat)[pos as int], x),
                )[p] by {
                    if p != pos {
                        assert(offset_from(p, start as int, len as int) != offset);
                    }
                }
                assert(layer.view_over(len as nat) =~= old_layer.view_over(len as nat).update(
                    pos as int,
                    sat_add(old_layer.view_over(len as nat)[pos as int], x),
                ));
            }
        } else {
            let mut k: usize = written;
            while k < offset
                invariant
                    written <= k <= offset,
                    offset < len,
                    start < len,
                    len <= layer.samples@.len(),
                    layer.samples@.len() == old_layer.samples@.len(),
                    layer.start == start,
                    layer.written == written,
                    forall|p: int|
                        0 <= p < len && written <= offset_from(p, start as int, len as int) < k
                            ==> #[trigger] layer.samples@[p] == 0i32,
                    forall|p: int|
                        0 <= p < layer.samples@.len() && !(0 <= p < len && written <= offset_from(
                            p,
                            start as int,
                            len as int,
                        ) < k) ==> #[trigger] layer.samples@[p] == old_layer.samples@[p],
                decreases offset - k,
            {
                let p: usize = if k < len - start {
                    start + k
                } else {
                    k - (len - start)
                };
                assert(offset_from(p as int, start as int, len as int) == k);
                layer.samples.set(p, 0);
                k = k + 1;
            }
            layer.samples.set(pos, x);
            layer.written = offset + 1;
            proof {
                assert forall|p: int| 0 <= p < len implies #[trigger] layer.view_over(len as nat)[p]
                    == old_layer.view_over(len as nat).update(pos as int, x)[p] by {
                    if p != pos {
                        assert(offset_from(p, start as int, len as int) != offset);
                    }
                }
                assert(layer.view_over(len as nat) =~= old_layer.view_over(len as nat).update(
                    pos as int,
                    x,
                ));
            }
        }
        self.layers.set(index, layer);
        self.play_pos = if pos + 1 == len {
            0
        } else {
            pos + 1
        };
        proof {
            lemma_step_pos_succ(pos as nat, 0, len as nat);
            lemma_step_pos_zero(pos as nat, len as nat);
            assert forall|k: int| 0 <= k < self.layers@.len() implies #[trigger] self.layers@[k].samples@.len()
                == self.layers@[0].samples@.len() by {
                if k != index {
                    assert(self.layers@[k] == old(self).layers@[k]);
                }
            }
            assert(self@.layers =~= old(self)@.layers);
        }
    }

    /// Playback and overdub in one pass. Each sample is mixed into `out`
    /// *before* the matching `input` sample is recorded over it, so the
    /// take being played isn't echoed straight back on top of the
    /// player's own live signal - it comes back from the next pass on.
    /// Recording a second pass over the same layer sums into it rather
    /// than replacing it, so nothing already played is erased. Input
    /// shorter than `out` is recorded as silence for the rest. With no
    /// overdub open this is `read_mixed`.
    pub fn read_mixed_with_overdub(&mut self, out: &mut [i32], input: &[i32], gain_pct: u32)
        requires
            old(self).wf(),
        ensures
            final(self).wf(),
            final(out)@.len() == old(out)@.len(),
            match old(self)@.take {
                OpenTake::Overdub { .. } => {
                    &&& final(self)@ == overdub_run(
                        old(self)@,
                        padded(input@, old(out)@.len()),
                    )
                    &&& forall|i: int|
                        0 <= i < old(out)@.len() ==> #[trigger] final(out)@[i] == {
                            let before = overdub_run(
                                old(self)@,
                                padded(input@, old(out)@.len()).take(i),
                            );
                            scaled(mix(before, before.play_pos as int), gain_pct as int)
                        }
                },
                _ => {
                    &&& final(self)@ == advanced(old(self)@, old(out)@.len())
                    &&& forall|i: int|
                        0 <= i < old(out)@.len() ==> #[trigger] final(out)@[i] == (if old(
                            self,
                        )@.loop_len == 0 {
                            0i32
                        } else {
                            scaled(
                                mix(
                                    old(self)@,
                                    step_pos(old(self)@.play_pos, i as nat, old(self)@.loop_len)
                                        as int,
                                ),
                                gain_pct as int,
                            )
                        })
                },
            },
    {
        if self.loop_len == 0 || self.recording.is_none() {
            self.read_mixed(out, gain_pct);
            return;
        }
        let n = out.len();
        let ghost start = self@;
        let ghost xs = padded(input@, n as nat);
        let mut i: usize = 0;
        while i < n
            invariant
                self.wf(),
                self.loop_len > 0,
                self.recording.is_some(),
                n == out@.len(),
                i <= n,
                xs == padded(input@, n as nat),
                self@ == overdub_run(start, xs.take(i as int)),
                forall|j: int|
                    0 <= j < i ==> #[trigger] out@[j] == {
                        let before = overdub_run(start, xs.take(j));
                        scaled(mix(before, before.play_pos as int), gain_pct as int)
                    },
            decreases n - i,
        {
            let pos = self.play_pos;
            let sum = self.mix_at(pos);
            out[i] = scale_and_clamp(sum, gain_pct);
            let recorded: i32 = if i < input.len() {
                input[i]
            } else {
                0
            };
            assert(xs.take(i as int + 1).drop_last() =~= xs.take(i as int));
            self.overdub_one(recorded);
            i = i + 1;
        }
        assert(xs.take(n as int) =~= xs);
    }
}

/// Moving on by nothing stays put.
proof fn lemma_step_pos_zero(pos: nat, len: nat)
    requires
        len > 0,
        pos < len,
    ensures
        step_pos(pos, 0, len) == pos,
{
    vstd::arithmetic::div_mod::lemma_small_mod(pos, len);
}

/// Moving on by `n + 1` is moving on by `n`, then by one more.
proof fn lemma_step_pos_succ(pos: nat, n: nat, len: nat)
    requires
        len > 0,
    ensures
        step_pos(pos, n + 1, len) == (if step_pos(pos, n, len) + 1 == len {
            0
        } else {
            step_pos(pos, n, len) + 1
        }),
        step_pos(pos, n, len) < len,
{
    let p: int = (pos + n) as int;
    vstd::arithmetic::div_mod::lemma_mod_bound(p, len as int);
    vstd::arithmetic::div_mod::lemma_add_mod_noop(p, 1, len as int);
    if len > 1 {
        vstd::arithmetic::div_mod::lemma_small_mod(1, len);
    } else {
        vstd::arithmetic::div_mod::lemma_mod_self_0(1);
    }
    if (p % (len as int)) + 1 == len {
        vstd::arithmetic::div_mod::lemma_mod_self_0(len as int);
    } else {
        vstd::arithmetic::div_mod::lemma_small_mod(((p % (len as int)) + 1) as nat, len);
    }
}

/// A laid-out take covers the whole loop.
pub proof fn lemma_lay_out_len(start: int, take: Seq<i32>, len: nat)
    requires
        len > 0,
    ensures
        lay_out(start, take, len).len() == len,
    decreases take.len(),
{
    if take.len() > 0 {
        lemma_lay_out_len(start, take.drop_last(), len);
        vstd::arithmetic::div_mod::lemma_mod_bound(start + take.len() - 1, len as int);
    }
}

/// Two different offsets of less than a loop from the same start land on
/// different positions.
proof fn lemma_positions_differ(s: int, i: int, j: int, len: int)
    requires
        0 <= s,
        0 <= i < j < len,
    ensures
        (s + i) % len != (s + j) % len,
{
    vstd::arithmetic::div_mod::lemma_fundamental_div_mod(s + i, len);
    vstd::arithmetic::div_mod::lemma_fundamental_div_mod(s + j, len);
    let qi = (s + i) / len;
    let qj = (s + j) / len;
    if (s + i) % len == (s + j) % len {
        assert(j - i == (qj - qi) * len) by (nonlinear_arith)
            requires
                s + i == len * qi + (s + i) % len,
                s + j == len * qj + (s + j) % len,
                (s + i) % len == (s + j) % len,
        ;
        if qj - qi >= 1 {
            assert((qj - qi) * len >= len) by (nonlinear_arith)
                requires
                    qj - qi >= 1,
                    len > 0,
            ;
        } else {
            assert((qj - qi) * len <= 0) by (nonlinear_arith)
                requires
                    qj - qi <= 0,
                    len > 0,
            ;
        }
    }
}

/// A take no longer than the loop, laid out from `start`, puts its `i`th
/// sample at `i` positions on from `start`, round the loop.
pub proof fn lemma_lay_out_places(start: int, take: Seq<i32>, len: nat)
    requires
        len > 0,
        0 <= start,
        take.len() <= len,
    ensures
        forall|i: int|
            0 <= i < take.len() ==> #[trigger] lay_out(start, take, len)[(start + i) % (len as int)]
                == take[i],
    decreases take.len(),
{
    if take.len() > 0 {
        let earlier = take.drop_last();
        let last = take.len() - 1;
        lemma_lay_out_places(start, earlier, len);
        lemma_lay_out_len(start, earlier, len);
        vstd::arithmetic::div_mod::lemma_mod_bound(start + last, len as int);
        assert forall|i: int| 0 <= i < take.len() implies #[trigger] lay_out(start, take, len)[(start
            + i) % (len as int)] == take[i] by {
            vstd::arithmetic::div_mod::lemma_mod_bound(start + i, len as int);
            if i < last {
                lemma_positions_differ(start, i, last, len as int);
                assert(earlier[i] == take[i]);
            }
        }
    }
}

/// `k` samples after `start`, playback has gone `k % len` positions round
/// the loop from it.
proof fn lemma_offset_after(start: nat, k: nat, len: nat)
    requires
        len > 0,
        start < len,
    ensures
        offset_from(step_pos(start, k, len) as int, start as int, len as int) == (k as int) % (
        len as int),
{
    let r = (k as int) % (len as int);
    vstd::arithmetic::div_mod::lemma_mod_bound(k as int, len as int);
    vstd::arithmetic::div_mod::lemma_add_mod_noop_right(start as int, k as int, len as int);
    if start + r < len {
        vstd::arithmetic::div_mod::lemma_small_mod((start + r) as nat, len);
    } else {
        vstd::arithmetic::div_mod::lemma_mod_add_multiples_vanish(start + r - len, len as int);
        vstd::arithmetic::div_mod::lemma_small_mod((start + r - len) as nat, len);
    }
}

/// An overdub that plays straight through from where it began holds its
/// take exactly as `lay_out` lays it out: the layer stack's sample-by-
/// sample rule and the whole-take rule agree, which is what lets the UI
/// thread's copy of the loop be saved and reload sounding the way it was
/// played. The window covers as much of the loop as the take reached, and
/// playback ends up that far round from where it began.
pub proof fn lemma_overdub_lays_out_take(m: StackModel, xs: Seq<i32>)
    requires
        m.loop_len > 0,
        m.play_pos < m.loop_len,
        m.take == (OpenTake::Overdub { start: m.play_pos, written: 0, layer: silence(m.loop_len) }),
    ensures
        overdub_run(m, xs) == (StackModel {
            play_pos: step_pos(m.play_pos, xs.len(), m.loop_len),
            take: OpenTake::Overdub {
                start: m.play_pos,
                written: vstd::math::min(xs.len() as int, m.loop_len as int) as nat,
                layer: lay_out(m.play_pos as int, xs, m.loop_len),
            },
            ..m
        }),
    decreases xs.len(),
{
    let start = m.play_pos;
    let len = m.loop_len;
    lemma_lay_out_len(start as int, xs, len);
    if xs.len() == 0 {
        lemma_step_pos_zero(start, len);
        assert(lay_out(start as int, xs, len) == silence(len));
    } else {
        let k = (xs.len() - 1) as nat;
        lemma_lay_out_len(start as int, xs.drop_last(), len);
        lemma_overdub_lays_out_take(m, xs.drop_last());
        lemma_step_pos_succ(start, k, len);
        lemma_offset_after(start, k, len);
        if k < len {
            vstd::arithmetic::div_mod::lemma_small_mod(k, len);
        }
        vstd::arithmetic::div_mod::lemma_mod_bound((start + k) as int, len as int);
        let prev = overdub_run(m, xs.drop_last());
        let pos = prev.play_pos as int;
        assert(pos == (start + k) as int % (len as int));
        let layer = lay_out(start as int, xs.drop_last(), len);
        let next = if k < len {
            layer.update(pos, xs.last())
        } else {
            layer.update(pos, sat_add(layer[pos], xs.last()))
        };
        assert(lay_out(start as int, xs, len) == next);
        assert(overdub_run(m, xs) == overdub_step(prev, xs.last()));
        let written = vstd::math::min(k as int, len as int);
        assert(prev.take == (OpenTake::Overdub { start, written: written as nat, layer }));
        let offset = offset_from(pos, start as int, len as int);
        assert(offset == (k as int) % (len as int));
        if k < len {
            assert(offset == k);
            assert(!(offset < written));
        } else {
            assert(offset < written);
        }
        assert(overdub_step(prev, xs.last()).take == (OpenTake::Overdub {
            start,
            written: vstd::math::min(xs.len() as int, len as int) as nat,
            layer: next,
        }));
        lemma_step_pos_succ(prev.play_pos, 0, len);
        lemma_step_pos_zero(prev.play_pos, len);
        assert(overdub_step(prev, xs.last()).play_pos == step_pos(start, xs.len(), len));
    }
}

} // verus!
