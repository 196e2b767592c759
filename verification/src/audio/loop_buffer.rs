use vstd::prelude::*;

verus! {

/// Pre-allocated buffer for one recorded loop. Recording appends up to
/// `capacity`; playback wraps at the recorded length, not the capacity, so
/// the loop repeats seamlessly however much was recorded. Nothing allocates
/// outside `new`, so it's safe in a real-time callback.
pub struct LoopBuffer {
    samples: Vec<i32>,
    len: usize,
    play_pos: usize,
}

/// What a `LoopBuffer` holds: the recorded loop, where playback is, and
/// how much it could hold.
pub struct LoopBufferModel {
    pub recorded: Seq<i32>,
    pub play_pos: nat,
    pub capacity: nat,
}

impl View for LoopBuffer {
    type V = LoopBufferModel;

    closed spec fn view(&self) -> LoopBufferModel {
        LoopBufferModel {
            recorded: self.samples@.take(self.len as int),
            play_pos: self.play_pos as nat,
            capacity: self.samples@.len(),
        }
    }
}

impl LoopBuffer {
    /// The buffer's consistency, which every operation keeps.
    pub closed spec fn wf(&self) -> bool {
        &&& self.len <= self.samples@.len()
        &&& (self.len == 0 ==> self.play_pos == 0)
        &&& (self.len > 0 ==> self.play_pos < self.len)
    }

    /// Playback wraps at the recorded length, never at the capacity: in a
    /// buffer every operation has kept consistent, the position is within
    /// what was recorded, and at the start when nothing was.
    pub proof fn lemma_play_pos_within_loop(&self)
        requires
            self.wf(),
        ensures
            self@.recorded.len() <= self@.capacity,
            self@.recorded.len() == 0 ==> self@.play_pos == 0,
            self@.recorded.len() > 0 ==> self@.play_pos < self@.recorded.len(),
    {
    }

    pub fn new(capacity: usize) -> (buffer: Self)
        ensures
            buffer.wf(),
            buffer@.recorded == Seq::<i32>::empty(),
            buffer@.play_pos == 0,
            buffer@.capacity == capacity,
    {
        let buffer = LoopBuffer { samples: vec![0i32; capacity], len: 0, play_pos: 0 };
        assert(buffer.samples@.take(0) =~= Seq::<i32>::empty());
        buffer
    }

    pub fn capacity(&self) -> (capacity: usize)
        ensures
            capacity == self@.capacity,
    {
        self.samples.len()
    }

    pub fn len(&self) -> (len: usize)
        requires
            self.wf(),
        ensures
            len == self@.recorded.len(),
    {
        self.len
    }

    pub fn is_empty(&self) -> (empty: bool)
        requires
            self.wf(),
        ensures
            empty == (self@.recorded.len() == 0),
    {
        self.len == 0
    }

    pub fn play_pos(&self) -> (pos: usize)
        ensures
            pos == self@.play_pos,
    {
        self.play_pos
    }

    /// Appends samples, stopping at capacity. Returns how many were written.
    pub fn write(&mut self, input: &[i32]) -> (written: usize)
        requires
            old(self).wf(),
        ensures
            final(self).wf(),
            written == vstd::math::min(
                input@.len() as int,
                old(self)@.capacity - old(self)@.recorded.len(),
            ),
            final(self)@ == (LoopBufferModel {
                recorded: old(self)@.recorded + input@.take(written as int),
                ..old(self)@
            }),
    {
        let space = self.samples.len() - self.len;
        let to_write = if input.len() < space {
            input.len()
        } else {
            space
        };
        let start = self.len;
        let ghost before = self.samples@;
        let ghost pos = self.play_pos;
        let mut j: usize = 0;
        while j < to_write
            invariant
                j <= to_write,
                start + to_write <= self.samples.len(),
                self.play_pos == pos,
                to_write <= input@.len(),
                self.samples@.len() == before.len(),
                start == self.len,
                self.wf(),
                forall|q: int| 0 <= q < start ==> self.samples@[q] == before[q],
                forall|q: int| 0 <= q < j ==> self.samples@[start + q] == input@[q],
            decreases to_write - j,
        {
            self.samples.set(start + j, input[j]);
            j = j + 1;
        }
        self.len = start + to_write;
        assert(self.samples@.take(self.len as int) =~= before.take(start as int) + input@.take(
            to_write as int,
        ));
        to_write
    }

    /// Fills `out` from the current playback position, wrapping at the
    /// recorded length and advancing across calls. Silence if empty.
    pub fn read_looped(&mut self, out: &mut [i32])
        requires
            old(self).wf(),
        ensures
            final(self).wf(),
            final(out)@.len() == old(out)@.len(),
            final(self)@.recorded == old(self)@.recorded,
            final(self)@.capacity == old(self)@.capacity,
            old(self)@.recorded.len() == 0 ==> final(self)@.play_pos == 0,
            old(self)@.recorded.len() > 0 ==> final(self)@.play_pos == ((old(self)@.play_pos
                + old(out)@.len()) as int) % (old(self)@.recorded.len() as int),
            forall|i: int|
                0 <= i < old(out)@.len() ==> #[trigger] final(out)@[i] == (if old(
                    self,
                )@.recorded.len() == 0 {
                    0i32
                } else {
                    old(self)@.recorded[(old(self)@.play_pos + i) % (
                    old(self)@.recorded.len() as int)]
                }),
    {
        let n = out.len();
        if self.len == 0 {
            let mut i: usize = 0;
            while i < n
                invariant
                    n == out@.len(),
                    i <= n,
                    forall|j: int| 0 <= j < i ==> out@[j] == 0i32,
                decreases n - i,
            {
                out[i] = 0;
                i = i + 1;
            }
            return;
        }
        let len = self.len;
        let first = self.play_pos;
        let ghost recorded = self@.recorded;
        let ghost capacity = self@.capacity;
        proof {
            vstd::arithmetic::div_mod::lemma_small_mod(first as nat, len as nat);
        }
        let mut i: usize = 0;
        while i < n
            invariant
                self.wf(),
                len == self.len,
                len > 0,
                first < len,
                n == out@.len(),
                i <= n,
                recorded == self@.recorded,
                capacity == self@.capacity,
                recorded.len() == len,
                self.play_pos == (first + i) % (len as int),
                forall|j: int|
                    0 <= j < i ==> #[trigger] out@[j] == recorded[(first + j) % (len as int)],
            decreases n - i,
        {
            let pos = self.play_pos;
            out[i] = self.samples[pos];
            proof {
                vstd::arithmetic::div_mod::lemma_add_mod_noop((first + i) as int, 1, len as int);
                if len > 1 {
                    vstd::arithmetic::div_mod::lemma_small_mod(1, len as nat);
                } else {
                    vstd::arithmetic::div_mod::lemma_mod_self_0(1);
                }
                if pos + 1 == len {
                    vstd::arithmetic::div_mod::lemma_mod_self_0(len as int);
                } else {
                    vstd::arithmetic::div_mod::lemma_small_mod((pos + 1) as nat, len as nat);
                }
            }
            self.play_pos = if pos + 1 == len {
                0
            } else {
                pos + 1
            };
            i = i + 1;
        }
    }

    /// Drops the loop and resets playback. Does not reallocate.
    pub fn clear(&mut self)
        requires
            old(self).wf(),
        ensures
            final(self).wf(),
            final(self)@ == (LoopBufferModel {
                recorded: Seq::empty(),
                play_pos: 0,
                ..old(self)@
            }),
    {
        self.len = 0;
        self.play_pos = 0;
        assert(self.samples@.take(0) =~= Seq::<i32>::empty());
    }
}

} // verus!
