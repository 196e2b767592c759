// The sample rings between the audio callbacks and the UI thread: the
// `ringbuf` crate's single-producer, single-consumer queue. Its two halves
// live on different threads, so what is in a ring at any moment depends on
// the other half too; nothing here names the contents, and each call's
// contract says only what holds whatever the other thread did.
//
// The halves are held inside opaque structs of this crate rather than as
// declared outside types: the crate's ring and wrapper types carry bounds
// on its own traits (`Storage`, `RbRef`), which the verifier cannot take
// in a type declaration.

use ringbuf::traits::{Consumer, Producer, Split};
use ringbuf::{HeapCons, HeapProd, HeapRb};
use vstd::prelude::*;

verus! {

/// A ring before it is split into its halves.
#[verifier::external_body]
pub struct SampleRing {
    inner: HeapRb<i32>,
}

/// The sending half of a sample ring, as the crate has it.
#[verifier::external_body]
pub struct RawSender {
    inner: HeapProd<i32>,
}

/// The sending half of a sample ring, with a record of every sample it has
/// been handed - the ring keeps what there is room for, and what that is
/// depends on the receiving thread.
pub struct SampleSender {
    raw: RawSender,
    offered: Ghost<Seq<i32>>,
}

/// The receiving half of a sample ring.
#[verifier::external_body]
pub struct SampleReceiver {
    inner: HeapCons<i32>,
}

/// `HeapRb::new`: an empty ring with room for `capacity` samples. The
/// crate panics on a capacity of zero, which `requires` leaves out.
#[verifier::external_body]
fn new_ring(capacity: usize) -> (ring: SampleRing)
    requires
        capacity > 0,
{
    SampleRing { inner: HeapRb::<i32>::new(capacity) }
}

/// `Split::split`: the ring's sending and receiving halves.
#[verifier::external_body]
fn split_ring(ring: SampleRing) -> (halves: (RawSender, SampleReceiver)) {
    let (tx, rx) = ring.inner.split();
    (RawSender { inner: tx }, SampleReceiver { inner: rx })
}

/// `Producer::push_slice`: appends as many of `samples`, from the front,
/// as there is room for, and says how many that was - never more than
/// were offered.
#[verifier::external_body]
fn push_samples(tx: &mut RawSender, samples: &[i32]) -> (pushed: usize)
    ensures
        pushed <= samples@.len(),
{
    tx.inner.push_slice(samples)
}

/// `Producer::try_push`: appends one sample if there is room; a full ring
/// hands the same sample back.
#[verifier::external_body]
fn try_push_sample(tx: &mut RawSender, sample: i32) -> (pushed: Result<(), i32>)
    ensures
        pushed matches Err(back) ==> back == sample,
{
    tx.inner.try_push(sample)
}

/// `Consumer::pop_slice`: moves the oldest samples into the front of
/// `into`, as many as are there and fit, and says how many; the rest of
/// `into` is left as it was.
#[verifier::external_body]
fn pop_samples(rx: &mut SampleReceiver, into: &mut [i32]) -> (popped: usize)
    ensures
        popped <= old(into)@.len(),
        final(into)@.len() == old(into)@.len(),
        forall|i: int| popped <= i < old(into)@.len() ==> final(into)@[i] == old(into)@[i],
{
    rx.inner.pop_slice(into)
}

/// A ring with room for `capacity` samples, as its two halves; nothing has
/// been handed to it yet.
pub fn sample_ring(capacity: usize) -> (halves: (SampleSender, SampleReceiver))
    requires
        capacity > 0,
    ensures
        halves.0.offered() == Seq::<i32>::empty(),
{
    let (raw, rx) = split_ring(new_ring(capacity));
    (SampleSender { raw, offered: Ghost(Seq::empty()) }, rx)
}

impl SampleSender {
    /// Every sample this half has been handed, in order.
    pub closed spec fn offered(&self) -> Seq<i32> {
        self.offered@
    }

    /// Appends as many of `samples`, from the front, as there is room
    /// for; how many.
    pub fn push_slice(&mut self, samples: &[i32]) -> (pushed: usize)
        ensures
            pushed <= samples@.len(),
            final(self).offered() == old(self).offered() + samples@,
    {
        let pushed = push_samples(&mut self.raw, samples);
        self.offered = Ghost(self.offered@ + samples@);
        pushed
    }

    /// Appends `sample` if there is room; whether there was.
    pub fn try_push(&mut self, sample: i32) -> (pushed: bool)
        ensures
            final(self).offered() == old(self).offered().push(sample),
    {
        let pushed = match try_push_sample(&mut self.raw, sample) {
            Ok(()) => true,
            Err(_) => false,
        };
        self.offered = Ghost(self.offered@.push(sample));
        pushed
    }
}

impl SampleReceiver {
    /// Moves the oldest samples into the front of `into`, as many as are
    /// there and fit; how many. The rest of `into` is untouched.
    pub fn pop_slice(&mut self, into: &mut [i32]) -> (popped: usize)
        ensures
            popped <= old(into)@.len(),
            final(into)@.len() == old(into)@.len(),
            forall|i: int| popped <= i < old(into)@.len() ==> final(into)@[i] == old(into)@[i],
    {
        pop_samples(self, into)
    }
}

} // verus!
