//! Bounded single-producer/single-consumer sample channel.
//!
//! The producer side pushes chunks of samples without blocking: once the
//! buffer is at capacity the incoming samples of the chunk are dropped
//! (drop-newest policy) and the call reports an overflow. The consumer
//! side drains everything currently buffered, never blocking either.

use vstd::prelude::*;

verus! {

/// What one `write` call does to the buffered sequence: as many samples
/// as fit are appended in order, the rest of the chunk is dropped, and
/// the second component reports whether anything was dropped.
pub open spec fn write_step(state: Seq<i16>, cap: nat, samples: Seq<i16>) -> (Seq<i16>, bool) {
    let room = if state.len() >= cap {
        0
    } else {
        cap - state.len()
    };
    if samples.len() <= room {
        (state + samples, false)
    } else {
        (state + samples.take(room as int), true)
    }
}

/// What one `drain` call yields and leaves behind: everything buffered
/// comes out, nothing stays.
pub open spec fn drain_step(state: Seq<i16>) -> (Seq<i16>, Seq<i16>) {
    (state, Seq::<i16>::empty())
}

/// The buffered sequences left by a whole series of writes, with a flag
/// telling whether any of them overflowed.
pub open spec fn apply_writes(state: Seq<i16>, cap: nat, writes: Seq<Seq<i16>>) -> (
    Seq<i16>,
    bool,
)
    decreases writes.len(),
{
    if writes.len() == 0 {
        (state, false)
    } else {
        let stepped = write_step(state, cap, writes[0]);
        let rest = apply_writes(stepped.0, cap, writes.drop_first());
        (rest.0, stepped.1 || rest.1)
    }
}

/// Total number of samples in a series of write chunks.
pub open spec fn total_len(writes: Seq<Seq<i16>>) -> int
    decreases writes.len(),
{
    if writes.len() == 0 {
        0
    } else {
        writes[0].len() + total_len(writes.drop_first())
    }
}

/// Fixed-capacity buffer of audio samples bridging the capture callback
/// and the per-frame consumer.
pub struct SampleChannel {
    buf: Vec<i16>,
    cap: usize,
}

impl View for SampleChannel {
    type V = Seq<i16>;

    closed spec fn view(&self) -> Seq<i16> {
        self.buf@
    }
}

impl SampleChannel {
    /// The fixed capacity the channel was created with.
    pub closed spec fn spec_capacity(&self) -> nat {
        self.cap as nat
    }

    /// Well-formedness: the buffer never holds more than the capacity.
    pub closed spec fn wf(&self) -> bool {
        self.buf@.len() <= self.cap
    }

    pub fn capacity(&self) -> (c: usize)
        ensures
            c == self.spec_capacity(),
    {
        self.cap
    }

    /// An empty channel with the given capacity.
    pub fn new(capacity: usize) -> (c: SampleChannel)
        ensures
            c.wf(),
            c@ == Seq::<i16>::empty(),
            c.spec_capacity() == capacity,
    {
        SampleChannel { buf: Vec::new(), cap: capacity }
    }

    /// A channel sized for a target buffering latency: capacity is the
    /// number of samples spanning that latency, doubled to absorb jitter,
    /// and the buffer starts pre-filled with one latency worth of silence
    /// so that the delivery lag is bounded from the first frame.
    pub fn for_latency(latency_secs: usize, sample_rate: usize, channels: usize) -> (c:
        SampleChannel)
        requires
            latency_secs * sample_rate <= usize::MAX,
            latency_secs * sample_rate * channels * 2 <= usize::MAX,
        ensures
            c.wf(),
            c.spec_capacity() == latency_secs * sample_rate * channels * 2,
            c@ == Seq::new((latency_secs * sample_rate * channels) as nat, |i: int| 0i16),
    {
        let fill: usize = latency_secs * sample_rate * channels;
        let cap: usize = fill * 2;
        let mut buf: Vec<i16> = Vec::new();
        let mut i: usize = 0;
        while i < fill
            invariant
                i <= fill,
                buf@.len() == i,
                forall|j: int| 0 <= j < i ==> buf@[j] == 0i16,
            decreases fill - i,
        {
            buf.push(0i16);
            i = i + 1;
        }
        assert(buf@ =~= Seq::new(fill as nat, |j: int| 0i16));
        SampleChannel { buf, cap }
    }

    /// Producer side: append the chunk without blocking. Samples beyond
    /// capacity are dropped and the call returns true to signal overflow
    /// (the caller may log it; it is not fatal).
    pub fn write(&mut self, samples: &Vec<i16>) -> (overflow: bool)
        requires
            old(self).wf(),
        ensures
            final(self).wf(),
            final(self)@ == write_step(old(self)@, old(self).spec_capacity(), samples@).0,
            overflow == write_step(old(self)@, old(self).spec_capacity(), samples@).1,
            final(self).spec_capacity() == old(self).spec_capacity(),
            final(self)@.len() <= final(self).spec_capacity(),
    {
        let n = samples.len();
        let mut i: usize = 0;
        let mut dropped = false;
        while i < n
            invariant
                n == samples@.len(),
                i <= n,
                self.buf@.len() <= self.cap,
                self.cap == old(self).spec_capacity(),
                ({
                    let stepped = write_step(old(self)@, old(self).spec_capacity(),
                        samples@.take(i as int));
                    self.buf@ == stepped.0 && dropped == stepped.1
                }),
            decreases n - i,
        {
            if self.buf.len() < self.cap {
                self.buf.push(samples[i]);
            } else {
                dropped = true;
            }
            proof {
                let prev = samples@.take(i as int);
                let cur = samples@.take(i + 1);
                assert(cur.drop_last() =~= prev);
                assert(cur.last() == samples@[i as int]);
                let stepped_prev = write_step(old(self)@, old(self).spec_capacity(), prev);
                let stepped = write_step(old(self)@, old(self).spec_capacity(), cur);
                if prev.len() + old(self)@.len() < old(self).spec_capacity() {
                    assert(stepped.0 =~= stepped_prev.0.push(samples@[i as int]));
                } else {
                    assert(stepped.0 =~= stepped_prev.0);
                }
            }
            i = i + 1;
        }
        proof {
            assert(samples@.take(n as int) =~= samples@);
        }
        dropped
    }

    /// Consumer side: remove and return everything currently buffered,
    /// never blocking. An empty channel yields an empty vector.
    pub fn drain(&mut self) -> (r: Vec<i16>)
        requires
            old(self).wf(),
        ensures
            final(self).wf(),
            r@ == drain_step(old(self)@).0,
            final(self)@ == drain_step(old(self)@).1,
            final(self).spec_capacity() == old(self).spec_capacity(),
            r@.len() <= old(self).spec_capacity(),
    {
        let mut out: Vec<i16> = Vec::new();
        core::mem::swap(&mut self.buf, &mut out);
        out
    }
}

/// A single write never leaves more than `cap` samples buffered.
pub proof fn lemma_write_step_bounded(state: Seq<i16>, cap: nat, samples: Seq<i16>)
    requires
        state.len() <= cap,
    ensures
        write_step(state, cap, samples).0.len() <= cap,
        !write_step(state, cap, samples).1 ==> write_step(state, cap, samples).0.len()
            == state.len() + samples.len(),
{
}

/// Law: however the producer writes, once the total number of samples
/// written exceeds the spare capacity, an overflow has been signalled at
/// least once, and what `drain` can return afterwards is never more than
/// the capacity.
pub proof fn lemma_writes_past_capacity(state: Seq<i16>, cap: nat, writes: Seq<Seq<i16>>)
    requires
        state.len() <= cap,
        state.len() + total_len(writes) > cap,
    ensures
        apply_writes(state, cap, writes).1,
        apply_writes(state, cap, writes).0.len() <= cap,
    decreases writes.len(),
{
    if writes.len() == 0 {
        assert(false);
    } else {
        let stepped = write_step(state, cap, writes[0]);
        lemma_write_step_bounded(state, cap, writes[0]);
        if stepped.1 {
            lemma_apply_writes_bounded(stepped.0, cap, writes.drop_first());
        } else {
            lemma_writes_past_capacity(stepped.0, cap, writes.drop_first());
        }
    }
}

/// Whatever the writes were, the buffer never holds more than `cap`.
pub proof fn lemma_apply_writes_bounded(state: Seq<i16>, cap: nat, writes: Seq<Seq<i16>>)
    requires
        state.len() <= cap,
    ensures
        apply_writes(state, cap, writes).0.len() <= cap,
    decreases writes.len(),
{
    if writes.len() > 0 {
        let stepped = write_step(state, cap, writes[0]);
        lemma_write_step_bounded(state, cap, writes[0]);
        lemma_apply_writes_bounded(stepped.0, cap, writes.drop_first());
    }
}

/// Law: a drain immediately after a drain yields nothing — the first
/// one leaves the channel empty, so no sample is duplicated or retained.
pub proof fn lemma_second_drain_empty(state: Seq<i16>)
    ensures
        drain_step(drain_step(state).1).0 == Seq::<i16>::empty(),
{
}

} // verus!
