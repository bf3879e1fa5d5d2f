//! Bounded single-producer/single-consumer sample channel.
//!
//! A fixed-capacity circular buffer of Q15 audio samples. The producer side
//! only appends; the consumer side only removes from the front and queries
//! occupancy. When the channel is full, `produce` drops the sample and
//! counts the saturation instead of blocking.

use vstd::prelude::*;

verus! {

/// Physical position in the circular storage of the sample at logical
/// offset `i` from the front, for a ring of capacity `cap` whose front
/// sits at `head`.
pub open spec fn ring_pos(head: int, i: int, cap: int) -> int {
    if head + i < cap {
        head + i
    } else {
        head + i - cap
    }
}

/// Bounded FIFO channel of Q15 samples with an explicit saturation counter.
pub struct SampleChannel {
    buf: Vec<i32>,
    head: usize,
    len: usize,
    dropped: u64,
}

impl SampleChannel {
    /// The queued samples in FIFO order, oldest first.
    pub closed spec fn view(&self) -> Seq<i32> {
        Seq::new(self.len as nat, |i: int| self.buf[ring_pos(self.head as int, i, self.buf.len() as int)])
    }

    /// Fixed capacity chosen at construction.
    pub closed spec fn spec_capacity(&self) -> int {
        self.buf.len() as int
    }

    /// Number of samples dropped because the channel was full.
    pub closed spec fn spec_dropped(&self) -> int {
        self.dropped as int
    }

    /// Structural invariant: the storage is the full capacity, the front
    /// index lies inside it, and occupancy never exceeds capacity.
    pub closed spec fn wf(&self) -> bool {
        &&& self.buf.len() > 0
        &&& self.head < self.buf.len()
        &&& self.len <= self.buf.len()
    }

    /// Create a channel of capacity `capacity`, pre-filled with `prefill`
    /// zero samples to establish a fixed start-up latency.
    pub fn new(capacity: usize, prefill: usize) -> (c: Self)
        requires
            0 < capacity,
            prefill <= capacity,
        ensures
            c.wf(),
            c.spec_capacity() == capacity,
            c@ == Seq::new(prefill as nat, |i: int| 0i32),
            c.spec_dropped() == 0,
    {
        let mut buf: Vec<i32> = Vec::new();
        let mut k: usize = 0;
        while k < capacity
            invariant
                k <= capacity,
                buf@ == Seq::new(k as nat, |i: int| 0i32),
            decreases capacity - k,
        {
            buf.push(0);
            proof {
                assert(buf@ =~= Seq::new((k + 1) as nat, |i: int| 0i32));
            }
            k = k + 1;
        }
        let c = SampleChannel { buf, head: 0, len: prefill, dropped: 0 };
        proof {
            assert(c@ =~= Seq::new(prefill as nat, |i: int| 0i32));
        }
        c
    }

    /// Current occupancy.
    pub fn len(&self) -> (n: usize)
        ensures
            n == self@.len(),
    {
        self.len
    }

    /// Fixed capacity.
    pub fn capacity(&self) -> (n: usize)
        ensures
            n == self.spec_capacity(),
    {
        self.buf.len()
    }

    /// How many produced samples were dropped on saturation so far.
    pub fn dropped_count(&self) -> (n: u64)
        ensures
            n == self.spec_dropped(),
    {
        self.dropped
    }

    /// Append one sample at the back. With a free slot the sample is queued
    /// and the call reports acceptance; on a full channel the sample is
    /// dropped and counted, and occupancy is unchanged. Never blocks.
    pub fn produce(&mut self, s: i32) -> (accepted: bool)
        requires
            old(self).wf(),
        ensures
            final(self).wf(),
            final(self).spec_capacity() == old(self).spec_capacity(),
            accepted <==> old(self)@.len() < old(self).spec_capacity(),
            accepted ==> final(self)@ == old(self)@.push(s)
                && final(self).spec_dropped() == old(self).spec_dropped(),
            !accepted ==> final(self)@ == old(self)@
                && final(self).spec_dropped() == (
                    if old(self).spec_dropped() < u64::MAX { old(self).spec_dropped() + 1 } else { old(self).spec_dropped() }
                ),
            final(self)@.len() <= final(self).spec_capacity(),
    {
        if self.len == self.buf.len() {
            if self.dropped < u64::MAX {
                self.dropped = self.dropped + 1;
            }
            false
        } else {
            let cap = self.buf.len();
            let idx = if self.len < cap - self.head {
                self.head + self.len
            } else {
                self.len - (cap - self.head)
            };
            self.buf[idx] = s;
            self.len = self.len + 1;
            proof {
                assert(self@ =~= old(self)@.push(s));
            }
            true
        }
    }

    /// Append a batch of samples in order. While free slots remain each
    /// sample is queued, so occupancy grows by exactly the number pushed, up
    /// to capacity; the excess is dropped and counted. Returns how many were
    /// accepted.
    pub fn produce_batch(&mut self, batch: &Vec<i32>) -> (accepted: usize)
        requires
            old(self).wf(),
        ensures
            final(self).wf(),
            final(self).spec_capacity() == old(self).spec_capacity(),
            accepted == if batch@.len() <= old(self).spec_capacity() - old(self)@.len() {
                batch@.len() as int
            } else {
                old(self).spec_capacity() - old(self)@.len()
            },
            final(self)@ == old(self)@ + batch@.take(accepted as int),
            final(self)@.len() == old(self)@.len() + accepted,
            final(self)@.len() <= final(self).spec_capacity(),
            old(self).spec_dropped() + batch@.len() - accepted <= u64::MAX
                ==> final(self).spec_dropped() == old(self).spec_dropped() + batch@.len() - accepted,
    {
        let ghost free = old(self).spec_capacity() - old(self)@.len();
        let mut j: usize = 0;
        let mut accepted: usize = 0;
        while j < batch.len()
            invariant
                old(self).wf(),
                self.wf(),
                j <= batch@.len(),
                self.spec_capacity() == old(self).spec_capacity(),
                free == old(self).spec_capacity() - old(self)@.len(),
                accepted == if j <= free { j as int } else { free },
                self@ == old(self)@ + batch@.take(accepted as int),
                self@.len() == old(self)@.len() + accepted,
                old(self).spec_dropped() + (j - accepted) <= u64::MAX
                    ==> self.spec_dropped() == old(self).spec_dropped() + (j - accepted),
            decreases batch@.len() - j,
        {
            let s = batch[j];
            let ok = self.produce(s);
            if ok {
                accepted = accepted + 1;
                proof {
                    assert(self@ =~= old(self)@ + batch@.take(accepted as int));
                }
            }
            j = j + 1;
        }
        accepted
    }

    /// Move up to `max_count` samples from the front of the channel into
    /// `dest`, in FIFO order; returns how many were moved: the smaller of
    /// `max_count` and the occupancy.
    pub fn drain_into(&mut self, dest: &mut Vec<i32>, max_count: usize) -> (n: usize)
        requires
            old(self).wf(),
        ensures
            final(self).wf(),
            final(self).spec_capacity() == old(self).spec_capacity(),
            final(self).spec_dropped() == old(self).spec_dropped(),
            n == if max_count <= old(self)@.len() { max_count as int } else { old(self)@.len() as int },
            final(dest)@ == old(dest)@ + old(self)@.take(n as int),
            final(self)@ == old(self)@.skip(n as int),
    {
        let n = if max_count <= self.len { max_count } else { self.len };
        let mut k: usize = 0;
        while k < n
            invariant
                k <= n,
                n <= old(self)@.len(),
                old(self).wf(),
                self.wf(),
                self.buf@ == old(self).buf@,
                self.dropped == old(self).dropped,
                self.len as int == old(self)@.len() - k,
                self.head as int == ring_pos(old(self).head as int, k as int, old(self).spec_capacity()),
                self@ == old(self)@.skip(k as int),
                dest@ == old(dest)@ + old(self)@.take(k as int),
            decreases n - k,
        {
            let v = self.buf[self.head];
            dest.push(v);
            self.head = if self.head + 1 == self.buf.len() { 0 } else { self.head + 1 };
            self.len = self.len - 1;
            k = k + 1;
            proof {
                assert(self@ =~= old(self)@.skip(k as int));
                assert(dest@ =~= old(dest)@ + old(self)@.take(k as int));
            }
        }
        n
    }
}

} // verus!
