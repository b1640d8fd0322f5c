//! Bounded per-target sample history.
//!
//! Recording is allocation-free and O(1); the cap is what bounds memory, so history never
//! grows with uptime, only with the number of monitored targets.

use crate::error::Error;
use crate::ring::RingBuffer;
use crate::sample::ProbeSample;
use crate::stats::{describes, WindowStats};
use crate::time::{Duration, Instant};
use vstd::prelude::*;

verus! {

/// The samples taken at or after `cutoff`, in their original order.
pub open spec fn taken_since(samples: Seq<ProbeSample>, cutoff: nat) -> Seq<ProbeSample>
    decreases samples.len(),
{
    if samples.len() == 0 {
        Seq::empty()
    } else {
        let earlier = taken_since(samples.drop_last(), cutoff);
        if samples.last().at@ >= cutoff {
            earlier.push(samples.last())
        } else {
            earlier
        }
    }
}

/// A target's recent probe results, capped at a fixed number of samples.
#[derive(Debug, Clone)]
pub struct SampleHistory {
    samples: RingBuffer<ProbeSample>,
}

impl SampleHistory {
    /// The retained samples, oldest first.
    pub closed spec fn view(self) -> Seq<ProbeSample> {
        self.samples@
    }

    /// The most samples retained.
    pub closed spec fn spec_capacity(self) -> nat {
        self.samples.spec_capacity()
    }

    /// The history's bookkeeping is consistent.
    pub closed spec fn wf(self) -> bool {
        self.samples.wf()
    }

    /// Creates a history holding at most `capacity` samples; a capacity of zero is refused.
    pub fn new(capacity: usize) -> (r: Result<SampleHistory, Error>)
        ensures
            capacity == 0 ==> r == Err::<SampleHistory, Error>(Error::ZeroCapacity),
            capacity > 0 ==> (r matches Ok(h) && h.wf() && h@ == Seq::<ProbeSample>::empty()
                && h.spec_capacity() == capacity),
    {
        match RingBuffer::new(capacity) {
            Ok(samples) => Ok(SampleHistory { samples }),
            Err(e) => Err(e),
        }
    }

    /// Records a sample, evicting the oldest one if the history is full.
    pub fn record(&mut self, sample: ProbeSample)
        requires
            old(self).wf(),
        ensures
            final(self).wf(),
            final(self).spec_capacity() == old(self).spec_capacity(),
            old(self)@.len() < old(self).spec_capacity() ==> final(self)@ == old(self)@.push(
                sample,
            ),
            old(self)@.len() == old(self).spec_capacity() ==> final(self)@ == old(
                self,
            )@.drop_first().push(sample),
    {
        self.samples.push(sample);
    }

    /// A well-formed history never holds more than its capacity, and that capacity is
    /// positive.
    pub proof fn lemma_within_capacity(self)
        requires
            self.wf(),
        ensures
            self@.len() <= self.spec_capacity(),
            self.spec_capacity() > 0,
    {
        self.samples.lemma_within_capacity();
    }

    /// A separate history holding the same samples under the same cap.
    pub(crate) fn copied(&self) -> (h: SampleHistory)
        requires
            self.wf(),
        ensures
            h.wf(),
            h@ == self@,
            h.spec_capacity() == self.spec_capacity(),
    {
        proof {
            self.lemma_within_capacity();
        }
        let capacity = self.capacity();
        let all = self.samples();
        let mut copy = match RingBuffer::new(capacity) {
            Ok(samples) => SampleHistory { samples },
            Err(_) => {
                return SampleHistory { samples: RingBuffer::new(1).unwrap() };
            },
        };
        let mut i: usize = 0;
        while i < all.len()
            invariant
                i <= all@.len(),
                all@ == self@,
                all@.len() <= capacity,
                copy.wf(),
                copy.spec_capacity() == capacity,
                copy@ == all@.take(i as int),
            decreases all@.len() - i,
        {
            copy.record(all[i]);
            proof {
                assert(all@.take(i + 1) =~= all@.take(i as int).push(all@[i as int]));
            }
            i = i + 1;
        }
        proof {
            assert(all@.take(all@.len() as int) =~= all@);
        }
        copy
    }

    /// How many samples are currently held.
    pub fn len(&self) -> (n: usize)
        requires
            self.wf(),
        ensures
            n == self@.len(),
    {
        self.samples.len()
    }

    /// Whether nothing is held.
    pub fn is_empty(&self) -> (b: bool)
        requires
            self.wf(),
        ensures
            b == (self@.len() == 0),
    {
        self.samples.is_empty()
    }

    /// Maximum number of samples retained.
    pub fn capacity(&self) -> (n: usize)
        requires
            self.wf(),
        ensures
            n == self.spec_capacity(),
            self@.len() <= n,
    {
        self.samples.capacity()
    }

    /// The most recent sample, if any.
    pub fn latest(&self) -> (r: Option<ProbeSample>)
        requires
            self.wf(),
        ensures
            self@.len() == 0 ==> r is None,
            self@.len() > 0 ==> r == Some(self@.last()),
    {
        match self.samples.newest() {
            Some(s) => Some(*s),
            None => None,
        }
    }

    /// Every retained sample, oldest first.
    pub fn samples(&self) -> (v: Vec<ProbeSample>)
        requires
            self.wf(),
        ensures
            v@ == self@,
    {
        let held = self.samples.iter();
        let mut v: Vec<ProbeSample> = Vec::new();
        let mut i: usize = 0;
        while i < held.len()
            invariant
                0 <= i <= held@.len(),
                held@.len() == self@.len(),
                forall|k: int| 0 <= k < held@.len() ==> *held@[k] == self@[k],
                v@ == self@.subrange(0, i as int),
            decreases held@.len() - i,
        {
            v.push(*held[i]);
            i = i + 1;
            assert(v@ =~= self@.subrange(0, i as int));
        }
        assert(v@ =~= self@);
        v
    }

    /// The last `count` samples, oldest first; every retained sample when fewer are held.
    ///
    /// Failures come alongside successes: a series that silently omitted the timeouts
    /// would draw a smooth line through an outage.
    pub fn recent(&self, count: usize) -> (v: Vec<ProbeSample>)
        requires
            self.wf(),
        ensures
            v@ == self@.subrange(
                if count >= self@.len() { 0 } else { self@.len() - count },
                self@.len() as int,
            ),
    {
        let all = self.samples();
        let len = all.len();
        let skip = if count >= len {
            0
        } else {
            len - count
        };
        let mut v: Vec<ProbeSample> = Vec::new();
        let mut i = skip;
        while i < len
            invariant
                skip <= i <= len,
                len == all@.len(),
                v@ == all@.subrange(skip as int, i as int),
            decreases len - i,
        {
            v.push(all[i]);
            i = i + 1;
            assert(v@ =~= all@.subrange(skip as int, i as int));
        }
        v
    }

    /// Statistics over every retained sample.
    pub fn stats(&self) -> (stats: WindowStats)
        requires
            self.wf(),
        ensures
            describes(stats, self@),
    {
        let all = self.samples();
        WindowStats::of(all.as_slice())
    }

    /// Statistics over samples taken at or after `cutoff`.
    ///
    /// Filtering depends on each sample's stamp, never on its position in the buffer.
    pub fn stats_since(&self, cutoff: Instant) -> (stats: WindowStats)
        requires
            self.wf(),
        ensures
            describes(stats, taken_since(self@, cutoff@)),
    {
        let all = self.samples();
        let mut kept: Vec<ProbeSample> = Vec::new();
        let mut i: usize = 0;
        while i < all.len()
            invariant
                i <= all@.len(),
                kept@ == taken_since(all@.take(i as int), cutoff@),
            decreases all@.len() - i,
        {
            proof {
                assert(all@.take(i + 1).drop_last() =~= all@.take(i as int));
            }
            if cutoff.le(&all[i].at) {
                kept.push(all[i]);
            }
            i = i + 1;
        }
        proof {
            assert(all@.take(all@.len() as int) =~= all@);
        }
        WindowStats::of(kept.as_slice())
    }

    /// Statistics over the last `window` of time, as of `now`.
    ///
    /// The window is inclusive at its cutoff. If `now - window` would fall before the
    /// clock's origin the whole history is used, which is the honest reading of "everything
    /// within the last very long time".
    pub fn stats_for_window(&self, now: Instant, window: Duration) -> (stats: WindowStats)
        requires
            self.wf(),
        ensures
            now@ < window@ ==> describes(stats, self@),
            now@ >= window@ ==> describes(stats, taken_since(self@, (now@ - window@) as nat)),
    {
        match now.checked_sub(window) {
            Some(cutoff) => self.stats_since(cutoff),
            None => self.stats(),
        }
    }

    /// Drops every retained sample, keeping the allocation.
    pub fn clear(&mut self)
        requires
            old(self).wf(),
        ensures
            final(self).wf(),
            final(self)@ == Seq::<ProbeSample>::empty(),
            final(self).spec_capacity() == old(self).spec_capacity(),
    {
        self.samples.clear();
    }
}

} // verus!
