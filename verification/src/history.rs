//! The recent history of the system.

use std::collections::VecDeque;

use vstd::prelude::*;

verus! {

/// A ring buffer of samples: the most recent ones, the oldest first.
pub struct History<T> {
    samples: VecDeque<T>,
    cap: usize,
}

impl<T> View for History<T> {
    type V = Seq<T>;

    closed spec fn view(&self) -> Seq<T> {
        self.samples@
    }
}

/// `samples` with one more sample; where there are `cap` already, the oldest
/// one leaves.
pub open spec fn with_sample<T>(samples: Seq<T>, cap: nat, sample: T) -> Seq<T> {
    if samples.len() >= cap {
        samples.drop_first().push(sample)
    } else {
        samples.push(sample)
    }
}

impl<T> History<T> {
    /// How many samples are kept at most.
    pub closed spec fn capacity(&self) -> nat {
        self.cap as nat
    }

    /// Whether no more samples are kept than may be.
    pub open spec fn wf(&self) -> bool {
        &&& self.capacity() > 0
        &&& self@.len() <= self.capacity()
    }

    /// A history without samples, which keeps at most `cap`. The room for
    /// them is allocated at once, so it must be within what an allocation can
    /// have.
    pub fn new(cap: usize) -> (r: History<T>)
        requires
            cap > 0,
            cap * vstd::layout::size_of::<T>() <= isize::MAX,
        ensures
            r.wf(),
            r.capacity() == cap,
            r@ == Seq::<T>::empty(),
    {
        History { samples: VecDeque::with_capacity(cap), cap }
    }

    /// Adds a sample; where the history is full, the oldest one leaves.
    pub fn push(&mut self, sample: T)
        requires
            old(self).wf(),
        ensures
            final(self).wf(),
            final(self).capacity() == old(self).capacity(),
            final(self)@ == with_sample(old(self)@, old(self).capacity(), sample),
    {
        if self.samples.len() >= self.cap {
            let _ = self.samples.pop_front();
        }
        self.samples.push_back(sample);
        assert(self@ =~= with_sample(old(self)@, old(self).capacity(), sample));
    }

    /// How many samples there are.
    pub fn len(&self) -> (r: usize)
        ensures
            r == self@.len(),
    {
        self.samples.len()
    }

    /// The sample in the place `i`, counted from the oldest one.
    pub fn get(&self, i: usize) -> (r: &T)
        requires
            i < self@.len(),
        ensures
            *r == self@[i as int],
    {
        &self.samples[i]
    }
}

/// What is kept after the samples came one by one.
pub open spec fn after_samples<T>(cap: nat, samples: Seq<T>) -> Seq<T>
    decreases samples.len(),
{
    if samples.len() == 0 {
        Seq::empty()
    } else {
        with_sample(after_samples(cap, samples.drop_last()), cap, samples.last())
    }
}

/// The history holds the most recent samples: all of them as long as they
/// are no more than the capacity, and that many of them afterwards.
pub proof fn law_history_is_recent<T>(cap: nat, samples: Seq<T>)
    requires
        cap > 0,
    ensures
        after_samples(cap, samples) == if samples.len() <= cap {
            samples
        } else {
            samples.skip(samples.len() - cap)
        },
    decreases samples.len(),
{
    if samples.len() > 0 {
        let earlier = samples.drop_last();
        law_history_is_recent(cap, earlier);
        assert(samples =~= earlier.push(samples.last()));
        if samples.len() <= cap {
            assert(after_samples(cap, samples) =~= samples);
        } else {
            assert(after_samples(cap, samples) =~= samples.skip(samples.len() - cap));
        }
    } else {
        assert(after_samples(cap, samples) =~= samples);
    }
}

} // verus!
