//! The bounded history of analysis slices behind the scrolling spectrogram:
//! newest first, at most a fixed number of slices, the oldest slice recycled for
//! the next analysis.
use std::collections::VecDeque;
use vstd::prelude::*;

verus! {

/// `s` cut down to its first `max` entries if it is longer.
pub open spec fn bounded<T>(s: Seq<T>, max: nat) -> Seq<T> {
    if s.len() > max {
        s.subrange(0, max as int)
    } else {
        s
    }
}

/// Up to `max_slices` slices; the view lists them newest first.
pub struct SliceHistory<T> {
    slices: VecDeque<T>,
    max_slices: usize,
}

impl<T> View for SliceHistory<T> {
    type V = Seq<T>;

    closed spec fn view(&self) -> Seq<T> {
        self.slices@
    }
}

impl<T> SliceHistory<T> {
    /// The most slices the history keeps.
    pub closed spec fn max_slices(self) -> nat {
        self.max_slices as nat
    }

    /// An empty history that keeps at most `max_slices` slices.
    pub fn new(max_slices: usize) -> (h: Self)
        ensures
            h@ == Seq::<T>::empty(),
            h.max_slices() == max_slices,
    {
        SliceHistory { slices: VecDeque::new(), max_slices }
    }

    /// The number of slices held.
    pub fn len(&self) -> (n: usize)
        ensures
            n == self@.len(),
    {
        self.slices.len()
    }

    /// The most slices the history keeps.
    pub fn capacity(&self) -> (n: usize)
        ensures
            n == self.max_slices(),
    {
        self.max_slices
    }

    /// The slice `age` steps old (0 is the newest).
    pub fn get(&self, age: usize) -> (slice: &T)
        requires
            age < self@.len(),
        ensures
            *slice == self@[age as int],
    {
        &self.slices[age]
    }

    /// The newest slice, if any.
    pub fn newest(&self) -> (slice: Option<&T>)
        ensures
            match slice {
                Some(s) => self@.len() > 0 && *s == self@[0],
                None => self@.len() == 0,
            },
    {
        if self.slices.len() > 0 {
            Some(&self.slices[0])
        } else {
            None
        }
    }

    /// Removes and returns the oldest slice, so that its storage can be reused for
    /// the next analysis.
    pub fn take_oldest(&mut self) -> (slice: Option<T>)
        ensures
            final(self).max_slices() == old(self).max_slices(),
            match slice {
                Some(s) => {
                    &&& old(self)@.len() > 0
                    &&& s == old(self)@.last()
                    &&& final(self)@ == old(self)@.drop_last()
                },
                None => {
                    &&& old(self)@.len() == 0
                    &&& final(self)@ == old(self)@
                },
            },
    {
        self.slices.pop_back()
    }

    /// Adds `slice` as the newest, then drops the oldest slices beyond the limit.
    pub fn push_newest(&mut self, slice: T)
        ensures
            final(self).max_slices() == old(self).max_slices(),
            final(self)@ == bounded(seq![slice] + old(self)@, old(self).max_slices()),
            final(self)@.len() <= old(self).max_slices(),
    {
        self.slices.push_front(slice);
        let ghost grown = self.slices@;
        while self.slices.len() > self.max_slices
            invariant
                self.max_slices == old(self).max_slices,
                grown.len() > self.max_slices ==> self.max_slices <= self.slices@.len(),
                self.slices@ == grown.subrange(0, self.slices@.len() as int),
                self.slices@.len() <= grown.len(),
                grown.len() <= self.max_slices ==> self.slices@ == grown,
            decreases self.slices@.len(),
        {
            self.slices.pop_back();
        }
        assert(self.slices@ =~= bounded(grown, self.max_slices as nat));
    }
}

/// One analysis step of the spectrogram keeps its length: on a history of 1 to
/// `max` slices, recycling the oldest slice and adding the new one as the newest
/// leaves as many slices as before, the new one first and the others one step older.
pub proof fn lemma_step_keeps_length<T>(h: Seq<T>, slice: T, max: nat)
    requires
        1 <= h.len() <= max,
    ensures
        bounded(seq![slice] + h.drop_last(), max) == seq![slice] + h.drop_last(),
        bounded(seq![slice] + h.drop_last(), max).len() == h.len(),
        bounded(seq![slice] + h.drop_last(), max)[0] == slice,
        forall|k: int|
            1 <= k < h.len() ==> #[trigger] bounded(seq![slice] + h.drop_last(), max)[k] == h[k - 1],
{
}

} // verus!
