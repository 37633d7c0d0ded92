//! The delay line of the sliding DFT: a ring of the most recent samples, from
//! which the sample written a given number of pushes ago is read back.
use vstd::prelude::*;
use vstd::arithmetic::div_mod::{lemma_fundamental_div_mod, lemma_fundamental_div_mod_converse};

verus! {

/// The history `h` (most recent first) after one more sample `x` is written: `x`
/// comes first and the oldest entry falls out.
pub open spec fn shift<T>(h: Seq<T>, x: T) -> Seq<T>
    recommends
        h.len() >= 1,
{
    seq![x] + h.take(h.len() - 1)
}

/// The history `h` after the samples `xs` are written in order (`xs[0]` first).
pub open spec fn shift_all<T>(h: Seq<T>, xs: Seq<T>) -> Seq<T>
    decreases xs.len(),
{
    if xs.len() == 0 {
        h
    } else {
        shift(shift_all(h, xs.drop_last()), xs.last())
    }
}

/// A ring of `capacity` samples. Its view is the history of the ring, most recent
/// sample first: `self@[k]` is the sample written `k` pushes ago (or the fill value
/// where fewer than `k + 1` samples were written since the ring was made or reset).
pub struct SampleRing<T> {
    buffer: Vec<T>,
    index: usize,
}

impl<T> View for SampleRing<T> {
    type V = Seq<T>;

    closed spec fn view(&self) -> Seq<T> {
        Seq::new(
            self.buffer.len() as nat,
            |k: int|
                self.buffer@[if k <= self.index {
                    self.index - k
                } else {
                    self.index + self.buffer.len() - k
                }],
        )
    }
}

impl<T: Copy> SampleRing<T> {
    /// The ring's internal invariant.
    pub closed spec fn wf(self) -> bool {
        &&& 1 <= self.buffer.len() <= isize::MAX
        &&& self.index < self.buffer.len()
    }

    /// A ring for a delay line of `size` samples: it holds `size + 1` samples, all
    /// `fill`.
    pub fn new(size: usize, fill: T) -> (ring: Self)
        requires
            size < isize::MAX,
        ensures
            ring.wf(),
            ring@ == Seq::new((size + 1) as nat, |k: int| fill),
    {
        let mut buffer: Vec<T> = Vec::with_capacity(size + 1);
        let mut j: usize = 0;
        while j <= size
            invariant
                j <= size + 1,
                size < isize::MAX,
                buffer.len() == j,
                forall|m: int| 0 <= m < j ==> buffer@[m] == fill,
            decreases size + 1 - j,
        {
            buffer.push(fill);
            j = j + 1;
        }
        let ring = SampleRing { buffer, index: size };
        assert(ring@ =~= Seq::new((size + 1) as nat, |k: int| fill));
        ring
    }

    /// The number of samples the ring holds.
    pub fn capacity(&self) -> (n: usize)
        requires
            self.wf(),
        ensures
            n == self@.len(),
            n >= 1,
    {
        self.buffer.len()
    }

    /// Writes one sample: it becomes the most recent, and the oldest falls out.
    pub fn push(&mut self, sample: T)
        requires
            old(self).wf(),
        ensures
            final(self).wf(),
            final(self)@ == shift(old(self)@, sample),
    {
        let n = self.buffer.len();
        let next = if self.index + 1 == n {
            0
        } else {
            self.index + 1
        };
        self.index = next;
        self.buffer[next] = sample;
        assert(self@ =~= shift(old(self)@, sample));
    }

    /// Reads the sample written `delay` pushes ago, counting modulo the capacity
    /// (a negative delay counts from the other end of the ring).
    pub fn delayed(&self, delay: isize) -> (sample: T)
        requires
            self.wf(),
        ensures
            sample == self@[(delay as int) % (self@.len() as int)],
    {
        let n = self.buffer.len();
        let back: usize = if delay >= 0 {
            (delay as usize) % n
        } else {
            let a: usize = (-(delay + 1)) as usize;
            proof {
                let q = (a as int) / (n as int);
                let r = (a as int) % (n as int);
                lemma_fundamental_div_mod(a as int, n as int);
                assert((-q - 1) * n == -(q * n) - n) by (nonlinear_arith);
                lemma_fundamental_div_mod_converse(delay as int, n as int, -q - 1, n - 1 - r);
            }
            n - 1 - a % n
        };
        let position = if back <= self.index {
            self.index - back
        } else {
            self.index + n - back
        };
        self.buffer[position]
    }

    /// Overwrites every held sample with `fill`, as a freshly made ring.
    pub fn reset(&mut self, fill: T)
        requires
            old(self).wf(),
        ensures
            final(self).wf(),
            final(self)@ == Seq::new(old(self)@.len(), |k: int| fill),
    {
        let n = self.buffer.len();
        let mut j: usize = 0;
        while j < n
            invariant
                n == self.buffer.len(),
                1 <= n <= isize::MAX,
                j <= n,
                forall|m: int| 0 <= m < j ==> self.buffer@[m] == fill,
            decreases n - j,
        {
            self.buffer[j] = fill;
            j = j + 1;
        }
        self.index = n - 1;
        assert(self@ =~= Seq::new(old(self)@.len(), |k: int| fill));
    }
}

/// A ring reads back what was written: after the samples `xs` are written into a
/// ring whose history was `h`, the sample `k` pushes ago is `xs[xs.len() - 1 - k]`
/// while `k < xs.len()`, and the older history `h[k - xs.len()]` beyond that; the
/// capacity never changes.
pub proof fn lemma_ring_recalls_writes<T>(h: Seq<T>, xs: Seq<T>)
    requires
        h.len() >= 1,
    ensures
        shift_all(h, xs).len() == h.len(),
        forall|k: int|
            0 <= k < h.len() ==> #[trigger] shift_all(h, xs)[k] == if k < xs.len() {
                xs[xs.len() - 1 - k]
            } else {
                h[k - xs.len()]
            },
    decreases xs.len(),
{
    if xs.len() > 0 {
        let prev = xs.drop_last();
        lemma_ring_recalls_writes(h, prev);
        let before = shift_all(h, prev);
        assert forall|k: int| 0 <= k < h.len() implies #[trigger] shift_all(h, xs)[k] == if k
            < xs.len() {
            xs[xs.len() - 1 - k]
        } else {
            h[k - xs.len()]
        } by {
            if k > 0 {
                assert(shift_all(h, xs)[k] == before[k - 1]);
            }
        }
    }
}

} // verus!
