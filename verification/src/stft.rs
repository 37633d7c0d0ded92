//! Sample chunking for the analysis chain: a stream of samples is cut into
//! fixed-size chunks that overlap by half a chunk.
use std::collections::VecDeque;
use vstd::prelude::*;
use vstd::arithmetic::div_mod::lemma_fundamental_div_mod_converse;

verus! {

/// Short-time Fourier transform helper of the analysis chain. The browser chain cuts
/// its input with [`CircularBuffer`] instead, so this type carries no state.
#[derive(Clone)]
pub struct StftHelper {}

/// One push of a sample into a chunker whose buffer holds `buffered`: the sample is
/// appended; once at least `chunk_size` samples are held, the first `chunk_size` of
/// them are handed out and the first `hop_size` of them are dropped.
/// The result is the new buffer and the chunk handed out, if any.
pub open spec fn chunk_step<T>(buffered: Seq<T>, chunk_size: nat, hop_size: nat, sample: T) -> (
    Seq<T>,
    Option<Seq<T>>,
) {
    let grown = buffered.push(sample);
    if grown.len() >= chunk_size {
        (grown.subrange(hop_size as int, grown.len() as int), Some(grown.subrange(0, chunk_size as int)))
    } else {
        (grown, None)
    }
}

/// Buffers incoming samples and hands out chunks of `chunk_size` samples that
/// overlap by 50%: after each chunk, half a chunk (`chunk_size / 2`) is dropped.
pub struct CircularBuffer<T> {
    buffer: VecDeque<T>,
    chunk_size: usize,
}

impl<T: Copy> CircularBuffer<T> {
    /// The samples currently held, oldest first.
    pub closed spec fn buffered(self) -> Seq<T> {
        self.buffer@
    }

    /// The number of samples in each chunk handed out.
    pub closed spec fn chunk_size(self) -> nat {
        self.chunk_size as nat
    }

    /// The number of samples dropped after each chunk: half a chunk.
    pub open spec fn hop_size(self) -> nat {
        self.chunk_size() / 2
    }

    /// An empty chunker for chunks of `chunk_size` samples.
    pub fn new(chunk_size: usize) -> (result: Self)
        ensures
            result.buffered() == Seq::<T>::empty(),
            result.chunk_size() == chunk_size,
    {
        CircularBuffer { buffer: VecDeque::new(), chunk_size }
    }

    /// Changes the chunk size (and with it the hop size); the buffered samples stay.
    pub fn set_size(&mut self, chunk_size: usize)
        ensures
            final(self).buffered() == old(self).buffered(),
            final(self).chunk_size() == chunk_size,
    {
        self.chunk_size = chunk_size;
    }

    /// The latency that the chunker adds, in samples: one chunk, as a `u32`
    /// (truncated like an `as` cast).
    pub fn latency_samples(&self) -> (result: u32)
        ensures
            result == self.chunk_size() as u32,
    {
        self.chunk_size as u32
    }

    /// Appends one sample; once a full chunk is held, returns the oldest `chunk_size`
    /// samples and drops the oldest `hop_size` of them.
    pub fn push_sample(&mut self, sample: T) -> (result: Option<Vec<T>>)
        ensures
            final(self).chunk_size() == old(self).chunk_size(),
            ({
                let (next, out) = chunk_step(
                    old(self).buffered(),
                    old(self).chunk_size(),
                    old(self).hop_size(),
                    sample,
                );
                &&& final(self).buffered() == next
                &&& match result {
                    Some(chunk) => out == Some(chunk@),
                    None => out is None,
                }
            }),
    {
        self.buffer.push_back(sample);
        if self.buffer.len() >= self.chunk_size {
            let ghost grown = self.buffer@;
            let mut chunk: Vec<T> = Vec::with_capacity(self.chunk_size);
            let mut i: usize = 0;
            while i < self.chunk_size
                invariant
                    self.buffer@ == grown,
                    self.chunk_size == old(self).chunk_size,
                    i <= self.chunk_size <= grown.len(),
                    chunk@ == grown.subrange(0, i as int),
                decreases self.chunk_size - i,
            {
                chunk.push(self.buffer[i]);
                i = i + 1;
            }
            let hop = self.chunk_size / 2;
            let mut k: usize = 0;
            while k < hop
                invariant
                    k <= hop <= grown.len(),
                    hop == self.chunk_size / 2,
                    self.chunk_size == old(self).chunk_size,
                    self.buffer@ == grown.subrange(k as int, grown.len() as int),
                decreases hop - k,
            {
                self.buffer.pop_front();
                k = k + 1;
            }
            Some(chunk)
        } else {
            None
        }
    }
}

/// The state of a chunker for chunks of `chunk_size` samples that started empty and
/// was given `samples` one by one: the samples it still holds and the chunks it
/// handed out, in order.
pub open spec fn chunk_stream<T>(chunk_size: nat, samples: Seq<T>) -> (Seq<T>, Seq<Seq<T>>)
    decreases samples.len(),
{
    if samples.len() == 0 {
        (Seq::empty(), Seq::empty())
    } else {
        let prev = chunk_stream(chunk_size, samples.drop_last());
        let (next, out) = chunk_step(prev.0, chunk_size, chunk_size / 2, samples.last());
        (
            next,
            match out {
                Some(chunk) => prev.1.push(chunk),
                None => prev.1,
            },
        )
    }
}

/// `chunk` is the run of `len` samples of `samples` that starts at `start`.
pub open spec fn is_window<T>(samples: Seq<T>, start: int, len: int, chunk: Seq<T>) -> bool {
    &&& 0 <= start
    &&& 0 <= len
    &&& start + len <= samples.len()
    &&& chunk == samples.subrange(start, start + len)
}

/// Chunks are overlapping windows of the stream: with chunks of at least two
/// samples, the `k`-th chunk handed out is samples `k * hop .. k * hop + chunk_size`
/// of the stream (`hop = chunk_size / 2`), and what is left in the buffer is the
/// tail of the stream after the last hop, shorter than a chunk (and, once a chunk
/// has been handed out, at least `chunk_size - hop` long).
pub proof fn lemma_chunks_are_overlapping_windows<T>(chunk_size: nat, samples: Seq<T>)
    requires
        chunk_size >= 2,
    ensures
        ({
            let (rest, chunks) = chunk_stream(chunk_size, samples);
            let hop = chunk_size / 2;
            &&& rest.len() < chunk_size
            &&& chunks.len() > 0 ==> rest.len() + hop >= chunk_size
            &&& chunks.len() * hop + rest.len() == samples.len()
            &&& rest == samples.subrange((chunks.len() * hop) as int, samples.len() as int)
            &&& forall|k: int|
                0 <= k < chunks.len() ==> is_window(samples, k * hop, chunk_size as int, #[trigger] chunks[k])
        }),
    decreases samples.len(),
{
    let hop = chunk_size / 2;
    if samples.len() > 0 {
        let prefix = samples.drop_last();
        lemma_chunks_are_overlapping_windows(chunk_size, prefix);
        let (rest, chunks) = chunk_stream(chunk_size, prefix);
        let kk = chunks.len() as int;
        let n = samples.len() as int;
        let grown = rest.push(samples.last());
        assert(0 <= kk * hop) by (nonlinear_arith)
            requires
                0 <= kk,
                0 <= hop,
        ;
        assert(grown =~= samples.subrange(kk * hop, n));
        let (rest2, chunks2) = chunk_stream(chunk_size, samples);
        if grown.len() >= chunk_size {
            assert((kk + 1) * hop == kk * hop + hop) by (nonlinear_arith);
            assert(0 <= kk * hop + hop);
            assert(grown.len() == chunk_size);
            assert(grown.subrange(0, chunk_size as int) =~= samples.subrange(
                kk * hop,
                kk * hop + chunk_size,
            ));
            assert(grown.subrange(hop as int, grown.len() as int) =~= samples.subrange(
                (kk + 1) * hop,
                n,
            ));
            assert(chunks2 == chunks.push(grown.subrange(0, chunk_size as int)));
            assert(rest2 == grown.subrange(hop as int, grown.len() as int));
            assert(chunks2.len() * hop + rest2.len() == n);
            assert forall|k: int| 0 <= k < chunks2.len() implies is_window(samples, k * hop, chunk_size as int, #[trigger] chunks2[k]) by {
                if k < kk {
                    assert(chunks2[k] == chunks[k]);
                    assert(is_window(prefix, k * hop, chunk_size as int, chunks[k]));
                    assert(prefix.subrange(k * hop, k * hop + chunk_size) =~= samples.subrange(
                        k * hop,
                        k * hop + chunk_size,
                    ));
                }
            }
        } else {
            assert(chunks2 == chunks);
            assert(rest2 == grown);
            assert forall|k: int| 0 <= k < chunks2.len() implies is_window(samples, k * hop, chunk_size as int, #[trigger] chunks2[k]) by {
                assert(is_window(prefix, k * hop, chunk_size as int, chunks[k]));
                assert(prefix.subrange(k * hop, k * hop + chunk_size) =~= samples.subrange(
                    k * hop,
                    k * hop + chunk_size,
                ));
            }
        }
    } else {
        let (rest, chunks) = chunk_stream(chunk_size, samples);
        assert(chunks.len() == 0);
        assert(chunks.len() * hop == 0);
        assert(rest =~= samples.subrange(0, 0));
    }
}

/// What `push_interleaved` does with the first `frames` frames of an interleaved
/// stereo `input` (left, right, left, right, ...), starting from chunkers holding
/// `left` and `right`: the samples each then holds, and the pairs of chunks that
/// both chunkers handed out on the same frame, in order.
pub open spec fn interleaved_run<T>(
    left: Seq<T>,
    right: Seq<T>,
    left_chunk: nat,
    right_chunk: nat,
    input: Seq<T>,
    frames: nat,
) -> (Seq<T>, Seq<T>, Seq<(Seq<T>, Seq<T>)>)
    decreases frames,
{
    if frames == 0 {
        (left, right, Seq::empty())
    } else {
        let f = frames - 1;
        let (l, r, out) = interleaved_run(left, right, left_chunk, right_chunk, input, f as nat);
        let (l2, lo) = chunk_step(l, left_chunk, left_chunk / 2, input[2 * f as int]);
        let (r2, ro) = chunk_step(r, right_chunk, right_chunk / 2, input[2 * f as int + 1]);
        (
            l2,
            r2,
            match (lo, ro) {
                (Some(a), Some(b)) => out.push((a, b)),
                _ => out,
            },
        )
    }
}

/// The samples of one channel in the first `frames` frames of an interleaved stereo
/// stream: `offset` 0 for the left channel (even positions), 1 for the right (odd).
pub open spec fn channel<T>(input: Seq<T>, frames: nat, offset: int) -> Seq<T> {
    Seq::new(frames, |j: int| input[2 * j + offset])
}

/// The pairs of chunks that two chunkers (chunk sizes `left_chunk` and
/// `right_chunk`, both started empty) hand out on the same frame when fed the
/// channels `left` and `right` sample by sample, in order.
pub open spec fn same_frame_pairs<T>(left_chunk: nat, right_chunk: nat, left: Seq<T>, right: Seq<T>) -> Seq<
    (Seq<T>, Seq<T>),
>
    decreases left.len(),
{
    if left.len() == 0 || right.len() == 0 {
        Seq::empty()
    } else {
        let prev = same_frame_pairs(left_chunk, right_chunk, left.drop_last(), right.drop_last());
        let lo = chunk_step(chunk_stream(left_chunk, left.drop_last()).0, left_chunk, left_chunk / 2, left.last()).1;
        let ro = chunk_step(chunk_stream(right_chunk, right.drop_last()).0, right_chunk, right_chunk / 2, right.last()).1;
        match (lo, ro) {
            (Some(a), Some(b)) => prev.push((a, b)),
            _ => prev,
        }
    }
}

/// The two channels of an interleaved stream are chunked independently: starting
/// from empty chunkers, after `frames` frames the left chunker is in the state
/// `chunk_stream` gives for the even-position samples, the right one for the
/// odd-position samples, and the pairs handed out are the chunks both channels
/// emitted on the same frame.
pub proof fn lemma_interleaved_channels_independent<T>(
    left_chunk: nat,
    right_chunk: nat,
    input: Seq<T>,
    frames: nat,
)
    requires
        2 * frames <= input.len(),
    ensures
        ({
            let (l, r, out) = interleaved_run(Seq::empty(), Seq::empty(), left_chunk, right_chunk, input, frames);
            let ls = channel(input, frames, 0);
            let rs = channel(input, frames, 1);
            &&& l == chunk_stream(left_chunk, ls).0
            &&& r == chunk_stream(right_chunk, rs).0
            &&& out == same_frame_pairs(left_chunk, right_chunk, ls, rs)
        }),
    decreases frames,
{
    let ls = channel(input, frames, 0);
    let rs = channel(input, frames, 1);
    if frames == 0 {
        assert(ls =~= Seq::<T>::empty());
        assert(rs =~= Seq::<T>::empty());
    } else {
        let f = (frames - 1) as nat;
        lemma_interleaved_channels_independent(left_chunk, right_chunk, input, f);
        assert(ls.drop_last() =~= channel(input, f, 0));
        assert(rs.drop_last() =~= channel(input, f, 1));
        assert(ls.last() == input[2 * f as int]);
        assert(rs.last() == input[2 * f as int + 1]);
    }
}

/// The buffer of a chunker (chunks of `chunk_size`) that held `start`, after the
/// samples `s` are pushed into it one by one with `push_sample`.
pub open spec fn chunk_fold<T>(start: Seq<T>, chunk_size: nat, s: Seq<T>) -> Seq<T>
    decreases s.len(),
{
    if s.len() == 0 {
        start
    } else {
        chunk_step(chunk_fold(start, chunk_size, s.drop_last()), chunk_size, chunk_size / 2, s.last()).0
    }
}

/// The chunk (if any) that the push of the last sample of `s` hands out, for a
/// chunker that held `start` before `s` was pushed.
pub open spec fn last_push_output<T>(start: Seq<T>, chunk_size: nat, s: Seq<T>) -> Option<Seq<T>> {
    chunk_step(chunk_fold(start, chunk_size, s.drop_last()), chunk_size, chunk_size / 2, s.last()).1
}

/// The pairs of chunks that a left and a right chunker (holding `left_start` and
/// `right_start` at first) hand out on the same push, when fed `left` and `right`
/// sample by sample, in order.
pub open spec fn paired_outputs<T>(
    left_start: Seq<T>,
    right_start: Seq<T>,
    left_chunk: nat,
    right_chunk: nat,
    left: Seq<T>,
    right: Seq<T>,
) -> Seq<(Seq<T>, Seq<T>)>
    decreases left.len(),
{
    if left.len() == 0 || right.len() == 0 {
        Seq::empty()
    } else {
        let prev = paired_outputs(
            left_start,
            right_start,
            left_chunk,
            right_chunk,
            left.drop_last(),
            right.drop_last(),
        );
        match (
            last_push_output(left_start, left_chunk, left),
            last_push_output(right_start, right_chunk, right),
        ) {
            (Some(a), Some(b)) => prev.push((a, b)),
            _ => prev,
        }
    }
}

/// Every frame reaches both chunkers: from any starting buffers, after `frames`
/// frames the left chunker holds what pushing the even-position samples one by one
/// leaves, the right one what pushing the odd-position samples leaves, and the
/// pairs handed out are the chunks both emitted on the same frame.
pub proof fn lemma_interleaved_pushes_every_frame<T>(
    left: Seq<T>,
    right: Seq<T>,
    left_chunk: nat,
    right_chunk: nat,
    input: Seq<T>,
    frames: nat,
)
    requires
        2 * frames <= input.len(),
    ensures
        ({
            let (l, r, out) = interleaved_run(left, right, left_chunk, right_chunk, input, frames);
            let ls = channel(input, frames, 0);
            let rs = channel(input, frames, 1);
            &&& l == chunk_fold(left, left_chunk, ls)
            &&& r == chunk_fold(right, right_chunk, rs)
            &&& out == paired_outputs(left, right, left_chunk, right_chunk, ls, rs)
        }),
    decreases frames,
{
    let ls = channel(input, frames, 0);
    let rs = channel(input, frames, 1);
    if frames == 0 {
        assert(ls =~= Seq::<T>::empty());
        assert(rs =~= Seq::<T>::empty());
    } else {
        let f = (frames - 1) as nat;
        lemma_interleaved_pushes_every_frame(left, right, left_chunk, right_chunk, input, f);
        assert(ls.drop_last() =~= channel(input, f, 0));
        assert(rs.drop_last() =~= channel(input, f, 1));
        assert(ls.last() == input[2 * f as int]);
        assert(rs.last() == input[2 * f as int + 1]);
    }
}

/// Feeds interleaved stereo samples (left, right, left, right, ...) frame by frame
/// into a left and a right chunker; a trailing unpaired sample is ignored. Returns
/// the pairs of chunks that both chunkers handed out on the same frame, in order.
pub fn push_interleaved<T: Copy>(
    left: &mut CircularBuffer<T>,
    right: &mut CircularBuffer<T>,
    input: &[T],
) -> (chunks: Vec<(Vec<T>, Vec<T>)>)
    ensures
        final(left).chunk_size() == old(left).chunk_size(),
        final(right).chunk_size() == old(right).chunk_size(),
        ({
            let (l, r, out) = interleaved_run(
                old(left).buffered(),
                old(right).buffered(),
                old(left).chunk_size(),
                old(right).chunk_size(),
                input@,
                (input.len() / 2) as nat,
            );
            &&& final(left).buffered() == l
            &&& final(right).buffered() == r
            &&& chunks.len() == out.len()
            &&& forall|k: int|
                0 <= k < out.len() ==> (#[trigger] chunks[k]).0@ == out[k].0 && chunks[k].1@
                    == out[k].1
        }),
        ({
            let frames = (input.len() / 2) as nat;
            let ls = channel(input@, frames, 0);
            let rs = channel(input@, frames, 1);
            let pairs = paired_outputs(
                old(left).buffered(),
                old(right).buffered(),
                old(left).chunk_size(),
                old(right).chunk_size(),
                ls,
                rs,
            );
            &&& final(left).buffered() == chunk_fold(old(left).buffered(), old(left).chunk_size(), ls)
            &&& final(right).buffered() == chunk_fold(old(right).buffered(), old(right).chunk_size(), rs)
            &&& chunks.len() == pairs.len()
            &&& forall|k: int|
                0 <= k < pairs.len() ==> (#[trigger] chunks[k]).0@ == pairs[k].0 && chunks[k].1@
                    == pairs[k].1
        }),
{
    let frames = input.len() / 2;
    let mut chunks: Vec<(Vec<T>, Vec<T>)> = Vec::new();
    let mut i: usize = 0;
    while i < frames
        invariant
            frames == input.len() / 2,
            i <= frames,
            left.chunk_size() == old(left).chunk_size(),
            right.chunk_size() == old(right).chunk_size(),
            ({
                let (l, r, out) = interleaved_run(
                    old(left).buffered(),
                    old(right).buffered(),
                    old(left).chunk_size(),
                    old(right).chunk_size(),
                    input@,
                    i as nat,
                );
                &&& left.buffered() == l
                &&& right.buffered() == r
                &&& chunks.len() == out.len()
                &&& forall|k: int|
                    0 <= k < out.len() ==> (#[trigger] chunks[k]).0@ == out[k].0 && chunks[k].1@
                        == out[k].1
            }),
        decreases frames - i,
    {
        let l = input[i * 2];
        let r = input[i * 2 + 1];
        let ghost prev = interleaved_run(
            old(left).buffered(),
            old(right).buffered(),
            old(left).chunk_size(),
            old(right).chunk_size(),
            input@,
            i as nat,
        );
        let l_chunk = left.push_sample(l);
        let r_chunk = right.push_sample(r);
        match (l_chunk, r_chunk) {
            (Some(l_data), Some(r_data)) => {
                chunks.push((l_data, r_data));
            },
            _ => {},
        }
        proof {
            let next = interleaved_run(
                old(left).buffered(),
                old(right).buffered(),
                old(left).chunk_size(),
                old(right).chunk_size(),
                input@,
                (i + 1) as nat,
            );
            assert(next.2.len() == chunks.len());
            assert forall|k: int| 0 <= k < next.2.len() implies (#[trigger] chunks[k]).0@
                == next.2[k].0 && chunks[k].1@ == next.2[k].1 by {
                if k < prev.2.len() {
                }
            }
        }
        i = i + 1;
    }
    proof {
        lemma_interleaved_pushes_every_frame(
            old(left).buffered(),
            old(right).buffered(),
            old(left).chunk_size(),
            old(right).chunk_size(),
            input@,
            frames as nat,
        );
    }
    chunks
}

/// Each call of `push_sample` on a chunker for chunks of `chunk_size >= 2` samples
/// that started empty: if the samples pushed before are `prefix` and the call pushes
/// `sample` as the `n`-th sample, it hands out a chunk exactly when `n >= chunk_size`
/// and `n - chunk_size` is a multiple of the hop (`chunk_size / 2`), and that chunk
/// is the latest `chunk_size` samples. The state afterwards is that of the stream
/// with `sample` appended.
pub proof fn lemma_push_sample_call_form<T>(chunk_size: nat, prefix: Seq<T>, sample: T)
    requires
        chunk_size >= 2,
    ensures
        ({
            let n = prefix.len() + 1;
            let hop = chunk_size / 2;
            let stream = prefix.push(sample);
            let (next, out) = chunk_step(chunk_stream(chunk_size, prefix).0, chunk_size, hop, sample);
            &&& next == chunk_stream(chunk_size, stream).0
            &&& (out is Some <==> (n >= chunk_size && (n - chunk_size) % (hop as int) == 0))
            &&& out is Some ==> out == Some(stream.subrange(n - chunk_size, n as int))
        }),
{
    let hop = chunk_size / 2;
    let n = prefix.len() + 1;
    let stream = prefix.push(sample);
    assert(stream.drop_last() =~= prefix);
    lemma_chunks_are_overlapping_windows(chunk_size, prefix);
    let (rest, chunks) = chunk_stream(chunk_size, prefix);
    let kk = chunks.len() as int;
    let grown = rest.push(sample);
    assert(0 <= kk * hop) by (nonlinear_arith)
        requires
            0 <= kk,
            0 <= hop,
    ;
    assert(grown =~= stream.subrange(kk * hop, n as int));
    let m = grown.len() as int;
    assert(m == n - kk * hop);
    if m >= chunk_size {
        assert(m == chunk_size);
        assert(n - chunk_size == kk * hop);
        lemma_fundamental_div_mod_converse(n - chunk_size, hop as int, kk, 0);
        assert(grown.subrange(0, chunk_size as int) =~= stream.subrange(n - chunk_size, n as int));
    } else if n >= chunk_size {
        if kk == 0 {
            assert(kk * hop == 0) by (nonlinear_arith)
                requires
                    kk == 0,
            ;
        }
        assert(kk > 0);
        assert(m + hop >= chunk_size + 1);
        let r = hop + m - chunk_size;
        assert(0 < r < hop);
        assert(n - chunk_size == (kk - 1) * hop + r) by (nonlinear_arith)
            requires
                m == n - kk * hop,
                r == hop + m - chunk_size,
        ;
        lemma_fundamental_div_mod_converse(n - chunk_size, hop as int, kk - 1, r);
    }
}

} // verus!
