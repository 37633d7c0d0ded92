use katvisualizer::stft::{push_interleaved, CircularBuffer, StftHelper};

#[test]
fn new_buffer_reports_chunk_latency() {
    let buffer: CircularBuffer<f64> = CircularBuffer::new(4);
    assert_eq!(buffer.latency_samples(), 4);
}

#[test]
fn set_size_changes_latency() {
    let mut buffer: CircularBuffer<f64> = CircularBuffer::new(4);
    buffer.set_size(24);
    assert_eq!(buffer.latency_samples(), 24);
}

#[test]
fn latency_truncates_like_a_cast() {
    let size: usize = (u32::MAX as usize).wrapping_add(6);
    let buffer: CircularBuffer<f64> = CircularBuffer::new(size);
    assert_eq!(buffer.latency_samples(), size as u32);
}

#[test]
fn chunks_overlap_by_half() {
    let mut buffer: CircularBuffer<f64> = CircularBuffer::new(4);
    assert_eq!(buffer.push_sample(1.0), None);
    assert_eq!(buffer.push_sample(2.0), None);
    assert_eq!(buffer.push_sample(3.0), None);
    assert_eq!(buffer.push_sample(4.0), Some(vec![1.0, 2.0, 3.0, 4.0]));
    assert_eq!(buffer.push_sample(5.0), None);
    assert_eq!(buffer.push_sample(6.0), Some(vec![3.0, 4.0, 5.0, 6.0]));
    assert_eq!(buffer.push_sample(7.0), None);
    assert_eq!(buffer.push_sample(8.0), Some(vec![5.0, 6.0, 7.0, 8.0]));
}

#[test]
fn odd_chunk_size_hops_by_floor_half() {
    let mut buffer: CircularBuffer<i32> = CircularBuffer::new(3);
    let mut out = Vec::new();
    for s in 0..9 {
        if let Some(chunk) = buffer.push_sample(s) {
            out.push(chunk);
        }
    }
    // hop is 1: windows start at 0, 1, 2, ...
    assert_eq!(out, vec![vec![0, 1, 2], vec![1, 2, 3], vec![2, 3, 4], vec![3, 4, 5], vec![4, 5, 6], vec![5, 6, 7], vec![6, 7, 8]]);
}

#[test]
fn chunk_size_one_never_drops() {
    let mut buffer: CircularBuffer<i32> = CircularBuffer::new(1);
    assert_eq!(buffer.push_sample(7), Some(vec![7]));
    assert_eq!(buffer.push_sample(8), Some(vec![7]));
    assert_eq!(buffer.push_sample(9), Some(vec![7]));
}

#[test]
fn chunk_size_zero_yields_empty_chunks() {
    let mut buffer: CircularBuffer<i32> = CircularBuffer::new(0);
    assert_eq!(buffer.push_sample(1), Some(vec![]));
}

#[test]
fn shrinking_keeps_buffered_samples() {
    let mut buffer: CircularBuffer<i32> = CircularBuffer::new(8);
    for s in 0..5 {
        assert_eq!(buffer.push_sample(s), None);
    }
    buffer.set_size(4);
    assert_eq!(buffer.push_sample(5), Some(vec![0, 1, 2, 3]));
    assert_eq!(buffer.push_sample(6), Some(vec![2, 3, 4, 5]));
}

#[test]
fn interleaved_frames_feed_both_chunkers() {
    let mut left: CircularBuffer<i32> = CircularBuffer::new(2);
    let mut right: CircularBuffer<i32> = CircularBuffer::new(2);
    let chunks = push_interleaved(&mut left, &mut right, &[1, -1, 2, -2, 3, -3, 4, -4, 5]);
    assert_eq!(
        chunks,
        vec![(vec![1, 2], vec![-1, -2]), (vec![2, 3], vec![-2, -3]), (vec![3, 4], vec![-3, -4])]
    );
    // the unpaired trailing sample was not pushed
    assert_eq!(left.push_sample(9), Some(vec![4, 9]));
}

#[test]
fn interleaved_chunks_need_both_channels() {
    let mut left: CircularBuffer<i32> = CircularBuffer::new(2);
    let mut right: CircularBuffer<i32> = CircularBuffer::new(4);
    let chunks = push_interleaved(&mut left, &mut right, &[1, 10, 2, 20, 3, 30]);
    assert!(chunks.is_empty());
    let chunks = push_interleaved(&mut left, &mut right, &[4, 40]);
    assert_eq!(chunks, vec![(vec![3, 4], vec![10, 20, 30, 40])]);
}

#[test]
fn interleaved_f64_samples() {
    let mut left: CircularBuffer<f64> = CircularBuffer::new(2);
    let mut right: CircularBuffer<f64> = CircularBuffer::new(2);
    let chunks = push_interleaved(&mut left, &mut right, &[0.5, 0.25, 1.0, 0.75]);
    assert_eq!(chunks, vec![(vec![0.5, 1.0], vec![0.25, 0.75])]);
}

#[test]
fn stft_helper_is_cloneable() {
    let helper = StftHelper {};
    let _copy = helper.clone();
}

#[test]
fn chunk_calls_follow_hop_pattern() {
    // chunk size 5, hop 2: chunks on pushes 5, 7, 9, ..., each the latest 5 samples
    let mut buffer: CircularBuffer<u64> = CircularBuffer::new(5);
    for n in 1..=12u64 {
        let out = buffer.push_sample(n);
        if n >= 5 && (n - 5) % 2 == 0 {
            assert_eq!(out, Some((n - 4..=n).collect::<Vec<u64>>()));
        } else {
            assert_eq!(out, None);
        }
    }
}
