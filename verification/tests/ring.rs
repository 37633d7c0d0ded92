use katvisualizer::ring::SampleRing;

#[test]
fn new_ring_holds_fill() {
    let ring = SampleRing::new(3, 0.0_f64);
    assert_eq!(ring.capacity(), 4);
    for d in 0..4 {
        assert_eq!(ring.delayed(d), 0.0);
    }
}

#[test]
fn ring_reads_back_writes() {
    let mut ring = SampleRing::new(3, 0);
    ring.push(1);
    ring.push(2);
    ring.push(3);
    assert_eq!(ring.delayed(0), 3);
    assert_eq!(ring.delayed(1), 2);
    assert_eq!(ring.delayed(2), 1);
    assert_eq!(ring.delayed(3), 0);
}

#[test]
fn ring_forgets_oldest() {
    let mut ring = SampleRing::new(2, 0);
    for s in 1..=5 {
        ring.push(s);
    }
    assert_eq!(ring.delayed(0), 5);
    assert_eq!(ring.delayed(1), 4);
    assert_eq!(ring.delayed(2), 3);
}

#[test]
fn delays_wrap_modulo_capacity() {
    let mut ring = SampleRing::new(3, 0);
    for s in 1..=4 {
        ring.push(s);
    }
    assert_eq!(ring.delayed(4), 4);
    assert_eq!(ring.delayed(5), 3);
    assert_eq!(ring.delayed(-1), 1);
    assert_eq!(ring.delayed(-4), 4);
    assert_eq!(ring.delayed(isize::MIN), ring.delayed((isize::MIN as i128).rem_euclid(4) as isize));
}

#[test]
fn reset_restores_fill() {
    let mut ring = SampleRing::new(3, 0.0_f64);
    ring.push(1.5);
    ring.push(2.5);
    ring.reset(0.0);
    for d in 0..4 {
        assert_eq!(ring.delayed(d), 0.0);
    }
    ring.push(7.0);
    assert_eq!(ring.delayed(0), 7.0);
    assert_eq!(ring.delayed(1), 0.0);
}

#[test]
fn zero_size_ring_holds_one_sample() {
    let mut ring = SampleRing::new(0, 0);
    assert_eq!(ring.capacity(), 1);
    ring.push(9);
    assert_eq!(ring.delayed(0), 9);
    assert_eq!(ring.delayed(5), 9);
}
