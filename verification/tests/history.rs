use katvisualizer::history::SliceHistory;

#[test]
fn push_keeps_newest_first() {
    let mut h = SliceHistory::new(3);
    h.push_newest(1);
    h.push_newest(2);
    assert_eq!(h.len(), 2);
    assert_eq!(*h.get(0), 2);
    assert_eq!(*h.get(1), 1);
    assert_eq!(h.newest(), Some(&2));
}

#[test]
fn push_drops_beyond_limit() {
    let mut h = SliceHistory::new(2);
    for s in 1..=4 {
        h.push_newest(s);
    }
    assert_eq!(h.len(), 2);
    assert_eq!(h.capacity(), 2);
    assert_eq!(*h.get(0), 4);
    assert_eq!(*h.get(1), 3);
}

#[test]
fn zero_limit_keeps_nothing() {
    let mut h = SliceHistory::new(0);
    h.push_newest(1);
    assert_eq!(h.len(), 0);
    assert_eq!(h.newest(), None);
}

#[test]
fn recycling_step_keeps_length() {
    let mut h = SliceHistory::new(3);
    for s in 1..=3 {
        h.push_newest(s);
    }
    let oldest = h.take_oldest();
    assert_eq!(oldest, Some(1));
    h.push_newest(10);
    assert_eq!(h.len(), 3);
    assert_eq!((*h.get(0), *h.get(1), *h.get(2)), (10, 3, 2));
}

#[test]
fn take_from_empty() {
    let mut h: SliceHistory<Vec<f32>> = SliceHistory::new(4);
    assert_eq!(h.take_oldest(), None);
    assert_eq!(h.len(), 0);
}
