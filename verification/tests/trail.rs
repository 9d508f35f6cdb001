use geodesic_wallpaper::trail::RingBuffer;

#[test]
fn ring_keeps_latest_items_oldest_first() {
    let mut b = RingBuffer::new(3, 0u32);
    assert_eq!(b.len(), 0);
    for v in 1..=2 {
        b.push(v);
    }
    assert_eq!(b.ordered(), vec![1, 2]);
    for v in 3..=5 {
        b.push(v);
    }
    assert_eq!(b.ordered(), vec![3, 4, 5]);
    assert_eq!(b.len(), 3);
    assert_eq!(b.capacity(), 3);
    b.clear();
    assert_eq!(b.ordered(), Vec::<u32>::new());
    b.push(9);
    assert_eq!(b.ordered(), vec![9]);
}

#[test]
fn ring_of_one_holds_the_newest() {
    let mut b = RingBuffer::new(1, 'a');
    b.push('x');
    b.push('y');
    assert_eq!(b.ordered(), vec!['y']);
}

#[test]
fn ring_without_capacity_stays_empty() {
    let mut b = RingBuffer::new(0, 0u8);
    assert_eq!(b.capacity(), 0);
    assert_eq!(b.len(), 0);
    b.clear();
    assert_eq!(b.ordered(), Vec::<u8>::new());
}
