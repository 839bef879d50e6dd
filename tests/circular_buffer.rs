use strange_attractors::CircularBuffer;

#[test]
fn new_fills_every_rank_with_default() {
    let b: CircularBuffer<i32, 5> = CircularBuffer::new(7);
    for r in 0..5 {
        assert_eq!(*b.get(r), 7);
    }
}

#[test]
fn buffer_wraparound() {
    let mut b: CircularBuffer<i32, 4> = CircularBuffer::new(0);
    b.push(1);
    b.push(2);
    b.push(3);
    assert_eq!(*b.get(0), 3);
    assert_eq!(*b.get(1), 2);
    assert_eq!(*b.get(2), 1);
    assert_eq!(*b.get(3), 0);
    b.push(4);
    assert_eq!(*b.get(0), 4);
    assert_eq!(*b.get(1), 3);
    assert_eq!(*b.get(2), 2);
    assert_eq!(*b.get(3), 1);
}

#[test]
fn capacity_kept_over_many_pushes() {
    let mut b: CircularBuffer<u64, 3> = CircularBuffer::new(100);
    for m in 0..20u64 {
        for r in 0..3u64 {
            let expected = if r < m { m - 1 - r } else { 100 };
            assert_eq!(*b.get(r as usize), expected);
        }
        b.push(m);
    }
}

#[test]
fn capacity_one_keeps_latest() {
    let mut b: CircularBuffer<char, 1> = CircularBuffer::new('a');
    assert_eq!(*b.get(0), 'a');
    b.push('b');
    assert_eq!(*b.get(0), 'b');
    b.push('c');
    assert_eq!(*b.get(0), 'c');
}

#[test]
fn pushes_before_wrapping_keep_defaults() {
    let mut b: CircularBuffer<(i32, i32), 6> = CircularBuffer::new((9, 9));
    b.push((1, 2));
    b.push((3, 4));
    assert_eq!(*b.get(0), (3, 4));
    assert_eq!(*b.get(1), (1, 2));
    for r in 2..6 {
        assert_eq!(*b.get(r), (9, 9));
    }
}
