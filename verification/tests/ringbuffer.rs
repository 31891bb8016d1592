use smag::ringbuffer::FixedRingBuffer;

#[test]
pub fn test_basic_push() {
    let mut ringbuffer = FixedRingBuffer::new(3);
    let expect = vec![
        vec![0],
        vec![0, 1],
        vec![0, 1, 2],
        vec![1, 2, 3],
        vec![2, 3, 4],
        vec![3, 4, 5],
        vec![4, 5, 6],
        vec![5, 6, 7],
        vec![6, 7, 8],
        vec![7, 8, 9],
    ];
    for (x, expect) in (0..10).zip(expect.iter()) {
        ringbuffer.push(x);
        assert_eq!(ringbuffer.as_slice(), expect.as_slice());
    }
}

#[test]
fn test_len_tracks_window() {
    let mut rb: FixedRingBuffer<u64> = FixedRingBuffer::new(4);
    assert_eq!(rb.len(), 0);
    for i in 0..10u64 {
        rb.push(i);
        let expected = if i + 1 < 4 { i as usize + 1 } else { 4 };
        assert_eq!(rb.len(), expected);
    }
}

#[test]
fn test_last_is_most_recent() {
    let mut rb: FixedRingBuffer<i64> = FixedRingBuffer::new(2);
    rb.push(7);
    assert_eq!(*rb.last(), 7);
    rb.push(-3);
    assert_eq!(*rb.last(), -3);
    rb.push(12);
    assert_eq!(*rb.last(), 12);
    assert_eq!(rb.as_slice(), &[-3, 12]);
}

#[test]
fn test_iter_matches_slice() {
    let mut rb: FixedRingBuffer<u32> = FixedRingBuffer::new(3);
    for i in 0..7u32 {
        rb.push(i);
    }
    let collected: Vec<u32> = rb.iter().copied().collect();
    assert_eq!(collected, vec![4, 5, 6]);
}

#[test]
fn test_capacity_one_keeps_newest() {
    let mut rb: FixedRingBuffer<u8> = FixedRingBuffer::new(1);
    for i in 0..5u8 {
        rb.push(i);
        assert_eq!(rb.as_slice(), &[i]);
    }
}
