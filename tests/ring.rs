use delog::ring::{AtCapacity, RingBuffer};

fn drain_all(ring: &mut RingBuffer, len: usize) -> Vec<u8> {
    let mut buf = vec![0u8; len];
    let n = ring.drain_into(&mut buf);
    buf.truncate(n);
    buf
}

#[test]
fn new_ring_is_empty() {
    let ring = RingBuffer::new(16);
    assert_eq!(ring.capacity(), 16);
    assert_eq!((ring.read(), ring.written(), ring.claimed()), (0, 0, 0));
}

#[test]
fn round_trip_keeps_order() {
    let mut ring = RingBuffer::new(32);
    assert_eq!(ring.try_enqueue(b"abc"), Ok(()));
    assert_eq!(ring.try_enqueue(b"defg"), Ok(()));
    assert_eq!(ring.try_enqueue(b"h"), Ok(()));
    assert_eq!(drain_all(&mut ring, 32), b"abcdefgh".to_vec());
    assert_eq!((ring.read(), ring.written(), ring.claimed()), (8, 8, 8));
}

#[test]
fn round_trip_fills_capacity_exactly() {
    let mut ring = RingBuffer::new(10);
    assert_eq!(ring.try_enqueue(b"01234"), Ok(()));
    assert_eq!(ring.try_enqueue(b"56789"), Ok(()));
    assert_eq!(drain_all(&mut ring, 10), b"0123456789".to_vec());
}

#[test]
fn capacity_rejection_leaves_cursors() {
    let mut ring = RingBuffer::new(10);
    assert_eq!(ring.try_enqueue(b"1234567"), Ok(()));
    let before = (ring.read(), ring.written(), ring.claimed());
    assert_eq!(ring.try_enqueue(b"abcd"), Err(AtCapacity));
    assert_eq!((ring.read(), ring.written(), ring.claimed()), before);
    assert_eq!(ring.try_enqueue(b"abc"), Ok(()));
    assert_eq!(ring.try_enqueue(b"x"), Err(AtCapacity));
}

#[test]
fn entry_larger_than_capacity_is_refused() {
    let mut ring = RingBuffer::new(4);
    assert_eq!(ring.try_enqueue(b"hello"), Err(AtCapacity));
    assert_eq!(ring.claimed(), 0);
}

#[test]
fn drain_of_empty_ring_is_idempotent() {
    let mut ring = RingBuffer::new(8);
    assert_eq!(drain_all(&mut ring, 8), Vec::<u8>::new());
    assert_eq!(ring.read(), 0);
    assert_eq!(ring.try_enqueue(b"ab"), Ok(()));
    assert_eq!(drain_all(&mut ring, 8), b"ab".to_vec());
    assert_eq!(drain_all(&mut ring, 8), Vec::<u8>::new());
    assert_eq!(ring.read(), 2);
}

#[test]
fn wraparound_drain_is_intact() {
    let mut ring = RingBuffer::new(10);
    assert_eq!(ring.try_enqueue(b"1234567"), Ok(()));
    assert_eq!(drain_all(&mut ring, 10), b"1234567".to_vec());
    assert_eq!(ring.try_enqueue(b"uvwxyz"), Ok(()));
    assert_eq!(drain_all(&mut ring, 10), b"uvwxyz".to_vec());
    assert_eq!((ring.read(), ring.written(), ring.claimed()), (13, 13, 13));
}

#[test]
fn partial_drain_leaves_the_rest() {
    let mut ring = RingBuffer::new(10);
    assert_eq!(ring.try_enqueue(b"abcdef"), Ok(()));
    let mut buf = [9u8; 4];
    assert_eq!(ring.drain_into(&mut buf), 4);
    assert_eq!(&buf, b"abcd");
    let mut small = [7u8; 5];
    assert_eq!(ring.drain_into(&mut small), 2);
    assert_eq!(&small, &[b'e', b'f', 7, 7, 7]);
}

#[test]
fn zero_sized_buffers() {
    let mut ring = RingBuffer::new(0);
    assert_eq!(ring.try_enqueue(b""), Ok(()));
    assert_eq!(ring.try_enqueue(b"a"), Err(AtCapacity));
    assert_eq!(drain_all(&mut ring, 4), Vec::<u8>::new());
    let mut other = RingBuffer::new(4);
    assert_eq!(other.try_enqueue(b"ab"), Ok(()));
    let mut empty: [u8; 0] = [];
    assert_eq!(other.drain_into(&mut empty), 0);
    assert_eq!(other.read(), 0);
}

#[test]
fn nested_claim_is_published_by_the_first() {
    let mut ring = RingBuffer::new(16);
    let outer = ring.claim(5).unwrap();
    assert!(outer.first);
    assert_eq!(outer.start, 0);
    // A nested log call runs to completion while the outer one is copying.
    assert_eq!(ring.try_enqueue(b"inner"), Ok(()));
    assert_eq!(ring.written(), 0);
    assert_eq!(ring.claimed(), 10);
    assert_eq!(drain_all(&mut ring, 16), Vec::<u8>::new());
    ring.commit(outer, b"outer");
    assert_eq!(ring.written(), 10);
    assert_eq!(drain_all(&mut ring, 16), b"outerinner".to_vec());
}

#[test]
fn nested_claims_two_deep() {
    let mut ring = RingBuffer::new(16);
    let a = ring.claim(2).unwrap();
    let b = ring.claim(3).unwrap();
    assert!(a.first);
    assert!(!b.first);
    assert_eq!(ring.try_enqueue(b"c"), Ok(()));
    ring.commit(b, b"bbb");
    assert_eq!(ring.written(), 0);
    ring.commit(a, b"aa");
    assert_eq!(drain_all(&mut ring, 16), b"aabbbc".to_vec());
}

#[test]
fn nested_claim_across_the_physical_end() {
    let mut ring = RingBuffer::new(8);
    assert_eq!(ring.try_enqueue(b"123456"), Ok(()));
    assert_eq!(drain_all(&mut ring, 8), b"123456".to_vec());
    let a = ring.claim(3).unwrap();
    assert_eq!((a.start, a.offset), (6, 6));
    assert_eq!(ring.try_enqueue(b"xyz"), Ok(()));
    assert_eq!(ring.claim(3), Err(AtCapacity));
    ring.commit(a, b"abc");
    assert_eq!(drain_all(&mut ring, 8), b"abcxyz".to_vec());
}
