use core::fmt::Write;
use os_dev_toolkit::buffer::{FixedStr, FixedStrError, RingBuffer};

fn contents<const N: usize>(rb: &RingBuffer<N>) -> Vec<u8> {
    let (a, b) = rb.as_slices();
    let mut v = Vec::new();
    v.extend_from_slice(a);
    v.extend_from_slice(b);
    v
}

#[test]
fn ring_buffer_pops_oldest_first() {
    let mut rb: RingBuffer<3> = RingBuffer::new();
    assert_eq!(rb.pop(), None);
    rb.push(10);
    rb.push(20);
    assert_eq!(rb.len(), 2);
    assert_eq!(rb.pop(), Some(10));
    assert_eq!(rb.pop(), Some(20));
    assert_eq!(rb.pop(), None);
    assert!(rb.is_empty());
}

#[test]
fn ring_buffer_overwrites_oldest_when_full() {
    let mut rb: RingBuffer<3> = RingBuffer::new();
    for b in 1..=7u8 {
        rb.push(b);
    }
    assert_eq!(rb.len(), 3);
    assert_eq!(rb.capacity(), 3);
    assert_eq!(contents(&rb), vec![5, 6, 7]);
    assert_eq!(rb.pop(), Some(5));
}

#[test]
fn ring_buffer_slices_split_at_wrap() {
    let mut rb: RingBuffer<4> = RingBuffer::new();
    for b in 1..=6u8 {
        rb.push(b);
    }
    // oldest byte sits at index 2: the first slice runs to the end of the storage
    let (a, b) = rb.as_slices();
    assert_eq!(a, &[3, 4][..]);
    assert_eq!(b, &[5, 6][..]);
}

#[test]
fn ring_buffer_slices_without_wrap() {
    let mut rb: RingBuffer<4> = RingBuffer::new();
    rb.push(1);
    rb.push(2);
    let (a, b) = rb.as_slices();
    assert_eq!(a, &[1, 2][..]);
    assert!(b.is_empty());
}

#[test]
fn ring_buffer_zero_capacity_keeps_nothing() {
    let mut rb: RingBuffer<0> = RingBuffer::new();
    rb.push(1);
    assert!(rb.is_empty());
    assert!(rb.is_full());
    assert_eq!(rb.pop(), None);
    let (a, b) = rb.as_slices();
    assert!(a.is_empty() && b.is_empty());
}

#[test]
fn ring_buffer_clear_empties() {
    let mut rb: RingBuffer<2> = RingBuffer::default();
    rb.push(1);
    rb.push(2);
    rb.push(3);
    rb.clear();
    assert!(rb.is_empty());
    assert_eq!(contents(&rb), Vec::<u8>::new());
    rb.push(9);
    assert_eq!(contents(&rb), vec![9]);
}

#[test]
fn fixed_str_rejects_overflow_and_keeps_text() {
    let mut s: FixedStr<5> = FixedStr::default();
    assert_eq!(s.capacity(), 5);
    assert!(s.is_empty());
    assert_eq!(s.try_push_str("abcd"), Ok(()));
    assert_eq!(s.try_push_str("ef"), Err(FixedStrError));
    assert_eq!(s.as_str(), "abcd");
    assert_eq!(s.len(), 4);
    assert_eq!(s.try_push_str("e"), Ok(()));
    assert_eq!(s.as_str(), "abcde");
}

#[test]
fn fixed_str_counts_utf8_bytes() {
    let mut s: FixedStr<4> = FixedStr::new();
    assert!(s.try_push_str("é").is_ok());
    assert_eq!(s.len(), 2);
    assert!(s.try_push_str("€").is_err());
    assert!(s.try_push_str("ab").is_ok());
    assert_eq!(s.as_str(), "éab");
}

#[test]
fn fixed_str_clear_and_fmt_write() {
    let mut s: FixedStr<8> = FixedStr::new();
    assert!(s.write_str("cpu=").is_ok());
    assert!(s.write_str("0").is_ok());
    assert_eq!(s.as_str(), "cpu=0");
    assert!(s.write_str("toolong").is_err());
    assert_eq!(s.as_str(), "cpu=0");
    s.clear();
    assert_eq!(s.as_str(), "");
    assert!(s.is_empty());
}

#[test]
fn ring_buffer_fifo_pops_after_pushes() {
    let mut rb: RingBuffer<5> = RingBuffer::new();
    for x in [9u8, 8, 7, 6, 5] {
        rb.push(x);
    }
    for x in [9u8, 8, 7, 6, 5] {
        assert_eq!(rb.pop(), Some(x));
    }
    assert_eq!(rb.pop(), None);
}

#[test]
fn fixed_str_history_keeps_only_accepted_pieces() {
    let mut s: FixedStr<6> = FixedStr::new();
    let pieces = ["ab", "cdefg", "cd", "xyz", "e"];
    for p in pieces {
        let _ = s.try_push_str(p);
    }
    assert_eq!(s.as_str(), "abcde");
    assert_eq!(s.len(), s.as_str().len());
    assert!(s.len() <= s.capacity());
    s.clear();
    assert!(s.try_push_str("xyz").is_ok());
    assert_eq!(s.as_str(), "xyz");
}
