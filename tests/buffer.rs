use ring_buffer::power_of_2;
use ring_buffer::ring_buffers;
use ring_buffer::ring_buffers::RingBufferIter;
use ring_buffer::RingBuffer;

fn owned<T, const N: usize>(rb: ring_buffers::RingBuffer<T, N>) -> Vec<T> {
    let mut it: RingBufferIter<T, N> = rb.into_iter();
    let mut out = Vec::new();
    while let Some(x) = it.next() {
        out.push(x);
    }
    out
}

fn borrowed<T, const N: usize>(rb: &ring_buffers::RingBuffer<T, N>) -> Vec<&T> {
    let mut it = rb.iter();
    let mut out = Vec::new();
    while let Some(x) = it.next() {
        out.push(x);
    }
    out
}

#[test]
fn it_works() {
    let mut rb = ring_buffers::new([None; 4]);
    assert_eq!(rb.pull(), None);
    assert_eq!(rb.push("1"), None);
    assert_eq!(rb.push("2"), None);
    assert_eq!(rb.push("3"), None);
    assert_eq!(rb.push("4"), None);
    assert_eq!(rb.push("5"), Some("1"));
    assert_eq!(rb.pull(), Some("2"));

    assert_eq!(rb.pull(), Some("3"));

    assert_eq!(rb.push("6"), None);
    assert_eq!(rb.push("7"), None);
    assert_eq!(rb.push("8"), Some("4"));

    println!("{:?}", rb);
    assert_eq!(owned(rb.clone()), vec!["5", "6", "7", "8"]);
    assert_eq!(borrowed(&rb), vec![&"5", &"6", &"7", &"8"]);
    assert_eq!(rb.pull(), Some("5"));
    assert_eq!(rb.pull(), Some("6"));
    assert_eq!(rb.pull(), Some("7"));
    assert_eq!(rb.pull(), Some("8"));
    assert_eq!(rb.pull(), None);
    assert_eq!(rb.push("9"), None);
    assert_eq!(rb.pull(), Some("9"));

    rb.push("1");
    rb.push("2");
    rb.push("3");

    assert_eq!(owned(rb.clone()), vec!["1", "2", "3"]);
    assert_eq!(borrowed(&rb), vec![&"1", &"2", &"3"]);
    assert_eq!(rb.pull(), Some("1"));
    assert_eq!(owned(rb.clone()), vec!["2", "3"]);
    assert_eq!(borrowed(&rb), vec![&"2", &"3"]);
}

#[test]
fn pushes_within_capacity_come_out_in_order() {
    let mut rb = ring_buffers::new([None; 8]);
    for i in 0..8u32 {
        assert_eq!(rb.push(i), None);
        assert_eq!(rb.len(), (i + 1) as usize);
    }
    for i in 0..8u32 {
        assert_eq!(rb.pull(), Some(i));
    }
    assert_eq!(rb.len(), 0);
    assert_eq!(rb.pull(), None);
}

#[test]
fn full_push_evicts_oldest_and_keeps_newest() {
    let mut rb = ring_buffers::new([None; 2]);
    assert_eq!(rb.push(10u8), None);
    assert_eq!(rb.push(11), None);
    assert_eq!(rb.push(12), Some(10));
    assert_eq!(rb.len(), 2);
    assert_eq!(rb.push(13), Some(11));
    assert_eq!(rb.push(14), Some(12));
    assert_eq!(rb.len(), 2);
    assert_eq!(borrowed(&rb), vec![&13, &14]);
    assert_eq!(owned(rb), vec![13, 14]);
}

#[test]
fn many_pushes_keep_the_most_recent() {
    let mut rb = ring_buffers::new([None; 4]);
    for i in 0..1000u32 {
        let evicted = rb.push(i);
        if i < 4 {
            assert_eq!(evicted, None);
        } else {
            assert_eq!(evicted, Some(i - 4));
        }
    }
    assert_eq!(owned(rb), vec![996, 997, 998, 999]);
}

#[test]
fn pull_on_empty_changes_nothing() {
    let mut rb: ring_buffers::RingBuffer<u8, 4> = ring_buffers::new([None; 4]);
    rb.push(1);
    rb.pull();
    let before = format!("{:?}", rb);
    assert_eq!(rb.pull(), None);
    assert_eq!(format!("{:?}", rb), before);
    assert_eq!(rb.len(), 0);
}

#[test]
fn repeated_pulls_on_empty_stay_absent() {
    let mut rb: ring_buffers::RingBuffer<u64, 1> = ring_buffers::new([None; 1]);
    for _ in 0..100 {
        assert_eq!(rb.pull(), None);
    }
    assert_eq!(rb.len(), 0);
    assert_eq!(rb.push(5), None);
    assert_eq!(rb.pull(), Some(5));
}

#[test]
fn traversals_agree_and_borrow_leaves_buffer() {
    let mut rb = ring_buffers::new([None; 4]);
    for i in 0..6u16 {
        rb.push(i);
    }
    rb.pull();
    let by_ref: Vec<u16> = borrowed(&rb).into_iter().copied().collect();
    assert_eq!(by_ref, vec![3, 4, 5]);
    assert_eq!(rb.len(), 3);
    assert_eq!(owned(rb.clone()), by_ref);
    assert_eq!(rb.pull(), Some(3));
}

#[test]
fn owned_traversal_ends_once_drained() {
    let mut rb = ring_buffers::new([None, None]);
    rb.push(String::from("a"));
    rb.push(String::from("b"));
    rb.push(String::from("c"));
    let mut it = rb.into_iter();
    assert_eq!(it.next(), Some(String::from("b")));
    assert_eq!(it.next(), Some(String::from("c")));
    assert_eq!(it.next(), None);
    assert_eq!(it.next(), None);
}

#[test]
fn capacity_one_holds_the_last_push() {
    let mut rb = ring_buffers::new([None; 1]);
    assert_eq!(rb.push('x'), None);
    assert_eq!(rb.push('y'), Some('x'));
    assert_eq!(rb.len(), 1);
    assert_eq!(borrowed(&rb), vec![&'y']);
    assert_eq!(rb.pull(), Some('y'));
    assert_eq!(rb.pull(), None);
}

#[test]
fn new_empties_given_slots() {
    let mut rb = ring_buffers::new([Some(7u8); 4]);
    assert_eq!(rb.len(), 0);
    assert_eq!(rb.pull(), None);
    assert_eq!(rb.push(1), None);
    assert_eq!(owned(rb), vec![1]);
}

#[test]
fn debug_shows_cursors() {
    let mut rb = ring_buffers::new([None; 4]);
    for i in 0..5u8 {
        rb.push(i);
    }
    let text = format!("{:?}", rb);
    assert!(text.contains("write: 5"));
    assert!(text.contains("read: 1"));
}

#[test]
fn power_of_2_recognises_powers() {
    assert!(power_of_2(1));
    assert!(power_of_2(2));
    assert!(power_of_2(4));
    assert!(power_of_2(1024));
    assert!(power_of_2(1usize << (usize::BITS - 1)));
    assert!(!power_of_2(0));
    assert!(!power_of_2(3));
    assert!(!power_of_2(6));
    assert!(!power_of_2(1000));
    assert!(!power_of_2(usize::MAX));
}
