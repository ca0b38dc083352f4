use historybuffer::HistoryBuffer;

#[test]
fn capacity_is_smallest_power_of_two_at_least_request() {
    for min in 0..2050usize {
        let hb = HistoryBuffer::new(min);
        let cap = hb.buf.len();
        assert!(cap.is_power_of_two());
        assert!(cap >= 2);
        assert!(cap >= min);
        // Smallest: half the capacity is below the request (or the floor).
        assert!(cap == 2 || cap / 2 < min);
        assert_eq!(hb.mask, cap - 1);
        assert_eq!(hb.get_len(), 0);
        assert_eq!(hb.get_index(), 0);
    }
    assert_eq!(HistoryBuffer::new(1 << 23).buf.len(), 1 << 23);
    // Above the ceiling the request is silently capped, not rejected.
    assert_eq!(HistoryBuffer::new((1 << 23) + 1).buf.len(), 1 << 23);
    assert_eq!(HistoryBuffer::new(usize::MAX).buf.len(), 1 << 23);
}

#[test]
fn cursor_length_invariant_under_mixed_calls() {
    let mut hb = HistoryBuffer::new(8);
    let cap = hb.buf.len();
    let mut written = 0usize;

    let steps: [(&str, usize); 12] = [
        ("add", 3),
        ("add", 0),
        ("add", 9),
        ("clear_at", 5),
        ("add", 2),
        ("clear", 0),
        ("add", 20),
        ("clear_at", 0),
        ("clear_at", 1000),
        ("add", 1),
        ("clear", 0),
        ("clear", 0),
    ];
    for (op, arg) in steps {
        match op {
            "add" => {
                let data: Vec<u8> = (0..arg).map(|i| (i % 251) as u8).collect();
                hb.add(&data);
                written += arg;
            }
            "clear_at" => hb.clear_at(arg),
            _ => hb.clear(),
        }
        assert_eq!(hb.get_index() + hb.get_len(), written);
        assert!(hb.get_len() <= cap);
    }
}

#[test]
fn write_then_read_returns_exactly_what_was_added() {
    let mut hb = HistoryBuffer::new(8);
    for round in 0..10usize {
        let n = (round * 3) % 8 + 1; // 1..=8 bytes, at most the capacity
        let data: Vec<u8> = (0..n).map(|i| (round * 16 + i) as u8).collect();
        let offset_before = hb.get_index() + hb.get_len();
        hb.add(&data);
        assert_eq!(hb.get_vec(offset_before, data.len()), data);
    }
}

#[test]
fn eviction_once_capacity_exceeded() {
    let mut hb = HistoryBuffer::new(8);
    let stream: Vec<u8> = (0..23u8).collect();
    for chunk in stream.chunks(5) {
        hb.add(chunk);
    }
    // 23 bytes written into 8 slots: offsets 0..15 are evicted.
    assert_eq!(hb.get_index(), 15);
    for i in 0..hb.get_index() {
        assert_eq!(hb.get(i), None);
    }
    for i in hb.get_index()..23 {
        assert_eq!(hb.get(i), Some(stream[i]));
    }
    assert_eq!(hb.get(23), None); // not yet written
}

#[test]
fn clip_never_exceeds_request_nor_history() {
    let mut hb = HistoryBuffer::new(8);
    hb.add(b"0123456789abcdef"); // 16 bytes, retained: "89abcdef" at 8..16
    for s in 0..20usize {
        for m in 0..20usize {
            let (v, idx) = hb.get_vec_and_index(s, m);
            assert!(v.len() <= m);
            if v.is_empty() {
                // Documented quirk: an empty window is paired with offset 0.
                assert_eq!(idx, 0);
            } else {
                assert!(idx >= s);
                assert!(idx >= hb.get_index());
                assert!(idx + v.len() <= hb.get_index() + hb.get_len());
                for (j, b) in v.iter().enumerate() {
                    assert_eq!(hb.get(idx + j), Some(*b));
                }
            }
        }
    }
}

#[test]
fn clear_twice_equals_clear_once() {
    let mut a = HistoryBuffer::new(8);
    a.add(b"some history text");
    let mut b = HistoryBuffer::new(8);
    b.add(b"some history text");

    a.clear();
    b.clear();
    b.clear();
    assert_eq!(a.get_len(), 0);
    assert_eq!(b.get_len(), 0);
    assert_eq!(a.buf, b.buf);
    assert_eq!(a.mask, b.mask);
    assert_eq!(a.get_index(), b.get_index());
    assert_eq!(a.get_last_index(), b.get_last_index());
    assert_eq!(a.last_byte(), None);
    assert_eq!(b.last_byte(), None);
    assert_eq!(a.get_vec(0, 100), Vec::<u8>::new());
    assert_eq!(b.get_vec(0, 100), Vec::<u8>::new());
}

#[test]
fn clear_at_never_grows_retention() {
    for x in 0..30usize {
        let mut hb = HistoryBuffer::new(8);
        hb.add(b"0123456789abcdef"); // cursor 16, retained 8
        let before = hb.get_len();
        hb.clear_at(x);
        assert!(hb.get_len() <= before);
        if x <= 8 {
            // At or before the oldest visible offset: a no-op.
            assert_eq!(hb.get_len(), before);
        } else if x >= 16 {
            assert_eq!(hb.get_len(), 0);
        } else {
            assert_eq!(hb.get_len(), 16 - x);
            assert_eq!(hb.get_index(), x);
        }
    }
}

#[test]
fn example_terminal_history() {
    let mut hb = HistoryBuffer::new(8);
    hb.add(b"The Terminal History."); // 21 bytes into 8 slots
    assert_eq!(hb.get_index(), 13);
    assert_eq!(hb.last_byte(), Some(b'.'));
    assert_eq!(hb.get_vec(13, 8), b"History.".to_vec());
    assert_eq!(hb.get(13), Some(b'H'));
    assert_eq!(hb.get(12), None);
    assert_eq!(hb.get_last_index(), 20);
}

#[test]
fn example_terminal_history_after_more_text() {
    let mut hb = HistoryBuffer::new(8);
    hb.add(b"The Terminal History.");
    hb.add(b" and");
    assert_eq!(hb.get(14), None); // now evicted
    assert_eq!(
        hb.get_vec_and_index(0, 100000),
        (b"ory. and".to_vec(), 17usize)
    );
}

#[test]
fn empty_buffer_edge_cases() {
    let hb = HistoryBuffer::new(4);
    assert_eq!(hb.get_len(), 0);
    assert_eq!(hb.get(0), None);
    assert_eq!(hb.last_byte(), None);
    // With nothing retained the last index collapses to the start boundary.
    assert_eq!(hb.get_last_index(), hb.get_index());
    assert_eq!(hb.get_vec(0, 10), Vec::<u8>::new());
    assert_eq!(hb.get_recent(10), Vec::<u8>::new());
    assert_eq!(hb.get_vec_and_index(0, 10), (Vec::<u8>::new(), 0));
}

#[test]
fn add_longer_than_capacity_keeps_only_tail() {
    let mut hb = HistoryBuffer::new(2);
    hb.add(&[1, 2, 3, 4, 5, 6, 7]);
    assert_eq!(hb.get_len(), 2);
    assert_eq!(hb.get_index(), 5);
    assert_eq!(hb.get_vec(0, 100), vec![6, 7]);
    assert_eq!(hb.get(4), None);
    assert_eq!(hb.get(5), Some(6));
    assert_eq!(hb.get(6), Some(7));
    assert_eq!(hb.get_last_index(), 6);
}

#[test]
fn get_recent_returns_most_recent_bytes() {
    let mut hb = HistoryBuffer::new(8);
    hb.add(b"0123456789"); // retained: "23456789"
    assert_eq!(hb.get_recent(0), Vec::<u8>::new());
    assert_eq!(hb.get_recent(4), b"6789".to_vec());
    assert_eq!(hb.get_recent(8), b"23456789".to_vec());
    assert_eq!(hb.get_recent(100), b"23456789".to_vec());
}
