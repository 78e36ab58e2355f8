use nanometers_server::{RingBuffer, RingError};

fn storage(rb: &RingBuffer) -> Vec<u32> {
    let mut out = Vec::new();
    let mut i = 0;
    while i < rb.capacity() {
        out.push(rb.sample_at(i));
        i += 1;
    }
    out
}

fn chronological(rb: &RingBuffer) -> Vec<u32> {
    let s = storage(rb);
    let c = rb.cursor();
    let mut out = Vec::new();
    out.extend_from_slice(&s[c..]);
    out.extend_from_slice(&s[..c]);
    out
}

#[test]
fn fresh_buffer_is_zeroed() {
    let rb = RingBuffer::new(4);
    assert_eq!(rb.capacity(), 4);
    assert_eq!(rb.cursor(), 0);
    assert_eq!(storage(&rb), vec![0, 0, 0, 0]);
}

#[test]
fn appends_within_capacity_replay_in_order() {
    let mut rb = RingBuffer::new(8);
    assert!(rb.append(&[1, 2]).is_ok());
    assert!(rb.append(&[3]).is_ok());
    assert!(rb.append(&[4, 5, 6]).is_ok());
    assert_eq!(rb.cursor(), 6);
    assert_eq!(storage(&rb)[..6], [1, 2, 3, 4, 5, 6]);
}

#[test]
fn wraparound_scenario_capacity_ten() {
    let mut rb = RingBuffer::new(10);
    assert!(rb.append(&[1, 2, 3]).is_ok());
    assert!(rb.append(&[4, 5, 6, 7, 8, 9, 10, 11, 12]).is_ok());
    // Twelve samples through a ten-slot buffer: cursor is 12 mod 10.
    assert_eq!(rb.cursor(), 2);
    // Storage order: the wrapped tail [11, 12] sits at the front.
    assert_eq!(storage(&rb), vec![11, 12, 3, 4, 5, 6, 7, 8, 9, 10]);
    // Chronological order via the cursor: 1 and 2 were evicted.
    assert_eq!(chronological(&rb), vec![3, 4, 5, 6, 7, 8, 9, 10, 11, 12]);
}

#[test]
fn wraparound_at_exact_boundary() {
    let mut rb = RingBuffer::new(4);
    assert!(rb.append(&[1, 2, 3, 4]).is_ok());
    // A full buffer leaves the cursor at the capacity, not at zero.
    assert_eq!(rb.cursor(), 4);
    assert!(rb.append(&[5, 6]).is_ok());
    assert_eq!(rb.cursor(), 2);
    assert_eq!(storage(&rb), vec![5, 6, 3, 4]);
    assert_eq!(chronological(&rb), vec![3, 4, 5, 6]);
}

#[test]
fn oversized_frame_rejected_and_state_unchanged() {
    let mut rb = RingBuffer::new(5);
    assert!(rb.append(&[7, 8, 9]).is_ok());
    let before_cursor = rb.cursor();
    let before = storage(&rb);
    let r = rb.append(&[1, 2, 3, 4, 5, 6]);
    assert_eq!(r, Err(RingError::FrameExceedsCapacity));
    assert_eq!(rb.cursor(), before_cursor);
    assert_eq!(storage(&rb), before);
}

#[test]
fn frame_of_exactly_capacity_accepted() {
    let mut rb = RingBuffer::new(3);
    assert!(rb.append(&[1, 2, 3]).is_ok());
    assert_eq!(rb.cursor(), 3);
    assert_eq!(storage(&rb), vec![1, 2, 3]);
}

#[test]
fn empty_frame_changes_nothing() {
    let mut rb = RingBuffer::new(3);
    assert!(rb.append(&[9]).is_ok());
    assert!(rb.append(&[]).is_ok());
    assert_eq!(rb.cursor(), 1);
    assert_eq!(storage(&rb), vec![9, 0, 0]);
}

#[test]
fn long_run_matches_pure_wraparound_arithmetic() {
    // A plain model: total count plus a modular write position.
    let cap = 7usize;
    let mut rb = RingBuffer::new(cap);
    let mut model = vec![0u32; cap];
    let mut pos = 0usize;
    let mut total = 0usize;
    for k in 0..300u32 {
        let frame = [3 * k, 3 * k + 1, 3 * k + 2];
        assert!(rb.append(&frame).is_ok());
        for &w in frame.iter() {
            model[pos] = w;
            pos = (pos + 1) % cap;
        }
        total += frame.len();
        let expect_cursor = if total % cap == 0 { cap } else { total % cap };
        assert_eq!(rb.cursor(), expect_cursor);
        assert_eq!(storage(&rb), model);
    }
}

#[test]
fn from_parts_round_trips_accessors() {
    let rb = RingBuffer::from_parts(2, vec![5, 6, 7]);
    assert_eq!(rb.capacity(), 3);
    assert_eq!(rb.cursor(), 2);
    assert_eq!(storage(&rb), vec![5, 6, 7]);
}
