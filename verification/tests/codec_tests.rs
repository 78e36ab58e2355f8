use nanometers_server::codec::{cursor_word_of_index, decode_snapshot, encode_snapshot, index_of_cursor_word};
use nanometers_server::RingBuffer;

#[test]
fn cursor_word_matches_native_float_bits() {
    // The verified integer formula must agree with the hardware float
    // encoding for every index a buffer could ever use.
    for n in 0..20000u32 {
        assert_eq!(cursor_word_of_index(n), (n as f32).to_bits(), "index {}", n);
    }
    for n in [15360u32, 48000, 65536, 1 << 20, (1 << 24) - 1] {
        assert_eq!(cursor_word_of_index(n), (n as f32).to_bits(), "index {}", n);
    }
}

#[test]
fn cursor_word_round_trips() {
    for n in (0..20000u32).chain([15360, 48000, (1 << 24) - 1]) {
        assert_eq!(index_of_cursor_word(cursor_word_of_index(n)), Some(n));
    }
}

#[test]
fn non_integer_words_decode_to_none() {
    assert_eq!(index_of_cursor_word(0.5f32.to_bits()), None);
    assert_eq!(index_of_cursor_word(1.5f32.to_bits()), None);
    assert_eq!(index_of_cursor_word(3.25f32.to_bits()), None);
    assert_eq!(index_of_cursor_word(f32::NAN.to_bits()), None);
    assert_eq!(index_of_cursor_word(f32::INFINITY.to_bits()), None);
    assert_eq!(index_of_cursor_word((-2.0f32).to_bits()), None);
    // The first integer past the exactly-representable range.
    assert_eq!(index_of_cursor_word((16777216.0f32).to_bits()), None);
}

#[test]
fn snapshot_layout_matches_the_float_array_cast() {
    // The wire image must be byte-identical to what casting the
    // original float array (cursor stored as a float in slot zero)
    // would have produced.
    let mut rb = RingBuffer::new(3);
    rb.append(&[2.5f32.to_bits(), (-1.0f32).to_bits()]).unwrap();
    let bytes = encode_snapshot(&rb);
    let as_floats: Vec<f32> = vec![2.0, 2.5, -1.0, 0.0];
    let cast: &[u8] = bytemuck::cast_slice(&as_floats);
    assert_eq!(bytes.as_slice(), cast);
}

#[test]
fn snapshot_round_trip_reproduces_cursor_and_samples() {
    let mut rb = RingBuffer::new(10);
    rb.append(&[1, 2, 3]).unwrap();
    rb.append(&[4, 5, 6, 7, 8, 9, 10, 11, 12]).unwrap();
    let bytes = encode_snapshot(&rb);
    assert_eq!(bytes.len(), 4 * 11);
    let back = decode_snapshot(&bytes, 10).expect("a snapshot must decode");
    assert_eq!(back.cursor(), rb.cursor());
    assert_eq!(back.capacity(), rb.capacity());
    for i in 0..10 {
        assert_eq!(back.sample_at(i), rb.sample_at(i));
    }
}

#[test]
fn snapshot_round_trip_is_bit_exact_for_floats() {
    let mut rb = RingBuffer::new(4);
    let frame: Vec<u32> = [0.1f32, -0.0, f32::MIN_POSITIVE, 123.456]
        .iter()
        .map(|x| x.to_bits())
        .collect();
    rb.append(&frame).unwrap();
    let back = decode_snapshot(&encode_snapshot(&rb), 4).unwrap();
    for i in 0..4 {
        assert_eq!(back.sample_at(i), frame[i]);
    }
}

#[test]
fn wrong_length_fails_to_decode() {
    let rb = RingBuffer::new(3);
    let bytes = encode_snapshot(&rb);
    assert!(decode_snapshot(&bytes, 4).is_none());
    assert!(decode_snapshot(&bytes[1..], 3).is_none());
    assert!(decode_snapshot(&[], 3).is_none());
}

#[test]
fn cursor_past_capacity_fails_to_decode() {
    // A snapshot of a three-slot buffer claiming cursor four.
    let mut bytes = Vec::new();
    bytes.extend_from_slice(&4.0f32.to_ne_bytes());
    for _ in 0..3 {
        bytes.extend_from_slice(&0.0f32.to_ne_bytes());
    }
    assert!(decode_snapshot(&bytes, 3).is_none());
}

#[test]
fn fractional_cursor_fails_to_decode() {
    let mut bytes = Vec::new();
    bytes.extend_from_slice(&1.5f32.to_ne_bytes());
    for _ in 0..3 {
        bytes.extend_from_slice(&0.0f32.to_ne_bytes());
    }
    assert!(decode_snapshot(&bytes, 3).is_none());
}
