use fix_lob_engine::fix::ringbuffer::{LookaheadRingBuffer, ScanStatus};

fn make_fix_message(_seq: u32, body: &[u8]) -> Vec<u8> {
    let header = format!("8=FIX.4.4\x019={}\x0135=D\x01", body.len());
    let mut msg = Vec::new();
    msg.extend_from_slice(header.as_bytes());
    msg.extend_from_slice(body);
    let mut checksum: u8 = 0;
    for &b in &msg {
        checksum = checksum.wrapping_add(b);
    }
    let trailer = format!("10={:03}\x01", checksum);
    msg.extend_from_slice(trailer.as_bytes());
    msg
}

#[test]
fn test_ringbuffer_basic() {
    let mut rb = LookaheadRingBuffer::new(1024);
    assert!(rb.is_empty());
    let data = b"8=FIX.4.4\x019=5\x0135=D\x01";
    rb.extend_from_slice(data);
    assert_eq!(rb.len(), 19);
    assert_eq!(rb.peek(0), Some(b'8'));
    assert_eq!(rb.peek(18), Some(0x01));
    assert_eq!(rb.peek(19), None);
}

#[test]
fn test_ringbuffer_wrap_around() {
    let mut rb = LookaheadRingBuffer::new(16);
    rb.extend_from_slice(b"0123456789");
    rb.consume(6);
    assert_eq!(rb.len(), 4);
    assert_eq!(rb.peek(0), Some(b'6'));
    rb.extend_from_slice(b"ABCDEFGHIJ");
    assert_eq!(rb.len(), 14);
    assert_eq!(rb.peek(0), Some(b'6'));
    assert_eq!(rb.peek(13), Some(b'J'));
}

#[test]
fn test_extract_complete_message_valid() {
    let body = b"11=ORD001\x0154=1\x0155=AAPL\x0144=100.50\x0138=100\x01";
    let msg = make_fix_message(1, body);
    let mut rb = LookaheadRingBuffer::new(4096);
    rb.extend_from_slice(&msg);
    let status = rb.extract_complete_message();
    match status {
        ScanStatus::Complete(len) => assert_eq!(len, msg.len()),
        _ => panic!("Expected complete message"),
    }
}

#[test]
fn test_extract_complete_message_truncated() {
    let body = b"11=ORD001\x0154=1\x0155=AAPL\x0144=100.50\x0138=100\x01";
    let msg = make_fix_message(1, body);
    let mut rb = LookaheadRingBuffer::new(4096);
    rb.extend_from_slice(&msg[..msg.len() / 2]);
    let status = rb.extract_complete_message();
    assert_eq!(status, ScanStatus::Incomplete);
}

#[test]
fn test_extract_complete_message_huge_body_len() {
    let mut msg = Vec::new();
    msg.extend_from_slice(b"8=FIX.4.4\x019=9999999\x0135=D\x01");
    msg.extend_from_slice(&[0u8; 100]);
    let mut rb = LookaheadRingBuffer::new(4096);
    rb.extend_from_slice(&msg);
    let status = rb.extract_complete_message();
    assert_eq!(status, ScanStatus::Invalid);
}

#[test]
fn test_extract_complete_message_malformed_tag9() {
    let mut msg = Vec::new();
    msg.extend_from_slice(b"8=FIX.4.4\x019=ABC\x0135=D\x01");
    let mut rb = LookaheadRingBuffer::new(4096);
    rb.extend_from_slice(&msg);
    let status = rb.extract_complete_message();
    assert_eq!(status, ScanStatus::Invalid);
}

#[test]
fn test_extract_complete_message_overflow_body_len() {
    let mut msg = Vec::new();
    msg.extend_from_slice(b"8=FIX.4.4\x019=4294967295\x0135=D\x01");
    let mut rb = LookaheadRingBuffer::new(4096);
    rb.extend_from_slice(&msg);
    let status = rb.extract_complete_message();
    assert_eq!(status, ScanStatus::Invalid);
}

#[test]
fn test_extract_complete_message_multi_msg() {
    let body1 = b"11=ORD001\x0154=1\x0155=AAPL\x0144=100.50\x0138=100\x01";
    let body2 = b"11=ORD002\x0154=2\x0155=GOOG\x0144=1500.25\x0138=200\x01";
    let msg1 = make_fix_message(1, body1);
    let msg2 = make_fix_message(2, body2);
    let mut combined = Vec::new();
    combined.extend_from_slice(&msg1);
    combined.extend_from_slice(&msg2);

    let mut rb = LookaheadRingBuffer::new(4096);
    rb.extend_from_slice(&combined);

    let status1 = rb.extract_complete_message();
    match status1 {
        ScanStatus::Complete(len) => {
            assert_eq!(len, msg1.len());
            rb.consume(len);
        }
        _ => panic!("Expected first complete message"),
    }

    let status2 = rb.extract_complete_message();
    match status2 {
        ScanStatus::Complete(len) => assert_eq!(len, msg2.len()),
        _ => panic!("Expected second complete message"),
    }
}

#[test]
fn test_extract_complete_message_mtu_boundary() {
    let body = b"11=ORD001\x0154=1\x0155=AAPL\x0144=100.50\x0138=100\x01";
    let msg = make_fix_message(1, body);
    let split_at = msg.len() / 2;
    let part1 = &msg[..split_at];
    let part2 = &msg[split_at..];

    let mut rb = LookaheadRingBuffer::new(4096);
    rb.extend_from_slice(part1);
    assert_eq!(rb.extract_complete_message(), ScanStatus::Incomplete);
    rb.extend_from_slice(part2);
    match rb.extract_complete_message() {
        ScanStatus::Complete(len) => assert_eq!(len, msg.len()),
        _ => panic!("Expected complete message after reassembly"),
    }
}

#[test]
fn test_extract_complete_message_garbage_prefix() {
    let body = b"11=ORD001\x0154=1\x0155=AAPL\x0144=100.50\x0138=100\x01";
    let msg = make_fix_message(1, body);
    let mut combined = Vec::new();
    combined.extend_from_slice(b"\x00\x01\xFFGARBAGEJUNK\x01");
    combined.extend_from_slice(&msg);

    let mut rb = LookaheadRingBuffer::new(4096);
    rb.extend_from_slice(&combined);
    match rb.extract_complete_message() {
        ScanStatus::Complete(len) => assert_eq!(len, msg.len()),
        other => panic!("Expected complete message after garbage skip, got {:?}", other),
    }
}

#[test]
fn test_starts_with_ring_wrapped() {
    let mut rb = LookaheadRingBuffer::new(16);
    rb.extend_from_slice(b"XXXXXXXXXX");
    rb.consume(10);
    assert!(rb.is_empty());
    rb.extend_from_slice(b"8=FIX.4.4");
    assert!(rb.starts_with(b"8=FIX.4.4", 0));
    assert!(!rb.starts_with(b"8=FIX.4.5", 0));

    let mut rb2 = LookaheadRingBuffer::new(16);
    rb2.extend_from_slice(b"0123456789ABCDEF");
    rb2.consume(10);
    assert_eq!(rb2.len(), 6);
    rb2.extend_from_slice(b"XYZ");
    assert!(rb2.starts_with(b"ABCDEFXYZ", 0));
}

#[test]
fn test_extract_complete_message_integer_overflow_attack() {
    let mut rb = LookaheadRingBuffer::new(4096);
    rb.extend_from_slice(b"8=FIX.4.4\x019=18446744073709551615\x0135=D\x01");
    let status = rb.extract_complete_message();
    assert_eq!(status, ScanStatus::Invalid);
    assert!(rb.is_empty() || rb.len() < 50);
}

#[test]
fn extend_stops_at_capacity() {
    let mut rb = LookaheadRingBuffer::new(8);
    assert_eq!(rb.extend_from_slice(b"0123456789"), 8);
    assert_eq!(rb.available(), 0);
    assert_eq!(rb.extend_from_slice(b"X"), 0);
    assert_eq!(rb.peek_slice(0, 8), Some(b"01234567".to_vec()));
}

#[test]
fn peek_slice_bounds() {
    let mut rb = LookaheadRingBuffer::new(8);
    rb.extend_from_slice(b"abcdef");
    assert_eq!(rb.peek_slice(2, 3), Some(b"cde".to_vec()));
    assert_eq!(rb.peek_slice(4, 3), None);
    assert_eq!(rb.peek_slice(100, 0), Some(Vec::new()));
    assert_eq!(rb.peek_slice(usize::MAX, 2), None);
}

#[test]
fn memchr_finds_the_first_match_from_start() {
    let mut rb = LookaheadRingBuffer::new(8);
    rb.extend_from_slice(b"a=b=c");
    assert_eq!(rb.memchr(b'=', 0), Some(1));
    assert_eq!(rb.memchr(b'=', 2), Some(3));
    assert_eq!(rb.memchr(b'=', 4), None);
    assert_eq!(rb.memchr(b'a', 9), None);
}

#[test]
fn consume_more_than_buffered_is_refused() {
    let mut rb = LookaheadRingBuffer::new(8);
    rb.extend_from_slice(b"abc");
    assert!(!rb.consume(4));
    assert_eq!(rb.len(), 3);
    assert!(rb.consume(3));
    assert!(rb.is_empty());
}

#[test]
fn mark_and_reset_restore_consumed_bytes() {
    let mut rb = LookaheadRingBuffer::new(8);
    rb.extend_from_slice(b"hello");
    rb.mark();
    rb.consume(3);
    assert_eq!(rb.peek(0), Some(b'l'));
    rb.reset_to_mark();
    assert_eq!(rb.len(), 5);
    assert_eq!(rb.peek_slice(0, 5), Some(b"hello".to_vec()));
}

#[test]
fn compact_keeps_the_bytes_and_clear_drops_them() {
    let mut rb = LookaheadRingBuffer::new(8);
    rb.extend_from_slice(b"abcdef");
    rb.consume(5);
    rb.extend_from_slice(b"ghijk");
    rb.compact();
    assert_eq!(rb.peek_slice(0, 6), Some(b"fghijk".to_vec()));
    rb.clear();
    assert!(rb.is_empty());
    assert_eq!(rb.capacity(), 8);
}

#[test]
fn find_next_message_start_skips_to_the_marker() {
    let mut rb = LookaheadRingBuffer::new(64);
    rb.extend_from_slice(b"xx8=FIX.4.4\x01");
    assert_eq!(rb.find_next_message_start(0), Some(2));
    assert_eq!(rb.find_next_message_start(3), None);
}

#[test]
fn unframed_bytes_without_marker_are_incomplete() {
    let mut rb = LookaheadRingBuffer::new(64);
    rb.extend_from_slice(b"no marker in this text");
    assert_eq!(rb.extract_complete_message(), ScanStatus::Incomplete);
    assert_eq!(rb.len(), 22);
}

#[test]
fn body_length_beyond_capacity_is_invalid() {
    let mut rb = LookaheadRingBuffer::new(64);
    rb.extend_from_slice(b"8=FIX.4.4\x019=60\x0135=D\x01");
    assert_eq!(rb.extract_complete_message(), ScanStatus::Invalid);
    assert!(rb.is_empty());
}

#[test]
fn reset_to_mark_of_a_full_buffer_comes_back_empty() {
    let mut rb = LookaheadRingBuffer::new(4);
    rb.extend_from_slice(b"abcd");
    rb.mark();
    rb.consume(2);
    rb.reset_to_mark();
    assert_eq!(rb.len(), 0);
}

#[test]
fn framing_is_stable_and_unaffected_by_later_bytes() {
    let body = b"11=ORD001\x0154=1\x01";
    let msg = make_fix_message(1, body);
    let mut rb = LookaheadRingBuffer::new(4096);
    rb.extend_from_slice(b"noise");
    rb.extend_from_slice(&msg);
    let first = rb.extract_complete_message();
    assert_eq!(first, ScanStatus::Complete(msg.len()));
    assert_eq!(rb.len(), msg.len());
    assert_eq!(rb.extract_complete_message(), first);
    rb.extend_from_slice(b"8=FIX.4.4\x019=");
    assert_eq!(rb.extract_complete_message(), first);
}

#[test]
fn consume_on_a_zero_capacity_buffer_is_refused() {
    let mut rb = LookaheadRingBuffer::new(0);
    assert!(!rb.consume(1));
    assert_eq!(rb.len(), 0);
}
