use fix_lob_engine::fix::ringbuffer::LookaheadRingBuffer;
use fix_lob_engine::net::listener::{take_message, Intake, NetworkLayer, MAX_BUFFER};

#[test]
fn network_layer_keeps_its_address() {
    let n = NetworkLayer::new(String::from("127.0.0.1:9000"));
    assert_eq!(n.addr(), "127.0.0.1:9000");
}

#[test]
fn take_message_copies_out_one_framed_message() {
    let msg = b"8=FIX.4.4\x019=6\x0135=D\x0111=AB\x0110=000\x01";
    let mut rb = LookaheadRingBuffer::new(4096);
    rb.extend_from_slice(b"junk");
    rb.extend_from_slice(msg);
    rb.extend_from_slice(b"8=FIX");
    match take_message(&mut rb) {
        Intake::Message(m) => {
            assert_eq!(m.raw_len, msg.len());
            assert_eq!(&m.data[..m.raw_len], &msg[..]);
            assert!(m.data[m.raw_len..].iter().all(|&b| b == 0));
        }
        _ => panic!("expected a message"),
    }
    assert_eq!(rb.len(), 5);
    assert!(matches!(take_message(&mut rb), Intake::NeedMore));
}

#[test]
fn take_message_drops_oversized_and_reports_invalid() {
    let mut rb = LookaheadRingBuffer::new(8192);
    let mut big = b"8=FIX.4.4\x019=5000\x0135=D\x01".to_vec();
    big.extend_from_slice(&vec![b'a'; 5000]);
    big.extend_from_slice(b"10=000\x01");
    rb.extend_from_slice(&big);
    match take_message(&mut rb) {
        Intake::Oversized(n) => assert!(n > MAX_BUFFER && n == big.len()),
        _ => panic!("expected an oversized message"),
    }
    assert!(rb.is_empty());
    rb.extend_from_slice(b"8=FIX.4.4\x019=x\x0135=D\x01");
    assert!(matches!(take_message(&mut rb), Intake::Invalid));
    assert!(rb.is_empty());
}
