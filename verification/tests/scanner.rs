use fix_lob_engine::fix::scanner::{parse_tag, parse_u64, FixMessage, FixScanner};

#[test]
fn test_parse_tag_overflow() {
    assert_eq!(parse_tag(b"4294967295"), Some(4294967295u32));
    assert_eq!(parse_tag(b"4294967296"), None);
}

#[test]
fn test_parse_u64_overflow() {
    assert_eq!(parse_u64(b"18446744073709551615"), Some(18446744073709551615u64));
    assert_eq!(parse_u64(b"18446744073709551616"), None);
}

#[test]
fn test_scanner_boundary() {
    let data = b"35=D\x0155=AAPL\x0144=100.50\x01";
    let mut scanner = FixScanner::new(data);
    let f1 = scanner.next_field().unwrap();
    assert_eq!(f1.tag, 35);
    assert_eq!(f1.value, b"D");
    let f2 = scanner.next_field().unwrap();
    assert_eq!(f2.tag, 55);
    assert_eq!(f2.value, b"AAPL");
    let f3 = scanner.next_field().unwrap();
    assert_eq!(f3.tag, 44);
    assert_eq!(f3.value, b"100.50");
    assert!(scanner.next_field().is_none());
}

#[test]
fn test_scanner_truncated_no_soh() {
    let data = b"35=D\x0155=AAPL\x0144=100.50";
    let mut scanner = FixScanner::new(data);
    let f1 = scanner.next_field().unwrap();
    assert_eq!(f1.tag, 35);
    let f2 = scanner.next_field().unwrap();
    assert_eq!(f2.tag, 55);
    assert!(scanner.next_field().is_none());
}

#[test]
fn test_scanner_truncated_no_value() {
    let data = b"35=";
    let mut scanner = FixScanner::new(data);
    assert!(scanner.next_field().is_none());
}

#[test]
fn parse_tag_rejects_non_digits_and_reads_empty_as_zero() {
    assert_eq!(parse_tag(b"3a"), None);
    assert_eq!(parse_tag(b""), Some(0));
    assert_eq!(parse_u64(b"-1"), None);
    assert_eq!(parse_u64(b"0042"), Some(42));
}

#[test]
fn scan_reads_every_known_tag_and_keeps_the_last_repeat() {
    let data = b"8=FIX.4.4\x0135=D\x0149=SEND\x0156=TARG\x0111=C1\x0154=2\x0155=MSFT\x0144=1.5\x0138=7\x0155=IBM\x01";
    let msg = FixMessage::scan(data);
    assert_eq!(msg.msg_type, Some(&b"D"[..]));
    assert_eq!(msg.sender, Some(&b"SEND"[..]));
    assert_eq!(msg.target, Some(&b"TARG"[..]));
    assert_eq!(msg.clord_id, Some(&b"C1"[..]));
    assert_eq!(msg.side, Some(&b"2"[..]));
    assert_eq!(msg.symbol, Some(&b"IBM"[..]));
    assert_eq!(msg.price, Some(&b"1.5"[..]));
    assert_eq!(msg.order_qty, Some(&b"7"[..]));
}

#[test]
fn scan_stops_at_a_field_without_a_numeric_tag() {
    let msg = FixMessage::scan(b"35=D\x01X=1\x0155=AAPL\x01");
    assert_eq!(msg.msg_type, Some(&b"D"[..]));
    assert_eq!(msg.symbol, None);
}

#[test]
fn scanner_position_advances_past_each_field() {
    let data = b"1=a\x0122=bb\x01";
    let mut scanner = FixScanner::new(data);
    let f = scanner.next_field().unwrap();
    assert_eq!((f.tag, f.value), (1, &b"a"[..]));
    let g = scanner.next_field().unwrap();
    assert_eq!((g.tag, g.value), (22, &b"bb"[..]));
    assert!(scanner.next_field().is_none());
}
