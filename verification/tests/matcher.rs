use fix_lob_engine::engine::matcher::{symbol_key, MatchingEngine};
use fix_lob_engine::fix::scanner::FixMessage;
use fix_lob_engine::lob::orderbook::{parse_price, LimitOrderBook, Side};

#[test]
fn test_price_parsing() {
    assert_eq!(parse_price(b"100.50"), 100_5000_0000i64);
    assert_eq!(parse_price(b"100"), 100_0000_0000i64);
    assert_eq!(parse_price(b"0.01"), 100_0000i64);
    assert_eq!(parse_price(b"1500.25"), 1500_2500_0000i64);
}

#[test]
fn test_single_fill() {
    let mut engine = MatchingEngine::new();
    let sell_msg = FixMessage::scan(b"35=D\x0154=2\x0155=AAPL\x0144=100.50\x0138=100\x0111=S001\x01");
    engine.process_fix_message(&sell_msg);
    let buy_msg = FixMessage::scan(b"35=D\x0154=1\x0155=AAPL\x0144=100.50\x0138=100\x0111=B001\x01");
    engine.process_fix_message(&buy_msg);
}

#[test]
fn test_partial_fill() {
    let mut engine = MatchingEngine::new();
    let sell_msg = FixMessage::scan(b"35=D\x0154=2\x0155=AAPL\x0144=100.50\x0138=100\x0111=S001\x01");
    engine.process_fix_message(&sell_msg);
    let buy_msg = FixMessage::scan(b"35=D\x0154=1\x0155=AAPL\x0144=100.50\x0138=50\x0111=B001\x01");
    engine.process_fix_message(&buy_msg);
    let book = engine.book(b"AAPL").unwrap();
    assert_eq!(book.asks.arena.get(book.asks.min_key().unwrap()).total_qty, 50);
}

#[test]
fn test_multi_symbol_isolation() {
    let mut engine = MatchingEngine::new();
    let sell_aapl = FixMessage::scan(b"35=D\x0154=2\x0155=AAPL\x0144=100\x0138=100\x0111=S001\x01");
    engine.process_fix_message(&sell_aapl);
    let sell_goog = FixMessage::scan(b"35=D\x0154=2\x0155=GOOG\x0144=1500\x0138=200\x0111=S002\x01");
    engine.process_fix_message(&sell_goog);

    let buy_goog = FixMessage::scan(b"35=D\x0154=1\x0155=GOOG\x0144=1500\x0138=200\x0111=B001\x01");
    engine.process_fix_message(&buy_goog);

    let aapl_book = engine.book(b"AAPL").unwrap();
    assert!(!aapl_book.asks.is_empty());

    let goog_book = engine.book(b"GOOG").unwrap();
    assert!(goog_book.asks.is_empty());
}

#[test]
fn test_price_time_priority() {
    let mut book = LimitOrderBook::new();
    book.submit_order(b"S1", b"AAPL", Side::Sell, 100_0000_0000, 100);
    book.submit_order(b"S2", b"AAPL", Side::Sell, 100_0000_0000, 200);

    let fills = book.submit_order(b"B1", b"AAPL", Side::Buy, 100_0000_0000, 150);
    assert_eq!(fills.len(), 2);
    assert_eq!(fills[0].fill_qty, 100);
    assert_eq!(fills[0].maker_leaves, 0);
    assert_eq!(fills[1].fill_qty, 50);
    assert_eq!(fills[1].maker_leaves, 150);
}

#[test]
fn test_no_cross_no_fill() {
    let mut book = LimitOrderBook::new();
    book.submit_order(b"S1", b"AAPL", Side::Sell, 105_0000_0000, 100);
    let fills = book.submit_order(b"B1", b"AAPL", Side::Buy, 100_0000_0000, 100);
    assert!(fills.is_empty());
    assert!(!book.bids.is_empty());
    assert!(!book.asks.is_empty());
}

#[test]
fn test_aggressive_buy_matches_multiple_levels() {
    let mut book = LimitOrderBook::new();
    book.submit_order(b"S1", b"AAPL", Side::Sell, 100_0000_0000, 50);
    book.submit_order(b"S2", b"AAPL", Side::Sell, 101_0000_0000, 50);

    let fills = book.submit_order(b"B1", b"AAPL", Side::Buy, 101_0000_0000, 100);
    assert_eq!(fills.len(), 2);
    assert_eq!(fills[0].price, 100_0000_0000);
    assert_eq!(fills[0].fill_qty, 50);
    assert_eq!(fills[1].price, 101_0000_0000);
    assert_eq!(fills[1].fill_qty, 50);
}

#[test]
fn engine_numbers_orders_and_executions_across_symbols() {
    let mut engine = MatchingEngine::new();
    let s = FixMessage::scan(b"35=D\x0154=2\x0155=AAPL\x0144=10\x0138=5\x0111=S\x01");
    assert!(engine.process_fix_message(&s).is_empty());
    let t = FixMessage::scan(b"35=D\x0154=2\x0155=MSFT\x0144=10\x0138=5\x0111=T\x01");
    assert!(engine.process_fix_message(&t).is_empty());
    let b = FixMessage::scan(b"35=D\x0154=1\x0155=MSFT\x0144=10\x0138=5\x0111=B\x01");
    let fills = engine.process_fix_message(&b);
    assert_eq!(fills.len(), 1);
    assert_eq!(fills[0].maker_order_id, 2);
    assert_eq!(fills[0].exec_id, 1);
    assert_eq!(&fills[0].taker_clord_id[..1], b"B");
    let b2 = FixMessage::scan(b"35=D\x0154=1\x0155=AAPL\x0144=10\x0138=5\x01");
    let fills2 = engine.process_fix_message(&b2);
    assert_eq!(fills2.len(), 1);
    assert_eq!(fills2[0].maker_order_id, 1);
    assert_eq!(fills2[0].exec_id, 2);
    assert_eq!(&fills2[0].taker_clord_id[..fills2[0].taker_clord_id_len as usize], b"UNKNOWN");
}

#[test]
fn engine_ignores_what_is_not_a_valid_new_order() {
    let mut engine = MatchingEngine::new();
    for raw in [
        &b"35=8\x0154=1\x0155=AAPL\x0144=10\x0138=5\x01"[..],
        &b"35=D\x0154=3\x0155=AAPL\x0144=10\x0138=5\x01"[..],
        &b"35=D\x0154=12\x0155=AAPL\x0144=10\x0138=5\x01"[..],
        &b"35=D\x0154=1\x0144=10\x0138=5\x01"[..],
        &b"35=D\x0154=1\x0155=AAPL\x0138=5\x01"[..],
        &b"35=D\x0154=1\x0155=AAPL\x0144=10\x0138=x\x01"[..],
        &b"54=1\x0155=AAPL\x0144=10\x0138=5\x01"[..],
    ] {
        let msg = FixMessage::scan(raw);
        assert!(engine.can_process(&msg));
        assert!(engine.process_fix_message(&msg).is_empty());
        assert!(engine.book(b"AAPL").is_none());
    }
}

#[test]
fn engine_refuses_a_price_beyond_64_bits() {
    let engine = MatchingEngine::new();
    let msg = FixMessage::scan(b"35=D\x0154=1\x0155=AAPL\x0144=99999999999999999999\x0138=5\x01");
    assert!(!engine.can_process(&msg));
}

#[test]
fn symbols_longer_than_eight_bytes_share_a_book() {
    let mut engine = MatchingEngine::new();
    let s = FixMessage::scan(b"35=D\x0154=2\x0155=ABCDEFGHXX\x0144=1\x0138=5\x01");
    engine.process_fix_message(&s);
    assert!(engine.book(b"ABCDEFGH").is_some());
    assert!(engine.book(b"ABCDEFG").is_none());
}

#[test]
fn symbol_keys_pad_and_truncate_to_eight_bytes() {
    assert_eq!(symbol_key(b"AAPL"), *b"AAPL\0\0\0\0");
    assert_eq!(symbol_key(b"ABCDEFGHIJ"), *b"ABCDEFGH");
    assert_eq!(symbol_key(b""), [0u8; 8]);
}
