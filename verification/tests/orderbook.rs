use fix_lob_engine::fix::scanner::FixMessage;
use fix_lob_engine::lob::orderbook::{
    format_fix_price, parse_price, parse_price_checked, price_bytes, u64_digits, Fill,
    LimitOrderBook, Order, Side, MAX_SPREAD_TICKS, TICK_SIZE,
};

fn fill(side: Side, price: i64, taker_leaves: u64) -> Fill {
    let mut clord = [0u8; 20];
    clord[..3].copy_from_slice(b"B01");
    let mut sym = [0u8; 8];
    sym[..4].copy_from_slice(b"AAPL");
    Fill {
        maker_order_id: 7,
        taker_clord_id: clord,
        taker_clord_id_len: 3,
        symbol: sym,
        symbol_len: 4,
        side,
        price,
        fill_qty: 40,
        maker_leaves: 0,
        taker_leaves,
        taker_order_qty: 100,
        exec_id: 12,
    }
}

#[test]
fn execution_report_layout_and_checksum() {
    let report = LimitOrderBook::format_execution_report(&fill(Side::Sell, 100_5000_0000, 60));
    let body = "35=8\x0137=7\x0111=B01\x0117=12\x01150=1\x0139=1\x0155=AAPL\x0154=2\x0144=100.5\x0138=100\x016=100.5\x0114=40\x01151=60\x01";
    let framed = format!("8=FIX.4.4\x019={}\x01{}", body.len(), body);
    let sum: u32 = framed.bytes().map(|b| b as u32).sum();
    let expected = format!("{}10={:03}\x01", framed, sum % 256);
    assert_eq!(report, expected.into_bytes());
}

#[test]
fn execution_report_of_a_complete_fill_says_filled() {
    let report = LimitOrderBook::format_execution_report(&fill(Side::Buy, 1_0000_0000, 0));
    let text = String::from_utf8(report).unwrap();
    assert!(text.contains("\x01150=2\x0139=2\x01"));
    assert!(text.contains("\x0154=1\x01"));
    assert!(text.contains("\x0144=1.0\x01"));
    assert!(text.contains("\x0114=100\x01151=0\x01"));
}

#[test]
fn prices_format_with_trimmed_decimals() {
    assert_eq!(price_bytes(100_5000_0000), b"100.5".to_vec());
    assert_eq!(price_bytes(0), b"0.0".to_vec());
    assert_eq!(price_bytes(1), b"0.00000001".to_vec());
    assert_eq!(price_bytes(-2_5000_0000), b"-2.5".to_vec());
    assert_eq!(price_bytes(-5000_0000), b"0.5".to_vec());
    let mut buf = [b'#'; 16];
    let n = format_fix_price(123_0100_0000, &mut buf);
    assert_eq!(&buf[..n], b"123.01");
    assert_eq!(buf[n], b'#');
}

#[test]
fn price_parsing_skips_stray_bytes_and_truncates_decimals() {
    assert_eq!(parse_price(b"1.123456789"), 1_1234_5678);
    assert_eq!(parse_price(b"-3"), 3_0000_0000);
    assert_eq!(parse_price(b"1.2.3"), 1_2300_0000);
    assert_eq!(parse_price(b""), 0);
    assert_eq!(parse_price_checked(b"92233720368.54775807"), Some(i64::MAX));
    assert_eq!(parse_price_checked(b"92233720368.54775808"), None);
}

#[test]
fn decimal_digits() {
    assert_eq!(u64_digits(0), b"0".to_vec());
    assert_eq!(u64_digits(u64::MAX), b"18446744073709551615".to_vec());
}

#[test]
fn top_of_book_and_spread() {
    let mut book = LimitOrderBook::new();
    assert_eq!(book.top_of_book(), (None, None));
    assert_eq!(book.spread_ticks(), None);
    book.submit_order(b"B1", b"X", Side::Buy, 99_0000_0000, 10);
    book.submit_order(b"B2", b"X", Side::Buy, 98_0000_0000, 10);
    assert_eq!(book.best_bid(), Some(99_0000_0000));
    assert_eq!(book.best_ask(), None);
    assert!(!book.is_spread_too_wide());
    book.submit_order(b"S1", b"X", Side::Sell, 99_0000_0000 + 7 * TICK_SIZE + 1, 10);
    book.submit_order(b"S2", b"X", Side::Sell, 101_0000_0000, 10);
    assert_eq!(book.best_ask(), Some(99_0000_0000 + 7 * TICK_SIZE + 1));
    assert_eq!(book.spread_ticks(), Some(7));
    assert!(7 > MAX_SPREAD_TICKS);
    assert!(book.is_spread_too_wide());
}

#[test]
fn sell_taker_sweeps_bids_from_the_highest() {
    let mut book = LimitOrderBook::new();
    book.submit_order(b"B1", b"X", Side::Buy, 10, 5);
    book.submit_order(b"B2", b"X", Side::Buy, 12, 5);
    book.submit_order(b"B3", b"X", Side::Buy, 11, 5);
    let fills = book.submit_order(b"S1", b"X", Side::Sell, 11, 20);
    assert_eq!(fills.len(), 2);
    assert_eq!((fills[0].price, fills[0].fill_qty, fills[0].side), (12, 5, Side::Buy));
    assert_eq!((fills[1].price, fills[1].fill_qty), (11, 5));
    assert_eq!(fills[1].taker_leaves, 10);
    assert_eq!(fills[0].exec_id + 1, fills[1].exec_id);
    assert_eq!(book.best_bid(), Some(10));
    assert_eq!(book.best_ask(), Some(11));
    assert_eq!(book.level_total(Side::Sell, 11), 10);
    assert_eq!(book.level_total(Side::Buy, 10), 5);
    assert_eq!(book.level_total(Side::Buy, 12), 0);
    assert_eq!(book.next_order_id, 5);
    assert_eq!(book.seq, 4);
}

#[test]
fn can_accept_checks_counters() {
    let book = LimitOrderBook::new();
    assert!(book.can_accept(1, 1, Side::Buy, 10, 5));
    assert!(!book.can_accept(u64::MAX, 1, Side::Buy, 10, 5));
    // no execution takes an exec id, so the last one is still free
    assert!(book.can_accept(1, u64::MAX, Side::Buy, 10, 5));
    let mut book = LimitOrderBook::new();
    book.submit_order(b"S1", b"X", Side::Sell, 10, 5);
    assert!(!book.can_accept(2, u64::MAX, Side::Buy, 10, 5));
    assert!(book.can_accept(2, u64::MAX - 1, Side::Buy, 10, 5));
    assert!(book.can_accept(2, u64::MAX, Side::Buy, 9, 5));
}

#[test]
fn can_accept_takes_a_full_book_that_frees_a_slot() {
    let mut book = LimitOrderBook::new();
    book.submit_order(b"S0", b"X", Side::Sell, 10, 1);
    let mut n: usize = 1;
    while book.order_arena.has_free_slot() {
        book.submit_order(b"S", b"X", Side::Sell, 11, 1);
        n += 1;
    }
    assert_eq!(n, 262_144);
    let (oid, eid) = (book.next_order_id, book.next_exec_id);
    // fills the order at 10 completely and rests the rest in the slot it frees
    assert!(book.can_accept(oid, eid, Side::Buy, 10, 2));
    // would rest without filling anything
    assert!(!book.can_accept(oid, eid, Side::Buy, 9, 1));
    let fills = book.submit_order(b"B", b"X", Side::Buy, 10, 2);
    assert_eq!(fills.len(), 1);
    assert_eq!(book.best_bid(), Some(10));
    assert_eq!(book.best_ask(), Some(11));
}

#[test]
fn order_accessors() {
    let mut o = Order::new();
    o.order_qty = 10;
    o.filled_qty = 3;
    assert_eq!(o.leaves_qty(), 7);
    o.filled_qty = 12;
    assert_eq!(o.leaves_qty(), 0);
    o.clord_id[..2].copy_from_slice(b"ID");
    o.clord_id_len = 2;
    o.symbol[..3].copy_from_slice(b"SYM");
    o.symbol_len = 3;
    assert_eq!(o.clord_id_slice(), b"ID");
    assert_eq!(o.symbol_slice(), b"SYM");
    assert_eq!(Side::from_byte(b'1'), Some(Side::Buy));
    assert_eq!(Side::from_byte(b'2'), Some(Side::Sell));
    assert_eq!(Side::from_byte(b'3'), None);
    assert_eq!(Side::Sell.to_fix_byte(), b'2');
}

#[test]
fn formatted_prices_read_back() {
    for p in [0i64, 1, 99, 100_0000_0000, 123_4567_8900, 5000_0000, i64::MAX] {
        assert_eq!(parse_price(&price_bytes(p)), p);
    }
    assert_eq!(parse_price(&price_bytes(-2_5000_0000)), 2_5000_0000);
}

#[test]
fn crossing_orders_trade_until_the_book_is_uncrossed() {
    let mut book = LimitOrderBook::new();
    book.submit_order(b"S1", b"X", Side::Sell, 101, 10);
    book.submit_order(b"S2", b"X", Side::Sell, 103, 10);
    book.submit_order(b"B1", b"X", Side::Buy, 99, 10);
    let fills = book.submit_order(b"B2", b"X", Side::Buy, 102, 25);
    let filled: u64 = fills.iter().map(|f| f.fill_qty).sum();
    assert_eq!(filled, 10);
    assert!(fills.iter().all(|f| f.price <= 102));
    assert_eq!(book.best_bid(), Some(102));
    assert_eq!(book.best_ask(), Some(103));
    assert!(book.best_bid().unwrap() < book.best_ask().unwrap());
    assert_eq!(filled + book.level_total(Side::Buy, 102), 25);
}

#[test]
fn execution_report_scans_back() {
    let report = LimitOrderBook::format_execution_report(&fill(Side::Sell, 100_5000_0000, 60));
    let msg = FixMessage::scan(&report);
    assert_eq!(msg.msg_type, Some(&b"8"[..]));
    assert_eq!(msg.clord_id, Some(&b"B01"[..]));
    assert_eq!(msg.symbol, Some(&b"AAPL"[..]));
    assert_eq!(msg.side, Some(&b"2"[..]));
    assert_eq!(msg.price, Some(&b"100.5"[..]));
    assert_eq!(msg.order_qty, Some(&b"100"[..]));
    assert_eq!(msg.sender, None);
}

#[test]
fn price_texts_fit_in_twenty_bytes_when_not_negative() {
    assert_eq!(price_bytes(i64::MAX), b"92233720368.54775807".to_vec());
    assert_eq!(price_bytes(i64::MAX).len(), 20);
    assert_eq!(price_bytes(i64::MIN), b"-92233720368.54775808".to_vec());
    assert_eq!(price_bytes(1_2000_0000), b"1.2".to_vec());
    let mut buf = [0u8; 20];
    let n = format_fix_price(i64::MAX, &mut buf);
    assert_eq!(n, 20);
    assert_eq!(parse_price(&buf[..n]), i64::MAX);
}

#[test]
fn queues_keep_time_order() {
    let mut book = LimitOrderBook::new();
    book.submit_order(b"S1", b"X", Side::Sell, 10, 5);
    book.submit_order(b"S2", b"X", Side::Sell, 10, 5);
    book.submit_order(b"S3", b"X", Side::Sell, 10, 5);
    book.submit_order(b"B1", b"X", Side::Buy, 10, 2);
    let level = book.asks.find(10).unwrap();
    let head = book.asks.arena.get(level).order_head;
    let tail = book.asks.arena.get(level).order_tail;
    let first = *book.order_arena.get(head);
    let second = *book.order_arena.get(first.next);
    let last = *book.order_arena.get(tail);
    assert!(first.timestamp < second.timestamp && second.timestamp < last.timestamp);
    assert!(last.timestamp <= book.seq);
    assert_eq!(first.order_qty - first.filled_qty, 3);
}
