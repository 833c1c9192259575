use fix_lob_engine::engine::settlement::SettlementEngine;
use fix_lob_engine::engine::twap::{
    args_in_range, child_clord_id, child_price, child_quantities, parse_args, pre_send_decision,
    spread_in_ticks,
    unsent_qty, ArgError, ArgOption, PreSend, TwapChildOrder, TWAP_BASE_PRICE,
};
use fix_lob_engine::lob::orderbook::{LimitOrderBook, Side, TICK_SIZE};
use std::time::Duration;

#[test]
fn settlement_names_the_maker_by_its_side() {
    let mut book = LimitOrderBook::new();
    book.submit_order(b"S1", b"X", Side::Sell, 10, 5);
    book.submit_order(b"B1", b"X", Side::Buy, 9, 5);
    let buys = book.submit_order(b"B2", b"X", Side::Buy, 10, 3);
    let sells = book.submit_order(b"S2", b"X", Side::Sell, 9, 4);
    let engine = SettlementEngine::new();
    let r1 = engine.settle_fills(&buys);
    assert_eq!(r1.len(), 1);
    assert_eq!((r1[0].fill_price, r1[0].fill_qty, r1[0].side), (10, 3, Side::Sell));
    assert_eq!((r1[0].buyer_order_id, r1[0].seller_order_id), (0, 1));
    let r2 = engine.settle_fills(&sells);
    assert_eq!(r2.len(), 1);
    assert_eq!((r2[0].buyer_order_id, r2[0].seller_order_id), (2, 0));
    assert!(engine.settle_fills(&[]).is_empty());
}

#[test]
fn child_quantities_split_evenly_and_sum_to_the_total() {
    assert_eq!(child_quantities(10, 3), vec![4, 3, 3]);
    assert_eq!(child_quantities(2, 5), vec![1, 1, 0, 0, 0]);
    assert_eq!(child_quantities(7, 0), Vec::<u64>::new());
    let q = child_quantities(u64::MAX, 7);
    assert_eq!(q.iter().map(|&x| x as u128).sum::<u128>(), u64::MAX as u128);
}

#[test]
fn child_prices_and_ids() {
    assert_eq!(child_price(0), TWAP_BASE_PRICE);
    assert_eq!(child_price(-2), 100_0000_0000 - 2 * TICK_SIZE);
    assert_eq!(child_price(2), 100_0200_0000);
    assert_eq!(child_clord_id(42, 7), b"TWAP-00000042-0007".to_vec());
    assert_eq!(child_clord_id(123456789, 12345), b"TWAP-123456789-12345".to_vec());
}

#[test]
fn unsent_quantity_counts_only_unsent_children() {
    let mk = |qty: u64, sent: bool| TwapChildOrder {
        qty,
        scheduled_offset: Duration::from_millis(0),
        price: 1,
        clord_id: String::from("x"),
        sent,
    };
    let orders = vec![mk(5, true), mk(7, false), mk(11, false)];
    assert_eq!(unsent_qty(&orders), 18);
    assert_eq!(unsent_qty(&[]), 0);
}

#[test]
fn pre_send_halts_only_a_wide_spread_before_override() {
    let (bid, ask) = (Some(100_0000_0000i64), Some(100_0600_0000i64));
    assert_eq!(pre_send_decision(false, bid, ask, TICK_SIZE, 5), PreSend::HaltForOverride);
    assert_eq!(pre_send_decision(false, bid, Some(100_0500_0000), TICK_SIZE, 5), PreSend::Send);
    assert_eq!(pre_send_decision(false, None, ask, TICK_SIZE, 5), PreSend::Send);
    assert_eq!(pre_send_decision(true, bid, Some(200_0000_0000), TICK_SIZE, 5), PreSend::Send);
    // in ticks of the configured size: 0.06 is three ticks of 0.02
    assert_eq!(pre_send_decision(false, bid, ask, 2 * TICK_SIZE, 5), PreSend::Send);
    assert_eq!(pre_send_decision(false, bid, ask, 2 * TICK_SIZE, 2), PreSend::HaltForOverride);
}

#[test]
fn spreads_count_ticks_of_the_given_size() {
    let bid = Some(100_0000_0000i64);
    assert_eq!(spread_in_ticks(bid, Some(100_0500_0000), TICK_SIZE), Some(5));
    assert_eq!(spread_in_ticks(bid, Some(100_0500_0000), 5000_0000), Some(0));
    assert_eq!(spread_in_ticks(bid, Some(101_0000_0000), 5000_0000), Some(2));
    assert_eq!(spread_in_ticks(bid, Some(99_0000_0000), TICK_SIZE), Some(0));
    assert_eq!(spread_in_ticks(bid, None, TICK_SIZE), None);
    assert_eq!(spread_in_ticks(bid, Some(101_0000_0000), 0), None);
    assert_eq!(spread_in_ticks(Some(i64::MIN), Some(i64::MAX), 1), Some(u32::MAX));
}

fn args(list: &[&str]) -> Vec<String> {
    list.iter().map(|s| s.to_string()).collect()
}

#[test]
fn twap_arguments_are_read_with_defaults() {
    let a = args(&["prog", "twap", "--symbol", "BTCUSDT", "-q", "+1000", "-d", "60"]);
    assert!(args_in_range(&a));
    let c = parse_args(&a).unwrap();
    assert_eq!(c.symbol, "BTCUSDT");
    assert_eq!(c.symbol_bytes, b"BTCUSDT".to_vec());
    assert_eq!((c.total_qty, c.duration_secs), (1000, 60));
    assert_eq!(c.side, Side::Buy);
    assert_eq!(c.seed, 0xDEADBEEFCAFEBABE);
    assert_eq!(c.tick_size, TICK_SIZE);
    assert_eq!(c.max_spread_ticks, 5);
    let b = args(&[
        "prog", "twap", "-s", "ETH", "-q", "5", "-d", "1", "--side", "sell", "--seed", "0x0xff",
        "--tick-size", "0.5", "--max-spread", "9", "-s", "SOL",
    ]);
    let c = parse_args(&b).unwrap();
    assert_eq!(c.symbol, "SOL");
    assert_eq!(c.side, Side::Sell);
    assert_eq!(c.seed, 255);
    assert_eq!(c.tick_size, 5000_0000);
    assert_eq!(c.max_spread_ticks, 9);
    let d = args(&["prog", "twap", "-s", "X", "-q", "1", "-d", "1", "--seed", "123"]);
    assert_eq!(parse_args(&d).unwrap().seed, 123);
    let d = args(&["prog", "twap", "-s", "X", "-q", "1", "-d", "1", "--seed", "12345"]);
    assert_eq!(parse_args(&d).unwrap().seed, 12345);
    let d = args(&["prog", "twap", "-s", "X", "-q", "1", "-d", "1", "--seed", "0xCAFEBABE"]);
    assert_eq!(parse_args(&d).unwrap().seed, 0xCAFEBABE);
    let d = args(&["prog", "twap", "-s", "X", "-q", "1", "-d", "1", "--seed", "ff"]);
    assert_eq!(parse_args(&d).unwrap().seed, 255);
    let d = args(&["prog", "twap", "-s", "X", "-q", "1", "-d", "1", "--seed", "DEADBEEF"]);
    assert_eq!(parse_args(&d).unwrap().seed, 0xDEADBEEF);
    let d = args(&["prog", "twap", "-s", "X", "-q", "1", "-d", "1", "--seed", "18446744073709551616"]);
    assert_eq!(parse_args(&d).err(), Some(ArgError::BadValue));
    let d = args(&["prog", "twap", "-s", "X", "-q", "1", "-d", "1", "--seed", "1234567890123456"]);
    assert_eq!(parse_args(&d).unwrap().seed, 1234567890123456);
    let e = args(&["prog", "twap", "-s", "X", "-q", "1", "-d", "1", "--seed", "123g"]);
    assert_eq!(parse_args(&e).err(), Some(ArgError::BadValue));
}

#[test]
fn twap_arguments_refused() {
    let cases: Vec<(Vec<String>, ArgError)> = vec![
        (args(&["p", "twap", "-s"]), ArgError::MissingValue(ArgOption::Symbol)),
        (args(&["p", "twap", "-q", "x"]), ArgError::BadValue),
        (args(&["p", "twap", "-q", "+"]), ArgError::BadValue),
        (args(&["p", "twap", "--side", "LONG"]), ArgError::BadSide),
        (args(&["p", "twap", "-s", "A", "--fast"]), ArgError::UnknownArgument(4)),
        (args(&["p", "twap", "-s", "ABCDEFGHI", "-q", "1", "-d", "1"]), ArgError::BadSymbol),
        (args(&["p", "twap", "-s", "", "-q", "1", "-d", "1"]), ArgError::BadSymbol),
        (args(&["p", "twap", "-s", "A", "-q", "0", "-d", "1"]), ArgError::ZeroQty),
        (args(&["p", "twap", "-s", "A", "-q", "1", "-d", "0"]), ArgError::ZeroDuration),
        (args(&["p", "twap", "-s", "A", "-q", "1"]), ArgError::MissingRequired),
        (args(&["p", "twap", "--max-spread", "4294967296"]), ArgError::BadValue),
    ];
    for (a, e) in cases {
        assert!(args_in_range(&a));
        assert_eq!(parse_args(&a).err(), Some(e));
    }
    assert!(!args_in_range(&args(&["p", "twap", "--tick-size", "99999999999999"])));
}
