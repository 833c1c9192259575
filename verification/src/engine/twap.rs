use crate::fix::scanner::{parse_tag, parse_u64, spec_parse_decimal};
use crate::lob::orderbook::{
    dec_str, parse_price_checked, spec_price, u64_digits, Side, MAX_SPREAD_TICKS, TICK_SIZE,
};
use vstd::slice::{slice_subrange, slice_to_vec};
use vstd::utf8::encode_utf8;
use std::time::Duration;
use vstd::prelude::*;

verus! {

/// A TWAP execution request.
pub struct TwapConfig {
    pub symbol: String,
    pub symbol_bytes: Vec<u8>,
    pub total_qty: u64,
    pub duration_secs: u64,
    pub side: Side,
    pub tick_size: i64,
    pub max_spread_ticks: u32,
    pub seed: u64,
}

/// One slice of a TWAP execution.
pub struct TwapChildOrder {
    pub qty: u64,
    pub scheduled_offset: Duration,
    pub price: i64,
    pub clord_id: String,
    pub sent: bool,
}

/// The quantity of child `i` when `total` is split over `n` children: an equal share,
/// plus one for each of the first `total % n` children.
pub open spec fn child_qty(total: nat, n: nat, i: nat) -> nat {
    total / n + if i < total % n {
        1nat
    } else {
        0nat
    }
}

pub open spec fn sum_u64(s: Seq<u64>) -> nat
    decreases s.len(),
{
    if s.len() == 0 {
        0
    } else {
        sum_u64(s.drop_last()) + (s.last() as nat)
    }
}

proof fn lemma_child_qty_bound(total: nat, n: nat, i: nat)
    requires
        n > 0,
    ensures
        child_qty(total, n, i) <= total,
{
    let q = total / n;
    let r = total % n;
    vstd::arithmetic::div_mod::lemma_fundamental_div_mod(total as int, n as int);
    assert(0 <= r < n) by {
        vstd::arithmetic::div_mod::lemma_mod_bound(total as int, n as int);
    }
    assert(q <= q * n) by (nonlinear_arith)
        requires
            n >= 1,
    ;
    assert(total == n * q + r);
    assert(n * q == q * n) by (nonlinear_arith);
}

/// The first `k` children of a split of `total` over `n` hold `k` equal shares and one
/// extra unit for each of them below `total % n`, which is at most `total`.
proof fn lemma_split_sum(total: nat, n: nat, k: nat)
    requires
        n > 0,
        k <= n,
        total <= u64::MAX,
    ensures
        sum_u64(Seq::new(k, |i: int| child_qty(total, n, i as nat) as u64)) == k * (total / n) + (
        if k < total % n {
            k
        } else {
            total % n
        }),
        k * (total / n) + (if k < total % n {
            k
        } else {
            total % n
        }) <= total,
    decreases k,
{
    let s = Seq::new(k, |i: int| child_qty(total, n, i as nat) as u64);
    let q = total / n;
    let r = total % n;
    vstd::arithmetic::div_mod::lemma_fundamental_div_mod(total as int, n as int);
    assert(total == n * q + r);
    assert(k * q <= n * q) by (nonlinear_arith)
        requires
            k <= n,
    ;
    if k > 0 {
        lemma_split_sum(total, n, (k - 1) as nat);
        assert(s.drop_last() =~= Seq::new((k - 1) as nat, |i: int| child_qty(total, n, i as nat) as u64));
        assert((k - 1) * q + q == k * q) by (nonlinear_arith);
        lemma_child_qty_bound(total, n, (k - 1) as nat);
        assert(s.last() as nat == child_qty(total, n, (k - 1) as nat));
        assert(sum_u64(s) == sum_u64(s.drop_last()) + (s.last() as nat));
        if k - 1 < r {
            assert(child_qty(total, n, (k - 1) as nat) == q + 1);
            assert(sum_u64(s) == (k - 1) * q + (k - 1) + q + 1);
            assert(sum_u64(s) == k * q + k);
        } else {
            assert(child_qty(total, n, (k - 1) as nat) == q);
            assert(sum_u64(s) == (k - 1) * q + r + q);
            assert(sum_u64(s) == k * q + r);
        }
    } else {
        assert(s =~= Seq::<u64>::empty());
        assert(0 * q == 0) by (nonlinear_arith);
    }
}

/// Splits `total_qty` over `num_orders` children, the first `total_qty % num_orders`
/// of them one unit larger; any shortfall goes to the last child.
pub fn child_quantities(total_qty: u64, num_orders: usize) -> (r: Vec<u64>)
    ensures
        r@.len() == num_orders,
        forall|i: int|
            0 <= i < num_orders ==> #[trigger] r@[i] == child_qty(
                total_qty as nat,
                num_orders as nat,
                i as nat,
            ),
        num_orders > 0 ==> sum_u64(r@) == total_qty,
{
    let n: u64 = if num_orders > 1 {
        num_orders as u64
    } else {
        1
    };
    let qty_per_order = total_qty / n;
    let remainder = total_qty % n;
    let mut out: Vec<u64> = Vec::new();
    let mut accumulated: u64 = 0;
    let mut i: usize = 0;
    proof {
        vstd::arithmetic::div_mod::lemma_fundamental_div_mod(total_qty as int, n as int);
    }
    while i < num_orders
        invariant
            n == (if num_orders > 1 {
                num_orders
            } else {
                1
            }),
            num_orders > 0 ==> n == num_orders,
            qty_per_order == total_qty / n,
            remainder == total_qty % n,
            i <= num_orders,
            out@.len() == i,
            forall|k: int|
                0 <= k < i ==> #[trigger] out@[k] == child_qty(total_qty as nat, n as nat, k as nat),
            num_orders > 0 ==> out@ == Seq::new(
                i as nat,
                |k: int| child_qty(total_qty as nat, n as nat, k as nat) as u64,
            ),
            num_orders > 0 ==> accumulated == sum_u64(out@),
            num_orders > 0 ==> sum_u64(out@) == i * qty_per_order + (if i < remainder {
                i as nat
            } else {
                remainder as nat
            }),
            (qty_per_order as nat) * (n as nat) + remainder == total_qty,
        decreases num_orders - i,
    {
            proof {
            lemma_child_qty_bound(total_qty as nat, n as nat, i as nat);
        }
        let mut qty = qty_per_order;
        if (i as u64) < remainder {
            qty = qty + 1;
        }
        proof {
            lemma_split_sum(total_qty as nat, n as nat, (i + 1) as nat);
            lemma_child_qty_bound(total_qty as nat, n as nat, i as nat);
            assert(out@.push(qty).drop_last() =~= out@);
            let s1 = Seq::new((i + 1) as nat, |k: int| child_qty(total_qty as nat, n as nat, k as nat) as u64);
            assert(s1.drop_last() =~= out@);
            assert(s1.last() == qty);
            assert(sum_u64(s1) == sum_u64(s1.drop_last()) + (s1.last() as nat));
        }
        accumulated = accumulated + qty;
        out.push(qty);
        i += 1;
        proof {
            if num_orders > 0 {
                assert(out@ =~= Seq::new(
                    i as nat,
                    |k: int| child_qty(total_qty as nat, n as nat, k as nat) as u64,
                ));
            }
        }
    }
    if accumulated < total_qty {
        let diff = total_qty - accumulated;
        if out.len() > 0 {
            proof {
                assert((num_orders as nat) * (qty_per_order as nat) + remainder == total_qty);
                assert(false);
            }
            let last = out.len() - 1;
            let v = out[last];
            out.set(last, v + diff);
        }
    }
    proof {
        if num_orders > 0 {
            assert((num_orders as nat) * (qty_per_order as nat) == (qty_per_order as nat) * (
            num_orders as nat)) by (nonlinear_arith);
        }
    }
    out
}


/// The price around which child orders are placed: 100.00 in units of 0.01.
pub const TWAP_BASE_PRICE: i64 = 10_000_000_000;

/// The limit price of a child order, `tick_jitter` ticks away from the base price.
pub fn child_price(tick_jitter: i64) -> (r: i64)
    requires
        i64::MIN <= tick_jitter * TICK_SIZE,
        TWAP_BASE_PRICE + tick_jitter * TICK_SIZE <= i64::MAX,
    ensures
        r == TWAP_BASE_PRICE + tick_jitter * TICK_SIZE,
{
    let base_price = 100 * TICK_SIZE * 100;
    base_price + tick_jitter * TICK_SIZE
}

/// `s` left-padded with `0` digits to `width` bytes.
pub open spec fn zero_padded(s: Seq<u8>, width: nat) -> Seq<u8> {
    if s.len() >= width {
        s
    } else {
        Seq::new((width - s.len()) as nat, |j: int| 48u8) + s
    }
}

/// `TWAP-<seed, 8 digits>-<index, 4 digits>`, the client order id of child `i`.
pub open spec fn child_clord(seed: u64, i: nat) -> Seq<u8> {
    seq![84u8, 87u8, 65u8, 80u8, 45u8] + zero_padded(dec_str(seed as nat), 8) + seq![45u8]
        + zero_padded(dec_str(i), 4)
}

/// Appends `n` in decimal, left-padded with zeros to `width` digits.
fn push_padded(out: &mut Vec<u8>, n: u64, width: usize)
    ensures
        final(out)@ == old(out)@ + zero_padded(dec_str(n as nat), width as nat),
{
    let digits = u64_digits(n);
    let ghost start = out@;
    if digits.len() < width {
        let pad = width - digits.len();
        let mut k: usize = 0;
        while k < pad
            invariant
                k <= pad,
                out@ == start + Seq::new(k as nat, |j: int| 48u8),
            decreases pad - k,
        {
            out.push(48u8);
            k += 1;
            proof {
                assert(out@ =~= start + Seq::new(k as nat, |j: int| 48u8));
            }
        }
    }
    let ghost mid = out@;
    let mut i: usize = 0;
    while i < digits.len()
        invariant
            i <= digits@.len(),
            out@ == mid + digits@.take(i as int),
        decreases digits@.len() - i,
    {
        out.push(digits[i]);
        i += 1;
        proof {
            assert(digits@.take(i as int) =~= digits@.take(i - 1).push(digits@[i - 1]));
        }
    }
    proof {
        assert(digits@.take(digits@.len() as int) =~= digits@);
        assert(out@ =~= start + zero_padded(dec_str(n as nat), width as nat));
    }
}

/// The client order id of child `i` of the execution seeded with `seed`.
pub fn child_clord_id(seed: u64, i: usize) -> (r: Vec<u8>)
    ensures
        r@ == child_clord(seed, i as nat),
{
    let mut out: Vec<u8> = Vec::new();
    out.push(84u8);
    out.push(87u8);
    out.push(65u8);
    out.push(80u8);
    out.push(45u8);
    push_padded(&mut out, seed, 8);
    out.push(45u8);
    push_padded(&mut out, i as u64, 4);
    proof {
        assert(out@ =~= child_clord(seed, i as nat));
    }
    out
}

/// The total quantity of the children not sent yet.
pub open spec fn unsent_sum(s: Seq<TwapChildOrder>) -> nat
    decreases s.len(),
{
    if s.len() == 0 {
        0
    } else {
        unsent_sum(s.drop_last()) + if s.last().sent {
            0nat
        } else {
            s.last().qty as nat
        }
    }
}

proof fn lemma_unsent_prefix(s: Seq<TwapChildOrder>, k: int)
    requires
        0 <= k <= s.len(),
    ensures
        unsent_sum(s.take(k)) <= unsent_sum(s),
    decreases s.len(),
{
    if k < s.len() {
        assert(s.drop_last().take(k) =~= s.take(k));
        lemma_unsent_prefix(s.drop_last(), k);
    } else {
        assert(s.take(k) =~= s);
    }
}

/// The quantity still to be sent.
pub fn unsent_qty(orders: &[TwapChildOrder]) -> (r: u64)
    requires
        unsent_sum(orders@) <= u64::MAX,
    ensures
        r == unsent_sum(orders@),
{
    let mut total: u64 = 0;
    let mut i: usize = 0;
    while i < orders.len()
        invariant
            i <= orders@.len(),
            total == unsent_sum(orders@.take(i as int)),
            unsent_sum(orders@) <= u64::MAX,
        decreases orders@.len() - i,
    {
        proof {
            assert(orders@.take(i + 1).drop_last() =~= orders@.take(i as int));
            lemma_unsent_prefix(orders@, i + 1);
        }
        if !orders[i].sent {
            total = total + orders[i].qty;
        }
        i += 1;
    }
    proof {
        assert(orders@.take(i as int) =~= orders@);
    }
    total
}

/// What happens before a child order goes out.
#[derive(Clone, Copy, PartialEq, Eq, Structural, Debug)]
pub enum PreSend {
    /// Send it.
    Send,
    /// The spread is too wide: halt every child order until an operator overrides.
    HaltForOverride,
}

/// The spread between `bid` and `ask` in whole ticks of `tick_size`, cut to 32 bits;
/// zero where the book is crossed or locked, none where a side is empty or the tick
/// size is not positive.
pub open spec fn spread_in(bid: Option<i64>, ask: Option<i64>, tick_size: i64) -> Option<u32> {
    match (bid, ask) {
        (Some(b), Some(a)) => if tick_size <= 0 {
            None
        } else if a > b {
            Some(((a - b) / (tick_size as int)) as u32)
        } else {
            Some(0)
        },
        _ => None,
    }
}

/// The spread between `bid` and `ask` counted in ticks of `tick_size`.
pub fn spread_in_ticks(bid: Option<i64>, ask: Option<i64>, tick_size: i64) -> (r: Option<u32>)
    ensures
        r == spread_in(bid, ask, tick_size),
{
    match (bid, ask) {
        (Some(b), Some(a)) => {
            if tick_size <= 0 {
                None
            } else if a > b {
                let d: i128 = (a as i128) - (b as i128);
                let q: i128 = d / (tick_size as i128);
                Some(q as u32)
            } else {
                Some(0)
            }
        },
        _ => None,
    }
}

/// Once overridden, children go out whatever the spread; before that, a spread of more
/// than `max_spread_ticks` ticks of the configured `tick_size` halts them.
pub fn pre_send_decision(
    override_forced: bool,
    bid: Option<i64>,
    ask: Option<i64>,
    tick_size: i64,
    max_spread_ticks: u32,
) -> (r: PreSend)
    ensures
        r == (if !override_forced && (spread_in(bid, ask, tick_size) matches Some(s) && s
            > max_spread_ticks) {
            PreSend::HaltForOverride
        } else {
            PreSend::Send
        }),
{
    if override_forced {
        return PreSend::Send;
    }
    match spread_in_ticks(bid, ask, tick_size) {
        Some(s) => {
            if s > max_spread_ticks {
                PreSend::HaltForOverride
            } else {
                PreSend::Send
            }
        },
        None => PreSend::Send,
    }
}


// ---------------------------------------------------------------------------
// Command-line arguments of a TWAP run.

/// An option of a TWAP run.
#[derive(Clone, Copy, Debug, PartialEq, Eq, Structural)]
pub enum ArgOption {
    Symbol,
    TotalQty,
    Duration,
    Side,
    Seed,
    TickSize,
    MaxSpread,
}

/// Why TWAP arguments were refused.
#[derive(Clone, Copy, Debug, PartialEq, Eq, Structural)]
pub enum ArgError {
    /// The option comes last, with no value after it.
    MissingValue(ArgOption),
    /// A number that does not parse.
    BadValue,
    /// A side other than `BUY`, `buy`, `1`, `SELL`, `sell` or `2`.
    BadSide,
    /// The argument at this index is no option.
    UnknownArgument(usize),
    /// The symbol is empty or longer than eight bytes.
    BadSymbol,
    /// The total quantity is zero.
    ZeroQty,
    /// The duration is zero.
    ZeroDuration,
    /// The symbol, total quantity or duration is missing.
    MissingRequired,
}

/// `--symbol`
pub open spec fn arg_symbol_long() -> Seq<u8> {
    seq![45u8, 45u8, 115u8, 121u8, 109u8, 98u8, 111u8, 108u8]
}

/// `-s`
pub open spec fn arg_symbol_short() -> Seq<u8> {
    seq![45u8, 115u8]
}

/// `--total-qty`
pub open spec fn arg_qty_long() -> Seq<u8> {
    seq![45u8, 45u8, 116u8, 111u8, 116u8, 97u8, 108u8, 45u8, 113u8, 116u8, 121u8]
}

/// `-q`
pub open spec fn arg_qty_short() -> Seq<u8> {
    seq![45u8, 113u8]
}

/// `--duration`
pub open spec fn arg_duration_long() -> Seq<u8> {
    seq![45u8, 45u8, 100u8, 117u8, 114u8, 97u8, 116u8, 105u8, 111u8, 110u8]
}

/// `-d`
pub open spec fn arg_duration_short() -> Seq<u8> {
    seq![45u8, 100u8]
}

/// `--side`
pub open spec fn arg_side_long() -> Seq<u8> {
    seq![45u8, 45u8, 115u8, 105u8, 100u8, 101u8]
}

/// `-S`
pub open spec fn arg_side_short() -> Seq<u8> {
    seq![45u8, 83u8]
}

/// `--seed`
pub open spec fn arg_seed_long() -> Seq<u8> {
    seq![45u8, 45u8, 115u8, 101u8, 101u8, 100u8]
}

/// `--tick-size`
pub open spec fn arg_tick_long() -> Seq<u8> {
    seq![45u8, 45u8, 116u8, 105u8, 99u8, 107u8, 45u8, 115u8, 105u8, 122u8, 101u8]
}

/// `--max-spread`
pub open spec fn arg_spread_long() -> Seq<u8> {
    seq![45u8, 45u8, 109u8, 97u8, 120u8, 45u8, 115u8, 112u8, 114u8, 101u8, 97u8, 100u8]
}

/// `BUY`
pub open spec fn arg_buy_upper() -> Seq<u8> {
    seq![66u8, 85u8, 89u8]
}

/// `buy`
pub open spec fn arg_buy_lower() -> Seq<u8> {
    seq![98u8, 117u8, 121u8]
}

/// `1`
pub open spec fn arg_buy_code() -> Seq<u8> {
    seq![49u8]
}

/// `SELL`
pub open spec fn arg_sell_upper() -> Seq<u8> {
    seq![83u8, 69u8, 76u8, 76u8]
}

/// `sell`
pub open spec fn arg_sell_lower() -> Seq<u8> {
    seq![115u8, 101u8, 108u8, 108u8]
}

/// `2`
pub open spec fn arg_sell_code() -> Seq<u8> {
    seq![50u8]
}

/// The option an argument names.
pub open spec fn spec_option_of(a: Seq<u8>) -> Option<ArgOption> {
    if a == arg_symbol_long() || a == arg_symbol_short() {
        Some(ArgOption::Symbol)
    } else if a == arg_qty_long() || a == arg_qty_short() {
        Some(ArgOption::TotalQty)
    } else if a == arg_duration_long() || a == arg_duration_short() {
        Some(ArgOption::Duration)
    } else if a == arg_side_long() || a == arg_side_short() {
        Some(ArgOption::Side)
    } else if a == arg_seed_long() {
        Some(ArgOption::Seed)
    } else if a == arg_tick_long() {
        Some(ArgOption::TickSize)
    } else if a == arg_spread_long() {
        Some(ArgOption::MaxSpread)
    } else {
        None
    }
}

/// `s` without its leading `+`, if it has one.
pub open spec fn without_plus(s: Seq<u8>) -> Seq<u8> {
    if s.len() > 0 && s[0] == 43 {
        s.drop_first()
    } else {
        s
    }
}

/// A decimal number as the standard unsigned parsers read it: an optional `+`, then at
/// least one digit, and a value up to `max`.
pub open spec fn std_decimal(s: Seq<u8>, max: nat) -> Option<nat> {
    let d = without_plus(s);
    if d.len() == 0 {
        None
    } else {
        spec_parse_decimal(d, max)
    }
}

pub open spec fn is_hex_digit(b: u8) -> bool {
    (48 <= b <= 57) || (97 <= b <= 102) || (65 <= b <= 70)
}

pub open spec fn hex_digit_value(b: u8) -> nat {
    if 48 <= b <= 57 {
        (b - 48) as nat
    } else if 97 <= b <= 102 {
        (b - 87) as nat
    } else {
        (b - 55) as nat
    }
}

pub open spec fn hex_value(s: Seq<u8>) -> nat
    decreases s.len(),
{
    if s.len() == 0 {
        0
    } else {
        hex_value(s.drop_last()) * 16 + hex_digit_value(s.last())
    }
}

/// A hexadecimal number as the standard unsigned parsers read it.
pub open spec fn std_hex(s: Seq<u8>, max: nat) -> Option<nat> {
    let d = without_plus(s);
    if d.len() > 0 && (forall|i: int| 0 <= i < d.len() ==> is_hex_digit(#[trigger] d[i])) && hex_value(d)
        <= max {
        Some(hex_value(d))
    } else {
        None
    }
}

/// `s` with every leading `0x` removed.
pub open spec fn trim_0x(s: Seq<u8>) -> Seq<u8>
    decreases s.len(),
{
    if s.len() >= 2 && s[0] == 48 && s[1] == 120 {
        trim_0x(s.skip(2))
    } else {
        s
    }
}

/// `s` begins with `0x`.
pub open spec fn has_0x(s: Seq<u8>) -> bool {
    s.len() >= 2 && s[0] == 48 && s[1] == 120
}

/// A seed, hexadecimal or decimal: hexadecimal after a leading `0x` (repeated
/// prefixes are dropped); otherwise decimal where it is a decimal number that fits in
/// 64 bits, and hexadecimal where it is not.
pub open spec fn seed_value(s: Seq<u8>) -> Option<nat> {
    if has_0x(s) {
        std_hex(trim_0x(s), u64::MAX as nat)
    } else {
        match std_decimal(s, u64::MAX as nat) {
            Some(v) => Some(v),
            None => std_hex(s, u64::MAX as nat),
        }
    }
}

/// The side a value names.
pub open spec fn side_value(s: Seq<u8>) -> Option<Side> {
    if s == arg_buy_upper() || s == arg_buy_lower() || s == arg_buy_code() {
        Some(Side::Buy)
    } else if s == arg_sell_upper() || s == arg_sell_lower() || s == arg_sell_code() {
        Some(Side::Sell)
    } else {
        None
    }
}

/// What the options read so far give: the index of the symbol's value, and the other
/// settings.
pub struct ArgScan {
    pub symbol: Option<nat>,
    pub total_qty: Option<u64>,
    pub duration: Option<u64>,
    pub side: Side,
    pub seed: u64,
    pub tick_size: i64,
    pub max_spread_ticks: u32,
}

pub open spec fn default_scan() -> ArgScan {
    ArgScan {
        symbol: None,
        total_qty: None,
        duration: None,
        side: Side::Buy,
        seed: 0xDEAD_BEEF_CAFE_BABE,
        tick_size: TICK_SIZE,
        max_spread_ticks: MAX_SPREAD_TICKS,
    }
}

/// Reads the options from index `i` on, each followed by its value; a later option
/// overrides an earlier one. `None` where a tick size does not fit in 64 bits.
pub open spec fn arg_walk(a: Seq<Seq<u8>>, i: int, st: ArgScan) -> Option<Result<ArgScan, ArgError>>
    decreases a.len() - i,
{
    if i < 0 || i >= a.len() {
        Some(Ok(st))
    } else {
        match spec_option_of(a[i]) {
            None => Some(Err(ArgError::UnknownArgument(i as usize))),
            Some(o) => if i + 1 >= a.len() {
                Some(Err(ArgError::MissingValue(o)))
            } else {
                let v = a[i + 1];
                match o {
                    ArgOption::Symbol => arg_walk(a, i + 2, ArgScan { symbol: Some((i + 1) as nat), ..st }),
                    ArgOption::TotalQty => match std_decimal(v, u64::MAX as nat) {
                        Some(n) => arg_walk(a, i + 2, ArgScan { total_qty: Some(n as u64), ..st }),
                        None => Some(Err(ArgError::BadValue)),
                    },
                    ArgOption::Duration => match std_decimal(v, u64::MAX as nat) {
                        Some(n) => arg_walk(a, i + 2, ArgScan { duration: Some(n as u64), ..st }),
                        None => Some(Err(ArgError::BadValue)),
                    },
                    ArgOption::Side => match side_value(v) {
                        Some(sd) => arg_walk(a, i + 2, ArgScan { side: sd, ..st }),
                        None => Some(Err(ArgError::BadSide)),
                    },
                    ArgOption::Seed => match seed_value(v) {
                        Some(n) => arg_walk(a, i + 2, ArgScan { seed: n as u64, ..st }),
                        None => Some(Err(ArgError::BadValue)),
                    },
                    ArgOption::TickSize => if spec_price(v) <= i64::MAX {
                        arg_walk(a, i + 2, ArgScan { tick_size: spec_price(v) as i64, ..st })
                    } else {
                        None
                    },
                    ArgOption::MaxSpread => match std_decimal(v, u32::MAX as nat) {
                        Some(n) => arg_walk(a, i + 2, ArgScan { max_spread_ticks: n as u32, ..st }),
                        None => Some(Err(ArgError::BadValue)),
                    },
                }
            },
        }
    }
}

/// The side value reads `BUY`, `buy` and `1` as a buy, `SELL`, `sell` and `2` as a
/// sell, and nothing else as a side.
pub proof fn lemma_side_words(s: Seq<u8>)
    ensures
        side_value(s) == Some(Side::Buy) <==> (s == seq![66u8, 85u8, 89u8] || s == seq![
            98u8,
            117u8,
            121u8,
        ] || s == seq![49u8]),
        side_value(s) == Some(Side::Sell) <==> (s == seq![83u8, 69u8, 76u8, 76u8] || s == seq![
            115u8,
            101u8,
            108u8,
            108u8,
        ] || s == seq![50u8]),
        side_value(s) is None <==> !(s == seq![66u8, 85u8, 89u8] || s == seq![98u8, 117u8, 121u8]
            || s == seq![49u8] || s == seq![83u8, 69u8, 76u8, 76u8] || s == seq![
            115u8,
            101u8,
            108u8,
            108u8,
        ] || s == seq![50u8]),
{
    assert(seq![66u8, 85u8, 89u8] =~= arg_buy_upper());
    assert(seq![98u8, 117u8, 121u8] =~= arg_buy_lower());
    assert(seq![49u8] =~= arg_buy_code());
    assert(seq![83u8, 69u8, 76u8, 76u8] =~= arg_sell_upper());
    assert(seq![115u8, 101u8, 108u8, 108u8] =~= arg_sell_lower());
    assert(seq![50u8] =~= arg_sell_code());
    assert(arg_sell_code()[0] != arg_buy_code()[0]);
    assert(arg_sell_upper().len() != arg_buy_upper().len());
    assert(arg_sell_lower().len() != arg_buy_lower().len());
}

/// Reading options that all parse goes the same way whatever follows them: the walk
/// over `a` followed by more arguments reaches the end of `a` with the settings that
/// the walk over `a` alone gives, and the symbol it names lies within `a`.
proof fn lemma_walk_prefix(a: Seq<Seq<u8>>, t: Seq<Seq<u8>>, i: int, st: ArgScan)
    requires
        0 <= i <= a.len(),
        arg_walk(a, i, st) is Some,
        arg_walk(a, i, st).unwrap() is Ok,
    ensures
        ({
            let fin = arg_walk(a, i, st).unwrap()->Ok_0;
            &&& arg_walk(a + t, i, st) == arg_walk(a + t, a.len() as int, fin)
            &&& (fin.symbol == st.symbol || (fin.symbol matches Some(k) && k < a.len()))
        }),
    decreases a.len() - i,
{
    let at = a + t;
    if i < a.len() {
        assert(at[i] == a[i]);
        let o = spec_option_of(a[i]).unwrap();
        assert(i + 1 < a.len());
        assert(at[i + 1] == a[i + 1]);
        match o {
            ArgOption::Symbol => {
                lemma_walk_prefix(a, t, i + 2, ArgScan { symbol: Some((i + 1) as nat), ..st });
            },
            ArgOption::TotalQty => {
                let n = std_decimal(a[i + 1], u64::MAX as nat).unwrap();
                lemma_walk_prefix(a, t, i + 2, ArgScan { total_qty: Some(n as u64), ..st });
            },
            ArgOption::Duration => {
                let n = std_decimal(a[i + 1], u64::MAX as nat).unwrap();
                lemma_walk_prefix(a, t, i + 2, ArgScan { duration: Some(n as u64), ..st });
            },
            ArgOption::Side => {
                let sd = side_value(a[i + 1]).unwrap();
                lemma_walk_prefix(a, t, i + 2, ArgScan { side: sd, ..st });
            },
            ArgOption::Seed => {
                let n = seed_value(a[i + 1]).unwrap();
                lemma_walk_prefix(a, t, i + 2, ArgScan { seed: n as u64, ..st });
            },
            ArgOption::TickSize => {
                lemma_walk_prefix(
                    a,
                    t,
                    i + 2,
                    ArgScan { tick_size: spec_price(a[i + 1]) as i64, ..st },
                );
            },
            ArgOption::MaxSpread => {
                let n = std_decimal(a[i + 1], u32::MAX as nat).unwrap();
                lemma_walk_prefix(a, t, i + 2, ArgScan { max_spread_ticks: n as u32, ..st });
            },
        }
    }
}

/// `--side SELL` (or `-S SELL`) after the arguments of a TWAP run that parse gives the
/// same run, sold rather than bought.
pub proof fn lemma_trailing_side_sell(a: Seq<Seq<u8>>, flag: Seq<u8>)
    requires
        a.len() >= 2,
        twap_args(a) matches Some(Ok(_)),
        flag == seq![45u8, 45u8, 115u8, 105u8, 100u8, 101u8] || flag == seq![45u8, 83u8],
    ensures
        twap_args(a + seq![flag, seq![83u8, 69u8, 76u8, 76u8]]) == Some(
            Ok::<ArgScan, ArgError>(ArgScan { side: Side::Sell, ..twap_args(a).unwrap()->Ok_0 }),
        ),
{
    let t = seq![flag, seq![83u8, 69u8, 76u8, 76u8]];
    let at = a + t;
    let fin = arg_walk(a, 2, default_scan()).unwrap()->Ok_0;
    lemma_walk_prefix(a, t, 2, default_scan());
    assert(at[a.len() as int] == flag);
    assert(at[a.len() + 1int] == seq![83u8, 69u8, 76u8, 76u8]);
    assert(flag =~= arg_side_long() || flag =~= arg_side_short());
    assert(spec_option_of(flag) == Some(ArgOption::Side));
    lemma_side_words(seq![83u8, 69u8, 76u8, 76u8]);
    let sold = ArgScan { side: Side::Sell, ..fin };
    assert(arg_walk(at, a.len() + 2int, sold) == Some(Ok::<ArgScan, ArgError>(sold)));
    assert(arg_walk(at, a.len() as int, fin) == Some(Ok::<ArgScan, ArgError>(sold)));
    let si = fin.symbol.unwrap() as int;
    assert(at[si] == a[si]);
}

/// What the arguments of a TWAP run give (the subcommand and program name are the first
/// two): the settings, once the symbol (1 to 8 bytes), a positive total quantity and a
/// positive duration are there; `None` where a tick size does not fit in 64 bits.
pub open spec fn twap_args(a: Seq<Seq<u8>>) -> Option<Result<ArgScan, ArgError>> {
    match arg_walk(a, 2, default_scan()) {
        None => None,
        Some(Err(e)) => Some(Err(e)),
        Some(Ok(st)) => Some(
            match (st.symbol, st.total_qty, st.duration) {
                (Some(si), Some(q), Some(d)) => if a[si as int].len() == 0 || a[si as int].len() > 8 {
                    Err(ArgError::BadSymbol)
                } else if q == 0 {
                    Err(ArgError::ZeroQty)
                } else if d == 0 {
                    Err(ArgError::ZeroDuration)
                } else {
                    Ok(st)
                },
                _ => Err(ArgError::MissingRequired),
            },
        ),
    }
}

/// The bytes of each argument.
pub open spec fn arg_bytes(args: Seq<String>) -> Seq<Seq<u8>> {
    args.map_values(|s: String| encode_utf8(s@))
}

fn bytes_eq(a: &[u8], b: &[u8]) -> (r: bool)
    ensures
        r == (a@ == b@),
{
    if a.len() != b.len() {
        return false;
    }
    let mut i: usize = 0;
    while i < a.len()
        invariant
            a@.len() == b@.len(),
            i <= a@.len(),
            forall|k: int| 0 <= k < i ==> a@[k] == b@[k],
        decreases a@.len() - i,
    {
        if a[i] != b[i] {
            return false;
        }
        i += 1;
    }
    proof {
        assert(a@ =~= b@);
    }
    true
}

/// The option that `arg` names.
fn option_of(arg: &[u8]) -> (r: Option<ArgOption>)
    ensures
        r == spec_option_of(arg@),
{
    let symbol_long = [45u8, 45u8, 115u8, 121u8, 109u8, 98u8, 111u8, 108u8];
    let symbol_short = [45u8, 115u8];
    let qty_long = [45u8, 45u8, 116u8, 111u8, 116u8, 97u8, 108u8, 45u8, 113u8, 116u8, 121u8];
    let qty_short = [45u8, 113u8];
    let duration_long = [45u8, 45u8, 100u8, 117u8, 114u8, 97u8, 116u8, 105u8, 111u8, 110u8];
    let duration_short = [45u8, 100u8];
    let side_long = [45u8, 45u8, 115u8, 105u8, 100u8, 101u8];
    let side_short = [45u8, 83u8];
    let seed_long = [45u8, 45u8, 115u8, 101u8, 101u8, 100u8];
    let tick_long = [45u8, 45u8, 116u8, 105u8, 99u8, 107u8, 45u8, 115u8, 105u8, 122u8, 101u8];
    let spread_long = [45u8, 45u8, 109u8, 97u8, 120u8, 45u8, 115u8, 112u8, 114u8, 101u8, 97u8, 100u8];
    proof {
        assert(symbol_long@ =~= arg_symbol_long());
        assert(symbol_short@ =~= arg_symbol_short());
        assert(qty_long@ =~= arg_qty_long());
        assert(qty_short@ =~= arg_qty_short());
        assert(duration_long@ =~= arg_duration_long());
        assert(duration_short@ =~= arg_duration_short());
        assert(side_long@ =~= arg_side_long());
        assert(side_short@ =~= arg_side_short());
        assert(seed_long@ =~= arg_seed_long());
        assert(tick_long@ =~= arg_tick_long());
        assert(spread_long@ =~= arg_spread_long());
    }
    if bytes_eq(arg, symbol_long.as_slice()) || bytes_eq(arg, symbol_short.as_slice()) {
        Some(ArgOption::Symbol)
    } else if bytes_eq(arg, qty_long.as_slice()) || bytes_eq(arg, qty_short.as_slice()) {
        Some(ArgOption::TotalQty)
    } else if bytes_eq(arg, duration_long.as_slice()) || bytes_eq(arg, duration_short.as_slice()) {
        Some(ArgOption::Duration)
    } else if bytes_eq(arg, side_long.as_slice()) || bytes_eq(arg, side_short.as_slice()) {
        Some(ArgOption::Side)
    } else if bytes_eq(arg, seed_long.as_slice()) {
        Some(ArgOption::Seed)
    } else if bytes_eq(arg, tick_long.as_slice()) {
        Some(ArgOption::TickSize)
    } else if bytes_eq(arg, spread_long.as_slice()) {
        Some(ArgOption::MaxSpread)
    } else {
        None
    }
}

/// The side that `v` names.
fn side_of(v: &[u8]) -> (r: Option<Side>)
    ensures
        r == side_value(v@),
{
    let buy_upper = [66u8, 85u8, 89u8];
    let buy_lower = [98u8, 117u8, 121u8];
    let buy_code = [49u8];
    let sell_upper = [83u8, 69u8, 76u8, 76u8];
    let sell_lower = [115u8, 101u8, 108u8, 108u8];
    let sell_code = [50u8];
    proof {
        assert(buy_upper@ =~= arg_buy_upper());
        assert(buy_lower@ =~= arg_buy_lower());
        assert(buy_code@ =~= arg_buy_code());
        assert(sell_upper@ =~= arg_sell_upper());
        assert(sell_lower@ =~= arg_sell_lower());
        assert(sell_code@ =~= arg_sell_code());
    }
    if bytes_eq(v, buy_upper.as_slice()) || bytes_eq(v, buy_lower.as_slice()) || bytes_eq(
        v,
        buy_code.as_slice(),
    ) {
        Some(Side::Buy)
    } else if bytes_eq(v, sell_upper.as_slice()) || bytes_eq(v, sell_lower.as_slice()) || bytes_eq(
        v,
        sell_code.as_slice(),
    ) {
        Some(Side::Sell)
    } else {
        None
    }
}

fn strip_plus(s: &[u8]) -> (r: &[u8])
    ensures
        r@ == without_plus(s@),
{
    if s.len() > 0 && s[0] == 43 {
        let r = slice_subrange(s, 1, s.len());
        proof {
            assert(r@ =~= s@.drop_first());
        }
        r
    } else {
        s
    }
}

/// An unsigned decimal up to `u64::MAX`, with an optional `+`.
fn std_decimal_u64(s: &[u8]) -> (r: Option<u64>)
    ensures
        r == (match std_decimal(s@, u64::MAX as nat) {
            Some(n) => Some(n as u64),
            None => None,
        }),
{
    let d = strip_plus(s);
    if d.len() == 0 {
        return None;
    }
    parse_u64(d)
}

/// An unsigned decimal up to `u32::MAX`, with an optional `+`.
fn std_decimal_u32(s: &[u8]) -> (r: Option<u32>)
    ensures
        r == (match std_decimal(s@, u32::MAX as nat) {
            Some(n) => Some(n as u32),
            None => None,
        }),
{
    let d = strip_plus(s);
    if d.len() == 0 {
        return None;
    }
    parse_tag(d)
}

/// An unsigned hexadecimal up to `u64::MAX`, with an optional `+`.
fn std_hex_u64(s: &[u8]) -> (r: Option<u64>)
    ensures
        r == (match std_hex(s@, u64::MAX as nat) {
            Some(n) => Some(n as u64),
            None => None,
        }),
{
    let d = strip_plus(s);
    if d.len() == 0 {
        return None;
    }
    let mut result: u64 = 0;
    let mut i: usize = 0;
    while i < d.len()
        invariant
            d@ == without_plus(s@),
            d@.len() > 0,
            i <= d@.len(),
            forall|k: int| 0 <= k < i ==> is_hex_digit(#[trigger] d@[k]),
            result as nat == hex_value(d@.take(i as int)),
        decreases d@.len() - i,
    {
        let b = d[i];
        proof {
            assert(d@.take(i + 1).drop_last() =~= d@.take(i as int));
        }
        let digit: u64 = if b >= 48 && b <= 57 {
            (b - 48) as u64
        } else if b >= 97 && b <= 102 {
            (b - 87) as u64
        } else if b >= 65 && b <= 70 {
            (b - 55) as u64
        } else {
            proof {
                assert(!is_hex_digit(d@[i as int]));
            }
            return None;
        };
        proof {
            assert(is_hex_digit(b));
            assert(digit == hex_digit_value(b));
            assert(d@.take(i + 1).last() == b);
            assert(hex_value(d@.take(i + 1)) == hex_value(d@.take(i as int)) * 16 + digit);
        }
        result = match result.checked_mul(16) {
            Some(v) => v,
            None => {
                proof {
                    lemma_hex_prefix(d@, i + 1);
                }
                return None;
            },
        };
        result = match result.checked_add(digit) {
            Some(v) => v,
            None => {
                proof {
                    lemma_hex_prefix(d@, i + 1);
                }
                return None;
            },
        };
        i += 1;
    }
    proof {
        assert(d@.take(i as int) =~= d@);
    }
    Some(result)
}

/// A hexadecimal prefix is worth no more than the whole.
proof fn lemma_hex_prefix(s: Seq<u8>, i: int)
    requires
        0 <= i <= s.len(),
    ensures
        (forall|k: int| 0 <= k < s.len() ==> is_hex_digit(#[trigger] s[k])) ==> hex_value(s.take(i))
            <= hex_value(s),
    decreases s.len(),
{
    if i < s.len() {
        assert(s.drop_last().take(i) =~= s.take(i));
        lemma_hex_prefix(s.drop_last(), i);
    } else {
        assert(s.take(i) =~= s);
    }
}

fn strip_0x(s: &[u8]) -> (r: &[u8])
    ensures
        r@ == trim_0x(s@),
    decreases s@.len(),
{
    if s.len() >= 2 && s[0] == 48 && s[1] == 120 {
        let rest = slice_subrange(s, 2, s.len());
        proof {
            assert(rest@ =~= s@.skip(2));
        }
        strip_0x(rest)
    } else {
        s
    }
}

/// A seed: hexadecimal after a leading `0x`; otherwise decimal where that reads, and
/// hexadecimal where it does not.
fn seed_of(s: &[u8]) -> (r: Option<u64>)
    ensures
        r == (match seed_value(s@) {
            Some(n) => Some(n as u64),
            None => None,
        }),
{
    if s.len() >= 2 && s[0] == 48 && s[1] == 120 {
        std_hex_u64(strip_0x(s))
    } else {
        match std_decimal_u64(s) {
            Some(v) => Some(v),
            None => std_hex_u64(s),
        }
    }
}

/// `c` holds the settings `st` read from `args`.
pub open spec fn config_of(c: TwapConfig, args: Seq<String>, st: ArgScan) -> bool {
    let si = st.symbol.unwrap() as int;
    &&& c.symbol@ == args[si]@
    &&& c.symbol_bytes@ == arg_bytes(args)[si]
    &&& c.total_qty == st.total_qty.unwrap()
    &&& c.duration_secs == st.duration.unwrap()
    &&& c.side == st.side
    &&& c.seed == st.seed
    &&& c.tick_size == st.tick_size
    &&& c.max_spread_ticks == st.max_spread_ticks
}

/// Reads the arguments of a TWAP run; `None` where a tick size does not fit in 64 bits.
fn scan_args(args: &[String]) -> (r: Option<Result<TwapConfig, ArgError>>)
    ensures
        twap_args(arg_bytes(args@)) is None ==> r is None,
        twap_args(arg_bytes(args@)) matches Some(Err(e)) ==> r == Some(
            Err::<TwapConfig, ArgError>(e),
        ),
        twap_args(arg_bytes(args@)) matches Some(Ok(st)) ==> (r matches Some(Ok(c)) && config_of(
            c,
            args@,
            st,
        )),
{
    let ghost a = arg_bytes(args@);
    let mut symbol: Option<usize> = None;
    let mut total_qty: Option<u64> = None;
    let mut duration: Option<u64> = None;
    let mut side = Side::Buy;
    let mut seed: u64 = 0xDEAD_BEEF_CAFE_BABE;
    let mut tick_size: i64 = TICK_SIZE;
    let mut max_spread_ticks: u32 = MAX_SPREAD_TICKS;
    let mut i: usize = 2;
    while i < args.len()
        invariant
            a == arg_bytes(args@),
            a.len() == args@.len(),
            i >= 2,
            arg_walk(a, 2, default_scan()) == arg_walk(
                a,
                i as int,
                ArgScan {
                    symbol: match symbol {
                        Some(k) => Some(k as nat),
                        None => None,
                    },
                    total_qty,
                    duration,
                    side,
                    seed,
                    tick_size,
                    max_spread_ticks,
                },
            ),
            symbol matches Some(k) ==> k < args@.len(),
        decreases args@.len() - i,
    {
        let arg = args[i].as_str().as_bytes();
        proof {
            assert(arg@ == a[i as int]);
        }
        let o = match option_of(arg) {
            Some(o) => o,
            None => {
                return Some(Err(ArgError::UnknownArgument(i)));
            },
        };
        if i + 1 >= args.len() {
            return Some(Err(ArgError::MissingValue(o)));
        }
        let v = args[i + 1].as_str().as_bytes();
        proof {
            assert(v@ == a[i + 1]);
        }
        match o {
            ArgOption::Symbol => {
                symbol = Some(i + 1);
            },
            ArgOption::TotalQty => {
                match std_decimal_u64(v) {
                    Some(n) => {
                        total_qty = Some(n);
                    },
                    None => {
                        return Some(Err(ArgError::BadValue));
                    },
                }
            },
            ArgOption::Duration => {
                match std_decimal_u64(v) {
                    Some(n) => {
                        duration = Some(n);
                    },
                    None => {
                        return Some(Err(ArgError::BadValue));
                    },
                }
            },
            ArgOption::Side => {
                match side_of(v) {
                    Some(sd) => {
                        side = sd;
                    },
                    None => {
                        return Some(Err(ArgError::BadSide));
                    },
                }
            },
            ArgOption::Seed => {
                match seed_of(v) {
                    Some(n) => {
                        seed = n;
                    },
                    None => {
                        return Some(Err(ArgError::BadValue));
                    },
                }
            },
            ArgOption::TickSize => {
                match parse_price_checked(v) {
                    Some(p) => {
                        tick_size = p;
                    },
                    None => {
                        return None;
                    },
                }
            },
            ArgOption::MaxSpread => {
                match std_decimal_u32(v) {
                    Some(n) => {
                        max_spread_ticks = n;
                    },
                    None => {
                        return Some(Err(ArgError::BadValue));
                    },
                }
            },
        }
        i = i + 2;
    }
    match (symbol, total_qty, duration) {
        (Some(si), Some(qty), Some(dur)) => {
            let sym = args[si].clone();
            let sym_bytes = slice_to_vec(sym.as_str().as_bytes());
            proof {
                assert(sym_bytes@ == a[si as int]);
            }
            if sym_bytes.len() == 0 || sym_bytes.len() > 8 {
                return Some(Err(ArgError::BadSymbol));
            }
            if qty == 0 {
                return Some(Err(ArgError::ZeroQty));
            }
            if dur == 0 {
                return Some(Err(ArgError::ZeroDuration));
            }
            Some(
                Ok(
                    TwapConfig {
                        symbol: sym,
                        symbol_bytes: sym_bytes,
                        total_qty: qty,
                        duration_secs: dur,
                        side,
                        tick_size,
                        max_spread_ticks,
                        seed,
                    },
                ),
            )
        },
        _ => Some(Err(ArgError::MissingRequired)),
    }
}

/// Every tick size among the arguments, up to the first refused one, fits in 64 bits.
pub fn args_in_range(args: &[String]) -> (r: bool)
    ensures
        r == (twap_args(arg_bytes(args@)) is Some),
{
    scan_args(args).is_some()
}

/// Reads the arguments of a TWAP run (after the program name and subcommand).
pub fn parse_args(args: &[String]) -> (r: Result<TwapConfig, ArgError>)
    requires
        twap_args(arg_bytes(args@)) is Some,
    ensures
        match twap_args(arg_bytes(args@)).unwrap() {
            Err(e) => r == Err::<TwapConfig, ArgError>(e),
            Ok(st) => r matches Ok(c) && config_of(c, args@, st),
        },
{
    match scan_args(args) {
        Some(r) => r,
        None => {
            proof {
                assert(false);
            }
            Err(ArgError::MissingRequired)
        },
    }
}

} // verus!
