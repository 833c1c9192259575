use crate::fix::scanner::{decimal_value, is_digit, lemma_decimal_prefix, SOH};
use crate::lob::arena::Arena;
use crate::lob::rbtree::RbTree;
use vstd::prelude::*;
use vstd::slice::SliceAdditionalExecFns;
use vstd::slice::slice_subrange;

verus! {

const PRICE_SCALE: i64 = 100_000_000;

pub const TICK_SIZE: i64 = 1_000_000;

pub const MAX_SPREAD_TICKS: u32 = 5;

pub const ORDER_ARENA_CAP: usize = 262_144;

pub const LEVEL_ARENA_CAP: usize = 65_536;

/// End of an order queue.
pub const NO_ORDER: u32 = 0xffff_ffff;

#[derive(Clone, Copy, Debug, PartialEq, Eq, Structural)]
pub enum Side {
    Buy,
    Sell,
}

impl Side {
    /// Reads the FIX side code: `1` buys, `2` sells.
    pub fn from_byte(b: u8) -> (r: Option<Self>)
        ensures
            r == (if b == 0x31 {
                Some(Side::Buy)
            } else if b == 0x32 {
                Some(Side::Sell)
            } else {
                None
            }),
    {
        if b == 0x31 {
            Some(Side::Buy)
        } else if b == 0x32 {
            Some(Side::Sell)
        } else {
            None
        }
    }

    pub open spec fn fix_byte(self) -> u8 {
        match self {
            Side::Buy => 0x31,
            Side::Sell => 0x32,
        }
    }

    pub fn to_fix_byte(self) -> (r: u8)
        ensures
            r == self.fix_byte(),
    {
        match self {
            Side::Buy => 0x31,
            Side::Sell => 0x32,
        }
    }
}

// ---------------------------------------------------------------------------
// Prices: fixed point with eight decimals.
pub open spec fn pow10(n: nat) -> nat
    decreases n,
{
    if n == 0 {
        1
    } else {
        10 * pow10((n - 1) as nat)
    }
}

/// The digits of `s`, in order, with every other byte dropped.
pub open spec fn digits_of(s: Seq<u8>) -> Seq<u8>
    decreases s.len(),
{
    if s.len() == 0 {
        Seq::empty()
    } else if is_digit(s.last()) {
        digits_of(s.drop_last()).push(s.last())
    } else {
        digits_of(s.drop_last())
    }
}

pub open spec fn dot_index(s: Seq<u8>) -> int {
    match crate::fix::scanner::first_index(s, 0x2e) {
        Some(i) => i,
        None => s.len() as int,
    }
}

/// The digits of the integer part of a decimal price text.
pub open spec fn int_digits(s: Seq<u8>) -> Seq<u8> {
    digits_of(s.take(dot_index(s)))
}

/// The first eight digits after the decimal point.
pub open spec fn frac_digits(s: Seq<u8>) -> Seq<u8> {
    let d = dot_index(s);
    let f = if d < s.len() {
        digits_of(s.skip(d + 1))
    } else {
        Seq::<u8>::empty()
    };
    if f.len() <= 8 {
        f
    } else {
        f.take(8)
    }
}

/// A price text read as a fixed-point number with eight decimals: digits before the
/// first `.` form the integer part, the first eight digits after it the fraction, and
/// every other byte is skipped.
pub open spec fn spec_price(s: Seq<u8>) -> int {
    let f = frac_digits(s);
    (decimal_value(int_digits(s) + f) * pow10((8 - f.len()) as nat)) as int
}

proof fn lemma_digits_of_prefix(s: Seq<u8>, i: int, j: int)
    requires
        0 <= i <= j <= s.len(),
    ensures
        digits_of(s.take(i)).len() <= digits_of(s.take(j)).len(),
        digits_of(s.take(j)).take(digits_of(s.take(i)).len() as int) == digits_of(s.take(i)),
        crate::fix::scanner::all_digits(digits_of(s.take(j))),
    decreases j,
{
    if j > 0 {
        assert(s.take(j).drop_last() =~= s.take(j - 1));
        if i < j {
            lemma_digits_of_prefix(s, i, j - 1);
            let a = digits_of(s.take(i));
            let c = digits_of(s.take(j - 1));
            if is_digit(s.take(j).last()) {
                assert(c.push(s[j - 1]).take(a.len() as int) =~= c.take(a.len() as int));
            }
        } else {
            assert(digits_of(s.take(j)).take(digits_of(s.take(j)).len() as int) =~= digits_of(
                s.take(j),
            ));
            lemma_digits_of_prefix(s, j - 1, j - 1);
        }
    } else {
        assert(s.take(0) =~= Seq::<u8>::empty());
    }
}

proof fn lemma_pow10_pos(n: nat)
    ensures
        pow10(n) >= 1,
    decreases n,
{
    if n > 0 {
        lemma_pow10_pos((n - 1) as nat);
    }
}

pub open spec fn trunc8(f: Seq<u8>) -> Seq<u8> {
    if f.len() <= 8 {
        f
    } else {
        f.take(8)
    }
}

/// The digits read so far after position `i` has been reached.
pub open spec fn price_seen(s: Seq<u8>, d: int, i: int) -> Seq<u8> {
    if i <= d {
        digits_of(s.take(i))
    } else {
        digits_of(s.take(d)) + trunc8(digits_of(s.skip(d + 1).take(i - d - 1)))
    }
}

proof fn lemma_trunc8_prefix(a: Seq<u8>, c: Seq<u8>)
    requires
        a.len() <= c.len(),
        c.take(a.len() as int) == a,
    ensures
        trunc8(a).len() <= trunc8(c).len(),
        trunc8(c).take(trunc8(a).len() as int) == trunc8(a),
{
    if a.len() > 8 {
        assert(c.take(8) =~= a.take(8));
    } else if c.len() > 8 {
        assert(c.take(8).take(a.len() as int) =~= a);
    }
}

proof fn lemma_mul_pow10(r: int, k: nat)
    requires
        r >= 0,
        k >= 1,
    ensures
        r * pow10(k) == (r * 10) * pow10((k - 1) as nat),
        r * 10 <= r * pow10(k),
{
    lemma_pow10_pos((k - 1) as nat);
    let p = pow10((k - 1) as nat);
    assert(pow10(k) == 10 * p);
    assert(r * (10 * p) == (r * 10) * p) by (nonlinear_arith);
    assert((r * 10) * p >= r * 10) by (nonlinear_arith)
        requires
            r >= 0,
            p >= 1,
    ;
}

/// Reads a price text; `None` exactly where its value does not fit in an `i64`.
pub fn parse_price_checked(s: &[u8]) -> (r: Option<i64>)
    ensures
        r == (if spec_price(s@) <= i64::MAX {
            Some(spec_price(s@) as i64)
        } else {
            None
        }),
{
    let ghost d = dot_index(s@);
    let ghost ip = int_digits(s@);
    let ghost fp = frac_digits(s@);
    let ghost full = ip + fp;
    proof {
        crate::fix::scanner::lemma_find_from(s@, 0x2e, 0);
        lemma_digits_of_prefix(s@, d, d);
        if d < s@.len() {
            let t = s@.skip(d + 1);
            assert(t.take(t.len() as int) =~= t);
            lemma_digits_of_prefix(t, 0, t.len() as int);
        }
        lemma_pow10_pos((8 - fp.len()) as nat);
        assert(crate::fix::scanner::all_digits(full));
        assert(decimal_value(full) <= decimal_value(full) * pow10((8 - fp.len()) as nat))
            by (nonlinear_arith)
            requires
                pow10((8 - fp.len()) as nat) >= 1,
        ;
        assert(decimal_value(full) <= spec_price(s@));
    }
    let mut result: i64 = 0;
    let mut decimal = false;
    let mut scale: i32 = 8;
    let mut i: usize = 0;
    while i < s.len()
        invariant
            0 <= d <= s@.len(),
            i <= s.len(),
            decimal == (i > d),
            ip == digits_of(s@.take(d)),
            fp == frac_digits(s@),
            full == ip + fp,
            crate::fix::scanner::all_digits(full),
            decimal_value(full) <= spec_price(s@),
            forall|k: int| 0 <= k < d ==> s@[k] != 0x2e,
            d < s@.len() ==> s@[d] == 0x2e,
            fp == (if d < s@.len() {
                trunc8(digits_of(s@.skip(d + 1)))
            } else {
                Seq::<u8>::empty()
            }),
            price_seen(s@, d, i as int).len() <= full.len(),
            full.take(price_seen(s@, d, i as int).len() as int) == price_seen(s@, d, i as int),
            result == decimal_value(price_seen(s@, d, i as int)),
            i > d ==> scale == 8 - (price_seen(s@, d, i as int).len() - ip.len()),
            i <= d ==> scale == 8,
            0 <= scale <= 8,
        decreases s.len() - i,
    {
        let b = s[i];
        let ghost seen = price_seen(s@, d, i as int);
        proof {
            assert(s@.take(i + 1).drop_last() =~= s@.take(i as int));
            if i > d {
                let t = s@.skip(d + 1);
                assert(t.take(i + 1 - d - 1).drop_last() =~= t.take(i - d - 1));
                assert(t.take(i + 1 - d - 1).last() == b);
                assert(t.take(t.len() as int) =~= t);
                lemma_digits_of_prefix(t, i + 1 - d - 1, t.len() as int);
                lemma_trunc8_prefix(digits_of(t.take(i + 1 - d - 1)), digits_of(t));
                assert(price_seen(s@, d, i + 1) == ip + trunc8(digits_of(t.take(i + 1 - d - 1))));
                assert((ip + fp).take(price_seen(s@, d, i + 1).len() as int) =~= price_seen(s@, d, i + 1));
            } else if i < d {
                lemma_digits_of_prefix(s@, i + 1, d);
            } else {
                assert(s@.skip(d + 1).take(0) =~= Seq::<u8>::empty());
                assert(price_seen(s@, d, i + 1) =~= ip);
            }
            lemma_decimal_prefix(full, price_seen(s@, d, i + 1).len() as int);
            assert(full.take(price_seen(s@, d, i + 1).len() as int) == price_seen(s@, d, i + 1));
        }
        if b == 0x2e {
            decimal = true;
        } else if b >= 48 && b <= 57 {
            if decimal {
                if scale > 0 {
                    proof {
                        assert(price_seen(s@, d, i + 1) =~= seen.push(b));
                        assert(price_seen(s@, d, i + 1).drop_last() =~= seen);
                    }
                    result = match result.checked_mul(10) {
                        Some(v) => v,
                        None => {
                            return None;
                        },
                    };
                    result = match result.checked_add((b - 48) as i64) {
                        Some(v) => v,
                        None => {
                            return None;
                        },
                    };
                    scale -= 1;
                }
            } else {
                proof {
                    assert(price_seen(s@, d, i + 1).drop_last() =~= seen);
                }
                result = match result.checked_mul(10) {
                    Some(v) => v,
                    None => {
                        return None;
                    },
                };
                result = match result.checked_add((b - 48) as i64) {
                    Some(v) => v,
                    None => {
                        return None;
                    },
                };
            }
        }
        i += 1;
    }
    proof {
        if d < s@.len() {
            assert(s@.skip(d + 1).take(s@.len() - d - 1) =~= s@.skip(d + 1));
            assert(price_seen(s@, d, i as int) =~= full);
        } else {
            assert(s@.take(i as int) =~= s@.take(d));
            assert(fp =~= Seq::<u8>::empty());
            assert(price_seen(s@, d, i as int) =~= full);
        }
        assert(scale == 8 - fp.len());
    }
    while scale > 0
        invariant
            0 <= scale <= 8,
            result >= 0,
            result as int * pow10(scale as nat) == spec_price(s@),
        decreases scale,
    {
        proof {
            lemma_mul_pow10(result as int, scale as nat);
        }
        result = match result.checked_mul(10) {
            Some(v) => v,
            None => {
                return None;
            },
        };
        scale -= 1;
    }
    proof {
        assert(scale == 0);
        assert(pow10(scale as nat) == 1);
        assert(result as int * 1 == result as int);
    }
    Some(result)
}

fn parse_fix_price(s: &[u8]) -> (r: i64)
    requires
        spec_price(s@) <= i64::MAX,
    ensures
        r == spec_price(s@),
{
    match parse_price_checked(s) {
        Some(v) => v,
        None => {
            proof {
                assert(false);
            }
            0
        },
    }
}

/// Reads a decimal price text into fixed point with eight decimals.
pub fn parse_price(s: &[u8]) -> (r: i64)
    requires
        spec_price(s@) <= i64::MAX,
    ensures
        r == spec_price(s@),
{
    parse_fix_price(s)
}

/// The decimal digits of `n`, most significant first, without leading zeros.
pub open spec fn dec_str(n: nat) -> Seq<u8>
    decreases n,
{
    if n < 10 {
        seq![(48 + n) as u8]
    } else {
        dec_str(n / 10).push((48 + n % 10) as u8)
    }
}

/// Writes `n` in decimal.
pub fn u64_digits(n: u64) -> (r: Vec<u8>)
    ensures
        r@ == dec_str(n as nat),
    decreases n,
{
    if n < 10 {
        let mut v = Vec::new();
        v.push((n as u8) + 48);
        v
    } else {
        let mut v = u64_digits(n / 10);
        v.push(((n % 10) as u8) + 48);
        v
    }
}

/// Digit `k` (0 to 7) of the fraction `fp`, zero-padded to eight digits.
pub open spec fn frac8(fp: nat) -> Seq<u8> {
    Seq::new(8, |k: int| (48 + (fp % pow10((8 - k) as nat)) / pow10((7 - k) as nat)) as u8)
}

/// Drops trailing `0` digits, keeping at least one digit.
pub open spec fn strip_zeros(s: Seq<u8>) -> Seq<u8>
    decreases s.len(),
{
    if s.len() > 1 && s.last() == 48 {
        strip_zeros(s.drop_last())
    } else {
        s
    }
}

pub open spec fn abs_price(price: i64) -> nat {
    if price < 0 {
        (-price) as nat
    } else {
        price as nat
    }
}

/// The text of a fixed-point price: the integer part (with its sign when it is not
/// zero), a `.`, and the eight-decimal fraction without trailing zeros (`0` when the
/// fraction is zero).
pub open spec fn price_text(price: i64) -> Seq<u8> {
    let a = abs_price(price);
    let ip = a / 100_000_000;
    let fp = a % 100_000_000;
    let head = if ip == 0 {
        seq![48u8]
    } else if price < 0 {
        seq![45u8] + dec_str(ip)
    } else {
        dec_str(ip)
    };
    let tail = if fp > 0 {
        strip_zeros(frac8(fp))
    } else {
        seq![48u8]
    };
    head + seq![46u8] + tail
}

fn pow10_u64(k: u32) -> (r: u64)
    requires
        k <= 19,
    ensures
        r == pow10(k as nat),
    decreases k,
{
    if k == 0 {
        1
    } else {
        let p = pow10_u64(k - 1);
        proof {
            lemma_pow10_bound((k - 1) as nat);
        }
        10 * p
    }
}

proof fn lemma_pow10_bound(k: nat)
    requires
        k <= 18,
    ensures
        pow10(k) <= 1_000_000_000_000_000_000,
    decreases k,
{
    if k > 0 {
        lemma_pow10_bound((k - 1) as nat);
        assert(pow10((k - 1) as nat) <= pow10(17)) by {
            lemma_pow10_mono((k - 1) as nat, 17);
        }
        assert(pow10(17) == 100_000_000_000_000_000) by {
            reveal_with_fuel(pow10, 18);
        }
    }
}

proof fn lemma_pow10_mono(a: nat, b: nat)
    requires
        a <= b,
    ensures
        pow10(a) <= pow10(b),
    decreases b,
{
    if a < b {
        lemma_pow10_mono(a, (b - 1) as nat);
        lemma_pow10_pos((b - 1) as nat);
    }
}

/// The eight fraction digits of `fp`, trailing zeros dropped.
fn fraction_digits(fp: u64) -> (r: Vec<u8>)
    requires
        0 < fp < 100_000_000,
    ensures
        r@ == strip_zeros(frac8(fp as nat)),
{
    let mut dp = fp;
    let mut digits: Vec<u8> = Vec::new();
    let mut scale: u32 = 8;
    proof {
        assert(pow10(8) == 100_000_000) by {
            reveal_with_fuel(pow10, 9);
        }
        assert(fp % 100_000_000 == fp);
    }
    while scale > 0
        invariant
            scale <= 8,
            digits@.len() == 8 - scale,
            dp as nat == (fp as nat) % pow10(scale as nat),
            forall|k: int| 0 <= k < digits@.len() ==> digits@[k] == frac8(fp as nat)[k],
        decreases scale,
    {
        let divisor = pow10_u64(scale - 1);
        proof {
            lemma_pow10_pos((scale - 1) as nat);
            let a = pow10((scale - 1) as nat) as int;
            assert(pow10(scale as nat) == 10 * a);
            assert(a * 10 == 10 * a);
            vstd::arithmetic::div_mod::lemma_mod_mod(fp as int, a, 10);
            assert((dp as int) < 10 * a);
            assert((dp as int) / a < 10) by (nonlinear_arith)
                requires
                    0 <= dp,
                    (dp as int) < 10 * a,
                    a > 0,
            ;
        }
        let digit = (dp / divisor) as u8;
        dp = dp % divisor;
        digits.push(digit + 48);
        scale -= 1;
    }
    proof {
        assert(digits@ =~= frac8(fp as nat));
        assert(digits@.take(8) =~= digits@);
    }
    let mut end: usize = 8;
    while end > 1 && digits[end - 1] == 48
        invariant
            1 <= end <= 8,
            digits@ == frac8(fp as nat),
            strip_zeros(frac8(fp as nat)) == strip_zeros(digits@.take(end as int)),
        decreases end,
    {
        proof {
            assert(digits@.take(end as int).drop_last() =~= digits@.take(end - 1));
        }
        end -= 1;
    }
    let mut out: Vec<u8> = Vec::new();
    let mut i: usize = 0;
    while i < end
        invariant
            i <= end <= 8,
            digits@.len() == 8,
            out@ == digits@.take(i as int),
        decreases end - i,
    {
        out.push(digits[i]);
        proof {
            assert(digits@.take(i + 1) =~= digits@.take(i as int).push(digits@[i as int]));
        }
        i += 1;
    }
    proof {
        assert(strip_zeros(digits@.take(end as int)) == digits@.take(end as int));
    }
    out
}

/// The text of `price` (see `price_text`).
pub fn price_bytes(price: i64) -> (r: Vec<u8>)
    ensures
        r@ == price_text(price),
{
    let neg = price < 0;
    let mag: u64 = if neg {
        ((-(price + 1)) as u64) + 1
    } else {
        price as u64
    };
    let integer_part = mag / 100_000_000;
    let decimal_part = mag % 100_000_000;
    let mut out: Vec<u8> = Vec::new();
    if integer_part == 0 {
        out.push(48);
    } else {
        if neg {
            out.push(45);
        }
        let mut d = u64_digits(integer_part);
        out.append(&mut d);
    }
    out.push(46);
    if decimal_part > 0 {
        let mut f = fraction_digits(decimal_part);
        out.append(&mut f);
    } else {
        out.push(48);
    }
    proof {
        assert(mag as nat == abs_price(price));
        assert(out@ =~= price_text(price));
    }
    out
}

/// Writes the text of `price` at the start of `buf` and returns its length.
pub fn format_fix_price(price: i64, buf: &mut [u8]) -> (n: usize)
    requires
        old(buf)@.len() >= price_text(price).len(),
    ensures
        n == price_text(price).len(),
        final(buf)@.len() == old(buf)@.len(),
        final(buf)@.take(n as int) == price_text(price),
        final(buf)@.skip(n as int) == old(buf)@.skip(n as int),
        n <= 21,
        price >= 0 ==> n <= 20,
        spec_price(final(buf)@.take(n as int)) == abs_price(price),
{
    let text = price_bytes(price);
    let mut pos: usize = 0;
    while pos < text.len()
        invariant
            text@ == price_text(price),
            pos <= text@.len() <= buf@.len(),
            buf@.len() == old(buf)@.len(),
            buf@.take(pos as int) == text@.take(pos as int),
            buf@.skip(text@.len() as int) == old(buf)@.skip(text@.len() as int),
        decreases text.len() - pos,
    {
        buf[pos] = text[pos];
        proof {
            assert(buf@.take(pos + 1) =~= text@.take(pos + 1));
            assert(buf@.skip(text@.len() as int) =~= old(buf)@.skip(text@.len() as int));
        }
        pos += 1;
    }
    proof {
        assert(text@.take(pos as int) =~= text@);
        lemma_price_text_shape(price);
        lemma_price_text_reads_back(price);
    }
    pos
}

// ---------------------------------------------------------------------------
// Orders and fills.
#[derive(Clone, Copy)]
pub struct Order {
    pub order_id: u64,
    pub clord_id: [u8; 20],
    pub clord_id_len: u8,
    pub symbol: [u8; 8],
    pub symbol_len: u8,
    pub side: Side,
    pub price: i64,
    pub order_qty: u64,
    pub filled_qty: u64,
    pub timestamp: u64,
    pub next: u32,
    pub prev: u32,
}

/// The first `n` bytes of `s`, padded with zeros where `s` is shorter.
pub open spec fn padded(s: Seq<u8>, n: nat) -> Seq<u8> {
    Seq::new(n, |i: int| if i < s.len() { s[i] } else { 0u8 })
}

pub open spec fn min_nat(a: nat, b: nat) -> nat {
    if a <= b {
        a
    } else {
        b
    }
}

pub open spec fn spec_leaves(o: Order) -> nat {
    if o.order_qty >= o.filled_qty {
        (o.order_qty - o.filled_qty) as nat
    } else {
        0
    }
}

impl Order {
    pub fn new() -> (o: Self)
        ensures
            o.order_id == 0,
            o.clord_id@ == Seq::new(20, |i: int| 0u8),
            o.clord_id_len == 0,
            o.symbol@ == Seq::new(8, |i: int| 0u8),
            o.symbol_len == 0,
            o.side == Side::Buy,
            o.price == 0,
            o.order_qty == 0,
            o.filled_qty == 0,
            o.timestamp == 0,
            o.next == NO_ORDER,
            o.prev == NO_ORDER,
    {
        let o = Order {
            order_id: 0,
            clord_id: [0u8; 20],
            clord_id_len: 0,
            symbol: [0u8; 8],
            symbol_len: 0,
            side: Side::Buy,
            price: 0,
            order_qty: 0,
            filled_qty: 0,
            timestamp: 0,
            next: NO_ORDER,
            prev: NO_ORDER,
        };
        proof {
            assert(o.clord_id@ =~= Seq::new(20, |i: int| 0u8));
            assert(o.symbol@ =~= Seq::new(8, |i: int| 0u8));
        }
        o
    }

    /// What is left to fill; zero when more was filled than ordered.
    pub fn leaves_qty(&self) -> (r: u64)
        ensures
            r == spec_leaves(*self),
    {
        self.order_qty.saturating_sub(self.filled_qty)
    }

    pub fn clord_id_slice(&self) -> (r: &[u8])
        requires
            self.clord_id_len <= 20,
        ensures
            r@ == self.clord_id@.take(self.clord_id_len as int),
    {
        slice_subrange(self.clord_id.as_slice(), 0, self.clord_id_len as usize)
    }

    pub fn symbol_slice(&self) -> (r: &[u8])
        requires
            self.symbol_len <= 8,
        ensures
            r@ == self.symbol@.take(self.symbol_len as int),
    {
        slice_subrange(self.symbol.as_slice(), 0, self.symbol_len as usize)
    }
}

pub struct Fill {
    pub maker_order_id: u64,
    pub taker_clord_id: [u8; 20],
    pub taker_clord_id_len: u8,
    pub symbol: [u8; 8],
    pub symbol_len: u8,
    pub side: Side,
    pub price: i64,
    pub fill_qty: u64,
    pub maker_leaves: u64,
    pub taker_leaves: u64,
    pub taker_order_qty: u64,
    pub exec_id: u64,
}

/// `s` truncated to 20 bytes in a zero-padded array, and the length kept.
fn copy_id20(s: &[u8]) -> (r: ([u8; 20], u8))
    ensures
        r.0@ == padded(s@, 20),
        r.1 == min_nat(s@.len(), 20),
{
    let mut a = [0u8; 20];
    let len: usize = if s.len() < 20 {
        s.len()
    } else {
        20
    };
    let mut i: usize = 0;
    while i < len
        invariant
            len == min_nat(s@.len(), 20),
            i <= len,
            a@.len() == 20,
            forall|k: int| 0 <= k < 20 ==> #[trigger] a@[k] == (if k < i {
                s@[k]
            } else {
                0u8
            }),
        decreases len - i,
    {
        a[i] = s[i];
        i += 1;
    }
    proof {
        assert(a@ =~= padded(s@, 20));
    }
    (a, len as u8)
}

/// `s` truncated to 8 bytes in a zero-padded array, and the length kept.
fn copy_id8(s: &[u8]) -> (r: ([u8; 8], u8))
    ensures
        r.0@ == padded(s@, 8),
        r.1 == min_nat(s@.len(), 8),
{
    let mut a = [0u8; 8];
    let len: usize = if s.len() < 8 {
        s.len()
    } else {
        8
    };
    let mut i: usize = 0;
    while i < len
        invariant
            len == min_nat(s@.len(), 8),
            i <= len,
            a@.len() == 8,
            forall|k: int| 0 <= k < 8 ==> #[trigger] a@[k] == (if k < i {
                s@[k]
            } else {
                0u8
            }),
        decreases len - i,
    {
        a[i] = s[i];
        i += 1;
    }
    proof {
        assert(a@ =~= padded(s@, 8));
    }
    (a, len as u8)
}

// ---------------------------------------------------------------------------
// The book: for each side, the price levels of a tree, each with a queue of resting
// orders linked through the order arena.

/// An order as the book holds it, apart from its queue links.
pub open spec fn resting(o: Order) -> Order {
    Order { next: NO_ORDER, prev: NO_ORDER, ..o }
}

pub open spec fn queue_orders(q: Seq<u32>, orders: Map<u32, Order>) -> Seq<Order> {
    q.map_values(|i: u32| resting(orders[i]))
}

pub open spec fn sum_leaves(q: Seq<Order>) -> nat
    decreases q.len(),
{
    if q.len() == 0 {
        0
    } else {
        spec_leaves(q[0]) + sum_leaves(q.drop_first())
    }
}

pub open spec fn order_at(q: Seq<u32>, orders: Map<u32, Order>, i: int, price: i64, side: Side) -> bool {
    let o = orders[q[i]];
    &&& orders.contains_key(q[i])
    &&& o.prev == (if i == 0 {
        NO_ORDER
    } else {
        q[i - 1]
    })
    &&& o.next == (if i + 1 == q.len() {
        NO_ORDER
    } else {
        q[i + 1]
    })
    &&& o.price == price
    &&& o.side == side
    &&& o.filled_qty < o.order_qty
    &&& o.clord_id_len <= 20
    &&& o.symbol_len <= 8
}

/// A level of price `lv.0` heads the queue `q`, in time order, of orders on `side`
/// that are not fully filled, and holds their total open quantity; an empty queue has
/// neither head nor tail.
pub open spec fn level_links(lv: (i64, u32, u32, u64), q: Seq<u32>, orders: Map<u32, Order>, side: Side) -> bool {
    &&& q.len() == 0 ==> lv.1 == NO_ORDER && lv.2 == NO_ORDER
    &&& q.len() > 0 ==> lv.1 == q[0] && lv.2 == q.last()
    &&& q.no_duplicates()
    &&& forall|i: int| 0 <= i < q.len() ==> #[trigger] order_at(q, orders, i, lv.0, side)
    &&& lv.3 == sum_leaves(queue_orders(q, orders))
}

pub open spec fn level_ok(lv: (i64, u32, u32, u64), q: Seq<u32>, orders: Map<u32, Order>, side: Side) -> bool {
    &&& q.len() > 0
    &&& level_links(lv, q, orders, side)
}

/// Each level of `tree` has its queue in `queues`, all of them non-empty but perhaps
/// that of `node`, and every queued order is owned by its side and price.
pub open spec fn side_ok_at(
    tree: RbTree,
    queues: Map<i64, Seq<u32>>,
    orders: Map<u32, Order>,
    owner: Map<u32, (bool, i64)>,
    is_bid: bool,
    side: Side,
    node: u32,
) -> bool {
    &&& tree.wf()
    &&& forall|l: u32|
        #[trigger] tree@.contains_key(l) ==> queues.contains_key(tree@[l].0) && level_links(
            tree@[l],
            queues[tree@[l].0],
            orders,
            side,
        ) && (l != node ==> queues[tree@[l].0].len() > 0)
    &&& forall|p: i64| #[trigger] queues.contains_key(p) ==> tree.has_key(p)
    &&& forall|p: i64, i: int|
        queues.contains_key(p) && 0 <= i < queues[p].len() ==> owner.contains_key(
            #[trigger] queues[p][i],
        ) && owner[queues[p][i]] == (is_bid, p)
}

pub open spec fn side_ok(
    tree: RbTree,
    queues: Map<i64, Seq<u32>>,
    orders: Map<u32, Order>,
    owner: Map<u32, (bool, i64)>,
    is_bid: bool,
    side: Side,
) -> bool {
    side_ok_at(tree, queues, orders, owner, is_bid, side, crate::lob::rbtree::NIL)
}

/// The orders that `o2` and `own2` hold for the other side are those of `o1` and `own1`.
pub open spec fn untouched_other(
    o1: Map<u32, Order>,
    own1: Map<u32, (bool, i64)>,
    o2: Map<u32, Order>,
    own2: Map<u32, (bool, i64)>,
    is_bid: bool,
) -> bool {
    forall|k: u32|
        #[trigger] o1.contains_key(k) && own1.contains_key(k) && own1[k].0 != is_bid
            ==> o2.contains_key(k) && o2[k] == o1[k] && own2.contains_key(k) && own2[k] == own1[k]
}

pub open spec fn side_model(queues: Map<i64, Seq<u32>>, orders: Map<u32, Order>) -> Map<
    i64,
    Seq<Order>,
> {
    queues.map_values(|q: Seq<u32>| queue_orders(q, orders))
}

proof fn lemma_side_frame(
    tree: RbTree,
    queues: Map<i64, Seq<u32>>,
    o1: Map<u32, Order>,
    own1: Map<u32, (bool, i64)>,
    o2: Map<u32, Order>,
    own2: Map<u32, (bool, i64)>,
    is_bid: bool,
    side: Side,
    node: u32,
)
    requires
        side_ok_at(tree, queues, o1, own1, is_bid, side, node),
        untouched_other(o1, own1, o2, own2, !is_bid),
    ensures
        side_ok_at(tree, queues, o2, own2, is_bid, side, node),
        side_model(queues, o2) == side_model(queues, o1),
{
    assert forall|p: i64, i: int|
        queues.contains_key(p) && 0 <= i < queues[p].len() implies o1.contains_key(
        #[trigger] queues[p][i],
    ) && o2.contains_key(queues[p][i]) && o2[queues[p][i]] == o1[queues[p][i]] && own2[queues[p][i]]
        == own1[queues[p][i]] by {
        assert(tree.has_key(p));
        let l = choose|l: u32| tree@.contains_key(l) && (#[trigger] tree@[l]).0 == p;
        assert(level_links(tree@[l], queues[p], o1, side));
        assert(order_at(queues[p], o1, i, p, side));
    }
    assert forall|p: i64| #[trigger] queues.contains_key(p) implies queue_orders(queues[p], o2)
        == queue_orders(queues[p], o1) by {
        assert(queue_orders(queues[p], o2) =~= queue_orders(queues[p], o1));
    }
    assert forall|l: u32| #[trigger] tree@.contains_key(l) implies queues.contains_key(tree@[l].0)
        && level_links(tree@[l], queues[tree@[l].0], o2, side) && (l != node ==> queues[tree@[l].0].len() > 0) by {
        let p = tree@[l].0;
        assert(level_links(tree@[l], queues[p], o1, side));
        assert forall|i: int| 0 <= i < queues[p].len() implies #[trigger] order_at(
            queues[p],
            o2,
            i,
            p,
            side,
        ) by {
            assert(order_at(queues[p], o1, i, p, side));
            if i > 0 {
                assert(o1.contains_key(queues[p][i - 1]));
            }
        }
    }
    assert(side_model(queues, o2) =~= side_model(queues, o1));
}

/// A side has one level per price with a queue.
proof fn lemma_side_count(
    tree: RbTree,
    queues: Map<i64, Seq<u32>>,
    orders: Map<u32, Order>,
    owner: Map<u32, (bool, i64)>,
    is_bid: bool,
    side: Side,
)
    requires
        side_ok(tree, queues, orders, owner, is_bid, side),
    ensures
        tree@.dom().finite(),
        tree@.dom().len() == queues.dom().len(),
        tree.is_full() <==> tree@.dom().len() == tree.spec_capacity(),
{
    tree.lemma_levels();
    tree.arena.lemma_full_len();
    let f = |l: u32| tree@[l].0;
    let d = tree@.dom();
    assert(d.map(f) =~= queues.dom()) by {
        assert forall|p: i64| queues.dom().contains(p) implies d.map(f).contains(p) by {
            assert(tree.has_key(p));
            let l = choose|l: u32| tree@.contains_key(l) && (#[trigger] tree@[l]).0 == p;
            assert(f(l) == p);
        }
        assert forall|p: i64| d.map(f).contains(p) implies queues.dom().contains(p) by {
            let l = choose|l: u32| d.contains(l) && f(l) == p;
            assert(queues.contains_key(tree@[l].0));
        }
    }
    assert(vstd::relations::injective_on(f, d)) by {
        assert forall|a: u32, c: u32| d.contains(a) && d.contains(c) && #[trigger] f(a) == #[trigger] f(
            c,
        ) implies a == c by {}
    }
    vstd::set_lib::lemma_map_size(d, queues.dom(), f);
}

pub struct LimitOrderBook {
    pub bids: RbTree,
    pub asks: RbTree,
    pub order_arena: Arena<Order>,
    pub next_order_id: u64,
    pub next_exec_id: u64,
    pub seq: u64,
    pub bid_queues: Ghost<Map<i64, Seq<u32>>>,
    pub ask_queues: Ghost<Map<i64, Seq<u32>>>,
    pub owner: Ghost<Map<u32, (bool, i64)>>,
}

impl LimitOrderBook {
    pub open spec fn wf(&self) -> bool {
        &&& self.order_arena.wf()
        &&& side_ok(self.bids, self.bid_queues@, self.order_arena@, self.owner@, true, Side::Buy)
        &&& side_ok(self.asks, self.ask_queues@, self.order_arena@, self.owner@, false, Side::Sell)
    }

    /// The resting buy orders: for each price, its queue in time order.
    pub open spec fn bids_model(&self) -> Map<i64, Seq<Order>> {
        side_model(self.bid_queues@, self.order_arena@)
    }

    /// The resting sell orders: for each price, its queue in time order.
    pub open spec fn asks_model(&self) -> Map<i64, Seq<Order>> {
        side_model(self.ask_queues@, self.order_arena@)
    }

    /// Each side's tree holds one level per price of its model, and is full exactly when
    /// it holds as many levels as it has slots.
    pub proof fn lemma_level_counts(&self)
        requires
            self.wf(),
        ensures
            self.bids@.dom().len() == self.bids_model().dom().len(),
            self.asks@.dom().len() == self.asks_model().dom().len(),
            self.bids.is_full() <==> self.bids@.dom().len() == self.bids.spec_capacity(),
            self.asks.is_full() <==> self.asks@.dom().len() == self.asks.spec_capacity(),
            self.order_arena.is_full() <==> self.order_arena@.dom().len()
                == self.order_arena.spec_capacity(),
    {
        lemma_side_count(self.bids, self.bid_queues@, self.order_arena@, self.owner@, true, Side::Buy);
        lemma_side_count(self.asks, self.ask_queues@, self.order_arena@, self.owner@, false, Side::Sell);
        assert(self.bids_model().dom() =~= self.bid_queues@.dom());
        assert(self.asks_model().dom() =~= self.ask_queues@.dom());
        self.order_arena.lemma_full_len();
    }

    pub fn new() -> (b: Self)
        ensures
            b.wf(),
            b.bids_model() == Map::<i64, Seq<Order>>::empty(),
            b.asks_model() == Map::<i64, Seq<Order>>::empty(),
            b.next_order_id == 1,
            b.next_exec_id == 1,
            b.seq == 0,
            b.order_arena.spec_capacity() == ORDER_ARENA_CAP,
            b.bids.spec_capacity() == LEVEL_ARENA_CAP,
            b.asks.spec_capacity() == LEVEL_ARENA_CAP,
            b.order_arena@ == Map::<u32, Order>::empty(),
            b.bids@ == Map::<u32, (i64, u32, u32, u64)>::empty(),
            b.asks@ == Map::<u32, (i64, u32, u32, u64)>::empty(),
            b.bid_queues@ == Map::<i64, Seq<u32>>::empty(),
            b.ask_queues@ == Map::<i64, Seq<u32>>::empty(),
            b.uncrossed(),
            b.time_ordered(),
    {
        let b = LimitOrderBook {
            bids: RbTree::new(LEVEL_ARENA_CAP),
            asks: RbTree::new(LEVEL_ARENA_CAP),
            order_arena: Arena::new(ORDER_ARENA_CAP),
            next_order_id: 1,
            next_exec_id: 1,
            seq: 0,
            bid_queues: Ghost(Map::empty()),
            ask_queues: Ghost(Map::empty()),
            owner: Ghost(Map::empty()),
        };
        proof {
            assert(b.bids_model() =~= Map::<i64, Seq<Order>>::empty());
            assert(b.asks_model() =~= Map::<i64, Seq<Order>>::empty());
            assert forall|p: i64| #[trigger] b.bid_queues@.contains_key(p) implies b.bids.has_key(p) by {}
        }
        b
    }
}

proof fn lemma_sum_leaves_push(s: Seq<Order>, x: Order)
    ensures
        sum_leaves(s.push(x)) == sum_leaves(s) + spec_leaves(x),
    decreases s.len(),
{
    if s.len() > 0 {
        assert(s.push(x).drop_first() =~= s.drop_first().push(x));
        assert(s.push(x)[0] == s[0]);
        lemma_sum_leaves_push(s.drop_first(), x);
    } else {
        assert(s.push(x).drop_first() =~= Seq::<Order>::empty());
        assert(s.push(x)[0] == x);
        assert(sum_leaves(Seq::<Order>::empty()) == 0);
    }
}

/// The queue that `queues` holds at `p`, empty when there is none.
pub open spec fn queue_at<T>(queues: Map<i64, Seq<T>>, p: i64) -> Seq<T> {
    if queues.contains_key(p) {
        queues[p]
    } else {
        Seq::empty()
    }
}

/// Appends `order` to the queue of its price on one side, making the level first where
/// there is none.
fn rest_order(
    tree: &mut RbTree,
    queues: &mut Ghost<Map<i64, Seq<u32>>>,
    orders: &mut Arena<Order>,
    owner: &mut Ghost<Map<u32, (bool, i64)>>,
    is_bid: bool,
    order: Order,
)
    requires
        old(orders).wf(),
        side_ok(*old(tree), old(queues)@, old(orders)@, old(owner)@, is_bid, order.side),
        order.filled_qty < order.order_qty,
        order.clord_id_len <= 20,
        order.symbol_len <= 8,
        !old(orders).is_full(),
        !old(queues)@.contains_key(order.price) ==> !old(tree).is_full(),
        sum_leaves(queue_at(side_model(old(queues)@, old(orders)@), order.price)) + spec_leaves(
            order,
        ) <= u64::MAX,
    ensures
        final(orders).wf(),
        side_ok(*final(tree), final(queues)@, final(orders)@, final(owner)@, is_bid, order.side),
        untouched_other(old(orders)@, old(owner)@, final(orders)@, final(owner)@, is_bid),
        side_model(final(queues)@, final(orders)@) == side_model(old(queues)@, old(orders)@).insert(
            order.price,
            queue_at(side_model(old(queues)@, old(orders)@), order.price).push(resting(order)),
        ),
        final(orders).spec_capacity() == old(orders).spec_capacity(),
        final(tree).spec_capacity() == old(tree).spec_capacity(),
        final(orders)@.dom().len() == old(orders)@.dom().len() + 1,
{
    let price = order.price;
    let side = order.side;
    let ghost q0 = queues@;
    let ghost o0 = orders@;
    let ghost w0 = owner@;
    proof {
        tree.lemma_levels();
        orders.lemma_wf();
        if !q0.contains_key(price) && tree.has_key(price) {
            let l = choose|l: u32| tree@.contains_key(l) && (#[trigger] tree@[l]).0 == price;
            assert(q0.contains_key(tree@[l].0));
        }
    }
    let found = tree.find(price);
    let node_idx = match found {
        Some(idx) => idx,
        None => tree.insert(price).unwrap(),
    };
    proof {
        tree.lemma_levels();
        if !q0.contains_key(price) {
            assert(found is None);
            assert(tree@[node_idx] == (price, NO_ORDER, NO_ORDER, 0u64));
        } else {
            assert(found is Some);
        }
    }
    let lv = *tree.arena.get(node_idx);
    let ghost q = queue_at(q0, price);
    proof {
        if !q0.contains_key(price) {
            assert(lv.order_head == NO_ORDER && lv.order_tail == NO_ORDER && lv.total_qty == 0);
        } else {
            assert(level_ok(tree@[node_idx], q0[price], o0, side));
            assert(order_at(q, o0, q.len() - 1, price, side));
        }
    }
    let mut o = order;
    o.next = NO_ORDER;
    o.prev = lv.order_tail;
    let order_idx = orders.allocate(o).unwrap();
    let tail = lv.order_tail;
    if tail != NO_ORDER {
        let mut t = *orders.get(tail);
        t.next = order_idx;
        orders.set(tail, t);
    }
    let new_head = if tail != NO_ORDER {
        lv.order_head
    } else {
        order_idx
    };
    proof {
        lemma_sum_leaves_push(queue_orders(q, o0), resting(order));
        if !q0.contains_key(price) {
            assert(queue_orders(q, o0) =~= Seq::<Order>::empty());
        }
    }
    let new_total = lv.total_qty + (order.order_qty - order.filled_qty);
    tree.set_level(node_idx, new_head, order_idx, new_total);
    let ghost nq = q.push(order_idx);
    *queues = Ghost(q0.insert(price, nq));
    *owner = Ghost(w0.insert(order_idx, (is_bid, price)));
    proof {
        let o1 = orders@;
        let q1 = queues@;
        let w1 = owner@;
        tree.lemma_levels();
        orders.lemma_wf();
        assert(!q.contains(order_idx)) by {
            if q.contains(order_idx) {
                let i = choose|i: int| 0 <= i < q.len() && q[i] == order_idx;
                assert(order_at(q, o0, i, price, side));
            }
        }
        // the orders of every other queue are those of before
        assert forall|p: i64, i: int|
            q0.contains_key(p) && p != price && 0 <= i < q0[p].len() implies #[trigger] q0[p][i]
            != order_idx && q0[p][i] != tail && o1[q0[p][i]] == o0[q0[p][i]] by {
            assert(tree.has_key(p) || old(tree).has_key(p));
            let l = choose|l: u32| old(tree)@.contains_key(l) && (#[trigger] old(tree)@[l]).0 == p;
            assert(level_ok(old(tree)@[l], q0[p], o0, side));
            assert(order_at(q0[p], o0, i, p, side));
            if q.len() > 0 {
                assert(w0[q[q.len() - 1]] == (is_bid, price));
            }
        }
        assert(queue_orders(q, o1) =~= queue_orders(q, o0)) by {
            assert forall|i: int| 0 <= i < q.len() implies resting(o1[q[i]]) == resting(o0[q[i]]) by {
                assert(order_at(q, o0, i, price, side));
            }
        }
        assert(queue_orders(nq, o1) =~= queue_orders(q, o0).push(resting(order)));
        assert forall|i: int| 0 <= i < nq.len() implies #[trigger] order_at(nq, o1, i, price, side) by {
            if i < q.len() {
                assert(order_at(q, o0, i, price, side));
                if i > 0 {
                    assert(order_at(q, o0, i - 1, price, side));
                }
            }
        }
        assert(nq.no_duplicates());
        assert forall|l: u32| #[trigger] tree@.contains_key(l) implies q1.contains_key(tree@[l].0)
            && level_ok(tree@[l], q1[tree@[l].0], o1, side) by {
            if l == node_idx {
                assert(tree@[l] == (price, new_head, order_idx, new_total));
                assert(new_head == nq[0]);
                assert(order_idx == nq.last());
                assert(new_total == sum_leaves(queue_orders(nq, o1)));
            } else {
                let p = tree@[l].0;
                assert(old(tree)@.contains_key(l));
                assert(p != price);
                assert(level_ok(old(tree)@[l], q0[p], o0, side));
                assert(queue_orders(q0[p], o1) =~= queue_orders(q0[p], o0));
                assert forall|i: int| 0 <= i < q0[p].len() implies #[trigger] order_at(q0[p], o1, i, p, side) by {
                    assert(order_at(q0[p], o0, i, p, side));
                    if i > 0 {
                        assert(q0[p][i - 1] != tail);
                    }
                    if i + 1 < q0[p].len() {
                        assert(q0[p][i + 1] != tail);
                    }
                }
            }
        }
        assert forall|p: i64| #[trigger] q1.contains_key(p) implies tree.has_key(p) by {
            if p == price {
                assert(tree@.contains_key(node_idx));
            } else {
                assert(old(tree).has_key(p));
                let l = choose|l: u32| old(tree)@.contains_key(l) && (#[trigger] old(tree)@[l]).0 == p;
                assert(tree@.contains_key(l));
            }
        }
        assert forall|p: i64, i: int|
            q1.contains_key(p) && 0 <= i < q1[p].len() implies w1.contains_key(#[trigger] q1[p][i])
            && w1[q1[p][i]] == (is_bid, p) by {
            if p != price {
                assert(q0[p][i] != order_idx);
            } else if i < q.len() {
                assert(order_at(q, o0, i, price, side));
            }
        }
        assert forall|k: u32|
            #[trigger] o0.contains_key(k) && w0.contains_key(k) && w0[k].0 != is_bid implies o1.contains_key(k)
            && o1[k] == o0[k] && w1.contains_key(k) && w1[k] == w0[k] by {
            if q.len() > 0 {
                assert(order_at(q, o0, q.len() - 1, price, side));
            }
        }
        assert forall|p: i64| #[trigger] q0.contains_key(p) && p != price implies queue_orders(q0[p], o1)
            == queue_orders(q0[p], o0) by {
            assert forall|i: int| 0 <= i < q0[p].len() implies resting(o1[q0[p][i]]) == resting(
                o0[q0[p][i]],
            ) by {
                assert(q0[p][i] != order_idx);
            }
            assert(queue_orders(q0[p], o1) =~= queue_orders(q0[p], o0));
        }
        if !q0.contains_key(price) {
            assert(queue_orders(q, o0) =~= Seq::<Order>::empty());
        }
        assert(side_model(q1, o1) =~= side_model(q0, o0).insert(price, queue_at(side_model(q0, o0), price).push(resting(order))));
        assert(o1.dom() =~= o0.dom().insert(order_idx));
        assert(o0.dom().finite());
    }
}

// ---------------------------------------------------------------------------
// Matching.

/// `p` is the best price of `book` for a taker on side `taker`: the lowest ask for a
/// buyer, the highest bid for a seller.
pub open spec fn is_best(book: Map<i64, Seq<Order>>, taker: Side, p: i64) -> bool {
    &&& book.contains_key(p)
    &&& forall|q: i64| #[trigger]
        book.contains_key(q) ==> (if taker == Side::Buy {
            p <= q
        } else {
            q <= p
        })
}

pub open spec fn has_best(book: Map<i64, Seq<Order>>, taker: Side) -> bool {
    exists|p: i64| is_best(book, taker, p)
}

pub open spec fn best_price(book: Map<i64, Seq<Order>>, taker: Side) -> i64 {
    choose|p: i64| is_best(book, taker, p)
}

/// A taker at `limit` trades at price `p`.
pub open spec fn crosses(taker: Side, limit: i64, p: i64) -> bool {
    if taker == Side::Buy {
        limit >= p
    } else {
        limit <= p
    }
}

pub open spec fn opposite(s: Side) -> Side {
    if s == Side::Buy {
        Side::Sell
    } else {
        Side::Buy
    }
}

/// What filling the first order of the best level with up to `remaining` gives: the
/// execution (maker order id, price, quantity, maker's and taker's open quantity
/// after it), the book after it and the taker's open quantity after it.
pub open spec fn match_step(book: Map<i64, Seq<Order>>, taker: Side, remaining: nat) -> (
    (u64, i64, nat, nat, nat),
    Map<i64, Seq<Order>>,
    nat,
) {
    let p = best_price(book, taker);
    let lvl = book[p];
    let o = lvl[0];
    let f = min_nat(spec_leaves(o), remaining);
    let o2 = Order { filled_qty: (o.filled_qty + f) as u64, ..o };
    let ml = spec_leaves(o2);
    let r2 = (remaining - f) as nat;
    let book2 = if ml == 0 {
        if lvl.len() == 1 {
            book.remove(p)
        } else {
            book.insert(p, lvl.drop_first())
        }
    } else {
        book.insert(p, lvl.update(0, o2))
    };
    ((o.order_id, p, f, ml, r2), book2, r2)
}

/// Price-time priority: a taker on side `taker` with limit `limit` and `remaining` to
/// fill trades, one resting order at a time, with the first order of the best level for
/// as long as that level crosses and something remains; at most `fuel` executions.
pub open spec fn match_run(
    book: Map<i64, Seq<Order>>,
    taker: Side,
    limit: i64,
    remaining: nat,
    fuel: nat,
) -> (Seq<(u64, i64, nat, nat, nat)>, Map<i64, Seq<Order>>, nat)
    decreases fuel,
{
    if fuel == 0 || remaining == 0 || !has_best(book, taker) || !crosses(
        taker,
        limit,
        best_price(book, taker),
    ) || book[best_price(book, taker)].len() == 0 {
        (Seq::empty(), book, remaining)
    } else {
        let (e, book2, r2) = match_step(book, taker, remaining);
        let rest = match_run(book2, taker, limit, r2, (fuel - 1) as nat);
        (seq![e] + rest.0, rest.1, rest.2)
    }
}

/// In every queue of `book`, orders come in strictly increasing time stamp, none of them
/// later than `seq`.
pub open spec fn time_ordered(book: Map<i64, Seq<Order>>, seq: u64) -> bool {
    &&& forall|p: i64, i: int, j: int|
        book.contains_key(p) && 0 <= i < j < book[p].len() ==> #[trigger] book[p][i].timestamp
            < #[trigger] book[p][j].timestamp
    &&& forall|p: i64, i: int|
        book.contains_key(p) && 0 <= i < book[p].len() ==> #[trigger] book[p][i].timestamp <= seq
}

proof fn lemma_step_time_ordered(book: Map<i64, Seq<Order>>, taker: Side, remaining: nat, seq: u64)
    requires
        time_ordered(book, seq),
        has_best(book, taker),
        book[best_price(book, taker)].len() > 0,
    ensures
        time_ordered(match_step(book, taker, remaining).1, seq),
{
    let p = best_price(book, taker);
    let lvl = book[p];
    let o = lvl[0];
    let f = min_nat(spec_leaves(o), remaining);
    let o2 = Order { filled_qty: (o.filled_qty + f) as u64, ..o };
    let b2 = match_step(book, taker, remaining).1;
    assert(book.contains_key(p));
    if spec_leaves(o2) == 0 {
        if lvl.len() > 1 {
            let l2 = lvl.drop_first();
            assert forall|q: i64, i: int, j: int|
                b2.contains_key(q) && 0 <= i < j < b2[q].len() implies #[trigger] b2[q][i].timestamp
                < #[trigger] b2[q][j].timestamp by {
                if q == p {
                    assert(b2[q][i] == lvl[i + 1] && b2[q][j] == lvl[j + 1]);
                    assert(lvl[i + 1].timestamp < lvl[j + 1].timestamp);
                }
            }
            assert forall|q: i64, i: int|
                b2.contains_key(q) && 0 <= i < b2[q].len() implies #[trigger] b2[q][i].timestamp
                <= seq by {
                if q == p {
                    assert(b2[q][i] == lvl[i + 1]);
                    assert(lvl[i + 1].timestamp <= seq);
                }
            }
        }
    } else {
        let l2 = lvl.update(0, o2);
        assert forall|q: i64, i: int, j: int|
            b2.contains_key(q) && 0 <= i < j < b2[q].len() implies #[trigger] b2[q][i].timestamp
            < #[trigger] b2[q][j].timestamp by {
            if q == p {
                assert(b2[q][i].timestamp == lvl[i].timestamp);
                assert(b2[q][j].timestamp == lvl[j].timestamp);
                assert(lvl[i].timestamp < lvl[j].timestamp);
            }
        }
        assert forall|q: i64, i: int|
            b2.contains_key(q) && 0 <= i < b2[q].len() implies #[trigger] b2[q][i].timestamp
            <= seq by {
            if q == p {
                assert(b2[q][i].timestamp == lvl[i].timestamp);
                assert(lvl[i].timestamp <= seq);
            }
        }
    }
}

proof fn lemma_run_time_ordered(
    book: Map<i64, Seq<Order>>,
    taker: Side,
    limit: i64,
    remaining: nat,
    fuel: nat,
    seq: u64,
)
    requires
        time_ordered(book, seq),
    ensures
        time_ordered(match_run(book, taker, limit, remaining, fuel).1, seq),
    decreases fuel,
{
    if fuel == 0 || remaining == 0 || !has_best(book, taker) || !crosses(
        taker,
        limit,
        best_price(book, taker),
    ) || book[best_price(book, taker)].len() == 0 {
    } else {
        let (e, book2, r2) = match_step(book, taker, remaining);
        lemma_step_time_ordered(book, taker, remaining, seq);
        lemma_run_time_ordered(book2, taker, limit, r2, (fuel - 1) as nat, seq);
    }
}

/// A run leaves the taker no more than it started with, and makes at most `fuel`
/// executions.
pub proof fn lemma_run_bounds(
    book: Map<i64, Seq<Order>>,
    taker: Side,
    limit: i64,
    remaining: nat,
    fuel: nat,
)
    ensures
        match_run(book, taker, limit, remaining, fuel).2 <= remaining,
        match_run(book, taker, limit, remaining, fuel).0.len() <= fuel,
    decreases fuel,
{
    if fuel > 0 && remaining > 0 && has_best(book, taker) {
        let (e, book2, r2) = match_step(book, taker, remaining);
        lemma_run_bounds(book2, taker, limit, r2, (fuel - 1) as nat);
    }
}

proof fn lemma_best_unique(book: Map<i64, Seq<Order>>, taker: Side, p: i64)
    requires
        is_best(book, taker, p),
    ensures
        has_best(book, taker),
        best_price(book, taker) == p,
{
    let c = best_price(book, taker);
    assert(is_best(book, taker, c));
    assert(book.contains_key(c));
}

/// Fills the first order of the level `node` with up to `remaining`; unlinks and frees
/// it when it is done. Returns the quantity filled, the order that follows it, the
/// maker's order id and what the maker has left.
fn fill_head(
    tree: &mut RbTree,
    queues: &mut Ghost<Map<i64, Seq<u32>>>,
    orders: &mut Arena<Order>,
    owner: Ghost<Map<u32, (bool, i64)>>,
    is_bid: bool,
    side: Side,
    node: u32,
    remaining: u64,
) -> (r: (u64, u32, u64, u64))
    requires
        old(orders).wf(),
        side_ok_at(*old(tree), old(queues)@, old(orders)@, owner@, is_bid, side, node),
        old(tree)@.contains_key(node),
        old(queues)@[old(tree)@[node].0].len() > 0,
        remaining > 0,
    ensures
        ({
            let p = old(tree)@[node].0;
            let q = old(queues)@[p];
            let lvl = side_model(old(queues)@, old(orders)@)[p];
            let o = lvl[0];
            let f = min_nat(spec_leaves(o), remaining as nat);
            let o2 = Order { filled_qty: (o.filled_qty + f) as u64, ..o };
            let ml = spec_leaves(o2);
            &&& final(orders).wf()
            &&& side_ok_at(*final(tree), final(queues)@, final(orders)@, owner@, is_bid, side, node)
            &&& untouched_other(old(orders)@, owner@, final(orders)@, owner@, is_bid)
            &&& final(tree)@.dom() == old(tree)@.dom()
            &&& final(tree)@[node].0 == p
            &&& final(tree).spec_capacity() == old(tree).spec_capacity()
            &&& final(orders).spec_capacity() == old(orders).spec_capacity()
            &&& r.0 == f && r.2 == o.order_id && r.3 == ml
            &&& f > 0
            &&& (ml == 0 ==> final(queues)@ == old(queues)@.insert(p, q.drop_first())
                && final(orders)@.dom() == old(orders)@.dom().remove(q[0])
                && final(orders)@.dom().len() + 1 == old(orders)@.dom().len()
                && final(orders).next_slot() != crate::lob::arena::NIL
                && r.1 == final(tree)@[node].1)
            &&& (ml > 0 ==> final(queues)@ == old(queues)@ && final(orders)@.dom() == old(
                orders,
            )@.dom() && f == remaining && final(orders).next_slot() == old(orders).next_slot())
            &&& side_model(final(queues)@, final(orders)@) == side_model(
                old(queues)@,
                old(orders)@,
            ).insert(
                p,
                if ml == 0 {
                    lvl.drop_first()
                } else {
                    lvl.update(0, o2)
                },
            )
        }),
{
    let ghost q0 = queues@;
    let ghost o0 = orders@;
    let ghost w = owner@;
    proof {
        tree.lemma_levels();
        orders.lemma_wf();
    }
    let lv = *tree.arena.get(node);
    let ghost p = lv.key;
    let ghost q = q0[p];
    proof {
        assert(level_links(tree@[node], q, o0, side));
        assert(order_at(q, o0, 0, p, side));
        if q.len() > 1 {
            assert(order_at(q, o0, 1, p, side));
        }
    }
    let head = lv.order_head;
    let mut order = *orders.get(head);
    let available = order.leaves_qty();
    let fill_qty = if available < remaining {
        available
    } else {
        remaining
    };
    order.filled_qty = order.filled_qty + fill_qty;
    orders.set(head, order);
    let next_order = order.next;
    let prev_order = order.prev;
    let maker_order_id = order.order_id;
    let maker_leaves = order.leaves_qty();
    let ghost o_filled = orders@;
    let ghost lvl = queue_orders(q, o0);
    proof {
        assert(lvl[0] == resting(o0[head]));
        assert(side_model(q0, o0)[p] == lvl);
        assert forall|pp: i64, i: int|
            q0.contains_key(pp) && pp != p && 0 <= i < q0[pp].len() implies #[trigger] q0[pp][i]
            != head && (q.len() > 1 ==> q0[pp][i] != q[1]) by {
            assert(w[q0[pp][i]] == (is_bid, pp));
        }
    }
    if maker_leaves == 0 {
        let mut new_head = lv.order_head;
        let mut new_tail = lv.order_tail;
        if prev_order != NO_ORDER {
            let mut pv = *orders.get(prev_order);
            pv.next = next_order;
            orders.set(prev_order, pv);
        } else {
            new_head = next_order;
        }
        if next_order != NO_ORDER {
            let mut nx = *orders.get(next_order);
            nx.prev = prev_order;
            orders.set(next_order, nx);
        } else {
            new_tail = prev_order;
        }
        tree.set_level(node, new_head, new_tail, lv.total_qty - fill_qty);
        orders.dealloc(head);
        *queues = Ghost(q0.insert(p, q.drop_first()));
        proof {
            let o1 = orders@;
            let q1 = queues@;
            let nq = q.drop_first();
            tree.lemma_levels();
            orders.lemma_wf();
            assert(o1.dom() =~= o0.dom().remove(head));
            assert(o0.dom().contains(head));
            assert forall|i: int| 0 <= i < nq.len() implies nq[i] != head && o1.contains_key(nq[i]) by {
                assert(order_at(q, o0, i + 1, p, side));
            }
            assert(queue_orders(nq, o1) =~= lvl.drop_first()) by {
                assert forall|i: int| 0 <= i < nq.len() implies resting(o1[nq[i]]) == resting(o0[q[i + 1]]) by {
                    assert(order_at(q, o0, i + 1, p, side));
                }
            }
            assert(sum_leaves(lvl) == spec_leaves(lvl[0]) + sum_leaves(lvl.drop_first()));
            assert forall|i: int| 0 <= i < nq.len() implies #[trigger] order_at(nq, o1, i, p, side) by {
                assert(order_at(q, o0, i + 1, p, side));
                if i + 2 < q.len() {
                    assert(order_at(q, o0, i + 2, p, side));
                }
            }
            assert(level_links(tree@[node], nq, o1, side));
            assert forall|l: u32| #[trigger] tree@.contains_key(l) implies q1.contains_key(tree@[l].0)
                && level_links(tree@[l], q1[tree@[l].0], o1, side) && (l != node ==> q1[tree@[l].0].len() > 0) by {
                if l != node {
                    let pp = tree@[l].0;
                    assert(old(tree)@.contains_key(l));
                    assert(pp != p);
                    assert(level_links(old(tree)@[l], q0[pp], o0, side));
                    assert(queue_orders(q0[pp], o1) =~= queue_orders(q0[pp], o0)) by {
                        assert forall|i: int| 0 <= i < q0[pp].len() implies resting(o1[q0[pp][i]]) == resting(o0[q0[pp][i]]) by {
                            assert(order_at(q0[pp], o0, i, pp, side));
                        }
                    }
                    assert forall|i: int| 0 <= i < q0[pp].len() implies #[trigger] order_at(q0[pp], o1, i, pp, side) by {
                        assert(order_at(q0[pp], o0, i, pp, side));
                    }
                }
            }
            assert forall|pp: i64| #[trigger] q1.contains_key(pp) implies tree.has_key(pp) by {
                assert(old(tree).has_key(pp));
                let l = choose|l: u32| old(tree)@.contains_key(l) && (#[trigger] old(tree)@[l]).0 == pp;
                assert(tree@.contains_key(l));
            }
            assert forall|pp: i64, i: int|
                q1.contains_key(pp) && 0 <= i < q1[pp].len() implies w.contains_key(#[trigger] q1[pp][i])
                && w[q1[pp][i]] == (is_bid, pp) by {
                if pp == p {
                    assert(q1[pp][i] == q0[p][i + 1]);
                }
            }
            assert forall|k: u32|
                #[trigger] o0.contains_key(k) && w.contains_key(k) && w[k].0 != is_bid implies o1.contains_key(k)
                && o1[k] == o0[k] && w.contains_key(k) && w[k] == w[k] by {}
            assert forall|pp: i64| #[trigger] q0.contains_key(pp) && pp != p implies queue_orders(q0[pp], o1)
                == queue_orders(q0[pp], o0) by {
                assert(queue_orders(q0[pp], o1) =~= queue_orders(q0[pp], o0));
            }
            assert(side_model(q1, o1) =~= side_model(q0, o0).insert(p, lvl.drop_first()));
        }
    } else {
        tree.set_level(node, lv.order_head, lv.order_tail, lv.total_qty - fill_qty);
        proof {
            let o1 = orders@;
            tree.lemma_levels();
            orders.lemma_wf();
            let o2 = Order { filled_qty: (lvl[0].filled_qty + fill_qty) as u64, ..lvl[0] };
            assert(o1.dom() =~= o0.dom());
            assert(queue_orders(q, o1) =~= lvl.update(0, o2));
            assert(lvl.update(0, o2).drop_first() =~= lvl.drop_first());
            assert(sum_leaves(lvl) == spec_leaves(lvl[0]) + sum_leaves(lvl.drop_first()));
            assert(sum_leaves(lvl.update(0, o2)) == spec_leaves(o2) + sum_leaves(lvl.drop_first()));
            assert forall|i: int| 0 <= i < q.len() implies #[trigger] order_at(q, o1, i, p, side) by {
                assert(order_at(q, o0, i, p, side));
            }
            assert forall|l: u32| #[trigger] tree@.contains_key(l) implies queues@.contains_key(tree@[l].0)
                && level_links(tree@[l], queues@[tree@[l].0], o1, side) && (l != node ==> queues@[tree@[l].0].len() > 0) by {
                if l != node {
                    let pp = tree@[l].0;
                    assert(old(tree)@.contains_key(l));
                    assert(pp != p);
                    assert(level_links(old(tree)@[l], q0[pp], o0, side));
                    assert(queue_orders(q0[pp], o1) =~= queue_orders(q0[pp], o0)) by {
                        assert forall|i: int| 0 <= i < q0[pp].len() implies resting(o1[q0[pp][i]]) == resting(o0[q0[pp][i]]) by {
                            assert(order_at(q0[pp], o0, i, pp, side));
                        }
                    }
                    assert forall|i: int| 0 <= i < q0[pp].len() implies #[trigger] order_at(q0[pp], o1, i, pp, side) by {
                        assert(order_at(q0[pp], o0, i, pp, side));
                    }
                }
            }
            assert forall|pp: i64| #[trigger] q0.contains_key(pp) implies tree.has_key(pp) by {
                assert(old(tree).has_key(pp));
                let l = choose|l: u32| old(tree)@.contains_key(l) && (#[trigger] old(tree)@[l]).0 == pp;
                assert(tree@.contains_key(l));
            }
            assert forall|pp: i64| #[trigger] q0.contains_key(pp) && pp != p implies queue_orders(q0[pp], o1)
                == queue_orders(q0[pp], o0) by {
                assert(queue_orders(q0[pp], o1) =~= queue_orders(q0[pp], o0));
            }
            assert(side_model(q0, o1) =~= side_model(q0, o0).insert(p, lvl.update(0, o2)));
        }
    }
    (fill_qty, next_order, maker_order_id, maker_leaves)
}

/// The fill that a taker receives for the execution `e`.
pub open spec fn fill_matches(
    f: Fill,
    e: (u64, i64, nat, nat, nat),
    taker: Side,
    clord_id: Seq<u8>,
    symbol: Seq<u8>,
    qty: u64,
    exec_id: int,
) -> bool {
    &&& f.maker_order_id == e.0
    &&& f.price == e.1
    &&& f.fill_qty == e.2
    &&& f.maker_leaves == e.3
    &&& f.taker_leaves == e.4
    &&& f.side == opposite(taker)
    &&& f.taker_clord_id@ == padded(clord_id, 20)
    &&& f.taker_clord_id_len == min_nat(clord_id.len(), 20)
    &&& f.symbol@ == padded(symbol, 8)
    &&& f.symbol_len == min_nat(symbol.len(), 8)
    &&& f.taker_order_qty == qty
    &&& f.exec_id == exec_id
}

/// The book without the level at `p` where that level's queue is empty.
pub open spec fn trimmed(book: Map<i64, Seq<Order>>, p: i64) -> Map<i64, Seq<Order>> {
    if book.contains_key(p) && book[p].len() == 0 {
        book.remove(p)
    } else {
        book
    }
}

proof fn lemma_run_step(
    book: Map<i64, Seq<Order>>,
    taker: Side,
    limit: i64,
    remaining: nat,
    fuel: nat,
    p: i64,
)
    requires
        fuel > 0,
        remaining > 0,
        is_best(book, taker, p),
        crosses(taker, limit, p),
        book[p].len() > 0,
    ensures
        match_run(book, taker, limit, remaining, fuel) == ({
            let (e, book2, r2) = match_step(book, taker, remaining);
            let rest = match_run(book2, taker, limit, r2, (fuel - 1) as nat);
            (seq![e] + rest.0, rest.1, rest.2)
        }),
        best_price(book, taker) == p,
{
    lemma_best_unique(book, taker, p);
}

/// Matches a taker (side `taker`, limit `price`, quantity `qty`) against one side of the
/// book, and returns what the taker has left.
/// The number of steps of a run that leave their maker with nothing.
pub open spec fn done_count(steps: Seq<(u64, i64, nat, nat, nat)>) -> nat
    decreases steps.len(),
{
    if steps.len() == 0 {
        0
    } else {
        done_count(steps.drop_last()) + if steps.last().3 == 0 {
            1nat
        } else {
            0nat
        }
    }
}

#[verifier::rlimit(80)]
fn match_book(
    tree: &mut RbTree,
    queues: &mut Ghost<Map<i64, Seq<u32>>>,
    orders: &mut Arena<Order>,
    owner: Ghost<Map<u32, (bool, i64)>>,
    is_bid: bool,
    side: Side,
    taker: Side,
    price: i64,
    qty: u64,
    clord_id: Ghost<Seq<u8>>,
    symbol: Ghost<Seq<u8>>,
    clord: [u8; 20],
    clord_len: u8,
    sym: [u8; 8],
    sym_len: u8,
    next_exec_id: &mut u64,
    fills: &mut Vec<Fill>,
) -> (remaining: u64)
    requires
        old(orders).wf(),
        side_ok(*old(tree), old(queues)@, old(orders)@, owner@, is_bid, side),
        side == opposite(taker),
        is_bid == (taker == Side::Sell),
        old(fills)@.len() == 0,
        clord@ == padded(clord_id@, 20),
        clord_len == min_nat(clord_id@.len(), 20),
        sym@ == padded(symbol@, 8),
        sym_len == min_nat(symbol@.len(), 8),
        *old(next_exec_id) + match_run(
            side_model(old(queues)@, old(orders)@),
            taker,
            price,
            qty as nat,
            old(orders)@.dom().len() + 1,
        ).0.len() <= u64::MAX,
    ensures
        ({
            let run = match_run(
                side_model(old(queues)@, old(orders)@),
                taker,
                price,
                qty as nat,
                old(orders)@.dom().len() + 1,
            );
            &&& final(orders).wf()
            &&& side_ok(*final(tree), final(queues)@, final(orders)@, owner@, is_bid, side)
            &&& untouched_other(old(orders)@, owner@, final(orders)@, owner@, is_bid)
            &&& side_model(final(queues)@, final(orders)@) == run.1
            &&& remaining == run.2
            &&& remaining > 0 ==> !has_best(run.1, taker) || !crosses(
                taker,
                price,
                best_price(run.1, taker),
            )
            &&& final(fills)@.len() == run.0.len()
            &&& forall|i: int|
                0 <= i < run.0.len() ==> #[trigger] fill_matches(
                    final(fills)@[i],
                    run.0[i],
                    taker,
                    clord_id@,
                    symbol@,
                    qty,
                    *old(next_exec_id) + i,
                )
            &&& *final(next_exec_id) == *old(next_exec_id) + run.0.len()
            &&& final(orders).spec_capacity() == old(orders).spec_capacity()
            &&& final(tree).spec_capacity() == old(tree).spec_capacity()
            &&& (!old(orders).is_full() || (exists|i: int|
                0 <= i < run.0.len() && (#[trigger] run.0[i]).3 == 0)) ==> !final(orders).is_full()
            &&& final(orders)@.dom().len() + done_count(run.0) == old(orders)@.dom().len()
        }),
{
    let ghost e0 = *next_exec_id;
    let ghost a0 = side_model(queues@, orders@);
    let ghost fuel0: nat = orders@.dom().len() + 1;
    let ghost run = match_run(a0, taker, price, qty as nat, fuel0);
    let ghost o_start = orders@;
    let ghost was_full = orders.is_full();
    let ghost mut steps: Seq<(u64, i64, nat, nat, nat)> = Seq::empty();
    let ghost mut fuel: nat = fuel0;
    let mut remaining = qty;
    proof {
        orders.lemma_wf();
    }
    loop
        invariant_except_break
            remaining > 0 ==> fuel >= orders@.dom().len() + 1,
        invariant
            orders.wf(),
            side_ok(*tree, queues@, orders@, owner@, is_bid, side),
            side == opposite(taker),
            is_bid == (taker == Side::Sell),
            untouched_other(o_start, owner@, orders@, owner@, is_bid),
            orders@.dom().subset_of(o_start.dom()),
            orders@.dom().finite(),
            run == match_run(a0, taker, price, qty as nat, fuel0),
            ({
                let cur = match_run(side_model(queues@, orders@), taker, price, remaining as nat, fuel);
                run == (steps + cur.0, cur.1, cur.2)
            }),
            fills@.len() == steps.len(),
            forall|i: int|
                0 <= i < steps.len() ==> #[trigger] fill_matches(
                    fills@[i],
                    steps[i],
                    taker,
                    clord_id@,
                    symbol@,
                    qty,
                    e0 + i,
                ),
            *next_exec_id == e0 + steps.len(),
            e0 + run.0.len() <= u64::MAX,
            clord@ == padded(clord_id@, 20),
            clord_len == min_nat(clord_id@.len(), 20),
            sym@ == padded(symbol@, 8),
            sym_len == min_nat(symbol@.len(), 8),
            orders.spec_capacity() == old(orders).spec_capacity(),
            tree.spec_capacity() == old(tree).spec_capacity(),
            (!was_full || (exists|i: int| 0 <= i < steps.len() && (#[trigger] steps[i]).3 == 0))
                ==> orders.next_slot() != crate::lob::arena::NIL,
            orders@.dom().len() + done_count(steps) == o_start.dom().len(),
        ensures
            run == (steps, side_model(queues@, orders@), remaining as nat),
            remaining > 0 ==> !has_best(side_model(queues@, orders@), taker) || !crosses(
                taker,
                price,
                best_price(side_model(queues@, orders@), taker),
            ),
        decreases orders@.dom().len(), remaining,
    {
        if remaining == 0 {
            proof {
                assert(steps + Seq::<(u64, i64, nat, nat, nat)>::empty() =~= steps);
            }
            break;
        }
        proof {
            tree.lemma_levels();
        }
        let best = if taker == Side::Buy {
            tree.min_key()
        } else {
            tree.max_key()
        };
        let ghost a = side_model(queues@, orders@);
        match best {
            None => {
                proof {
                    if has_best(a, taker) {
                        let c = choose|c: i64| is_best(a, taker, c);
                        assert(a.contains_key(c));
                        assert(tree.has_key(c));
                    }
                    assert(steps + Seq::<(u64, i64, nat, nat, nat)>::empty() =~= steps);
                }
                break;
            },
            Some(node) => {
                let level_price = tree.arena.get(node).key;
                let ghost p = level_price;
                proof {
                    assert(tree@[node].0 == p);
                    assert(queues@.contains_key(p));
                    assert(a.contains_key(p));
                    assert forall|c: i64| #[trigger] a.contains_key(c) implies (if taker
                        == Side::Buy {
                        p <= c
                    } else {
                        c <= p
                    }) by {
                        assert(tree.has_key(c));
                        let l = choose|l: u32| tree@.contains_key(l) && (#[trigger] tree@[l]).0 == c;
                    }
                    assert(is_best(a, taker, p));
                    lemma_best_unique(a, taker, p);
                }
                if taker == Side::Buy {
                    if price < level_price {
                        proof {
                            assert(steps + Seq::<(u64, i64, nat, nat, nat)>::empty() =~= steps);
                        }
                        break;
                    }
                } else {
                    if price > level_price {
                        proof {
                            assert(steps + Seq::<(u64, i64, nat, nat, nat)>::empty() =~= steps);
                        }
                        break;
                    }
                }
                let mut head = tree.arena.get(node).order_head;
                proof {
                    orders.lemma_wf();
                    assert(level_links(tree@[node], queues@[p], orders@, side));
                    assert(queues@[p].len() > 0);
                    assert(order_at(queues@[p], orders@, 0, p, side));
                    assert(trimmed(side_model(queues@, orders@), p) == side_model(queues@, orders@));
                }
                let ghost c0 = orders@.dom().len();
                let ghost r0 = remaining;
                let ghost mut progressed = false;
                while head != NO_ORDER && remaining > 0
                    invariant
                        orders.wf(),
                        side_ok_at(*tree, queues@, orders@, owner@, is_bid, side, node),
                        tree@.contains_key(node),
                        tree@[node].0 == p,
                        level_price == p,
                        queues@.contains_key(p),
                        remaining > 0 ==> head == tree@[node].1,
                        forall|l: u32| #[trigger] tree@.contains_key(l) ==> (if taker == Side::Buy {
                            p <= tree@[l].0
                        } else {
                            tree@[l].0 <= p
                        }),
                        crosses(taker, price, p),
                        side == opposite(taker),
                        is_bid == (taker == Side::Sell),
                        untouched_other(o_start, owner@, orders@, owner@, is_bid),
                        orders@.dom().subset_of(o_start.dom()),
                        orders@.dom().finite(),
                        remaining > 0 ==> fuel >= orders@.dom().len() + 1,
                        ({
                            let cur = match_run(trimmed(side_model(queues@, orders@), p), taker, price, remaining as nat, fuel);
                            run == (steps + cur.0, cur.1, cur.2)
                        }),
                        fills@.len() == steps.len(),
                        forall|i: int|
                            0 <= i < steps.len() ==> #[trigger] fill_matches(
                                fills@[i],
                                steps[i],
                                taker,
                                clord_id@,
                                symbol@,
                                qty,
                                e0 + i,
                            ),
                        *next_exec_id == e0 + steps.len(),
                        e0 + run.0.len() <= u64::MAX,
                        clord@ == padded(clord_id@, 20),
                        clord_len == min_nat(clord_id@.len(), 20),
                        sym@ == padded(symbol@, 8),
                        sym_len == min_nat(symbol@.len(), 8),
                        orders.spec_capacity() == old(orders).spec_capacity(),
                        tree.spec_capacity() == old(tree).spec_capacity(),
                        (!was_full || (exists|i: int| 0 <= i < steps.len() && (#[trigger] steps[i]).3 == 0))
                            ==> orders.next_slot() != crate::lob::arena::NIL,
                        !progressed ==> head != NO_ORDER && remaining == r0 && orders@.dom().len() == c0,
                        progressed ==> orders@.dom().len() < c0 || remaining < r0,
                        orders@.dom().len() <= c0,
                        orders@.dom().len() + done_count(steps) == o_start.dom().len(),
                    decreases orders@.dom().len(), remaining,
                {
                    let ghost q = queues@;
                    let ghost o = orders@;
                    let ghost am = side_model(q, o);
                    proof {
                        tree.lemma_levels();
                        assert(level_links(tree@[node], q[p], o, side));
                        assert(q[p].len() > 0);
                        assert(trimmed(am, p) == am);
                        assert forall|c: i64| #[trigger] am.contains_key(c) implies (if taker
                            == Side::Buy {
                            p <= c
                        } else {
                            c <= p
                        }) by {
                            assert(tree.has_key(c));
                            let l = choose|l: u32| tree@.contains_key(l) && (#[trigger] tree@[l]).0 == c;
                        }
                        lemma_run_step(am, taker, price, remaining as nat, fuel, p);
                        assert(fuel > 0);
                    }
                    let (fill_qty, next_order, maker_order_id, maker_leaves) = fill_head(
                        tree,
                        queues,
                        orders,
                        owner,
                        is_bid,
                        side,
                        node,
                        remaining,
                    );
                    let ghost st = match_step(am, taker, remaining as nat);
                    remaining = remaining - fill_qty;
                    proof {
                        tree.lemma_levels();
                        orders.lemma_wf();
                        let nq = queues@;
                        let no = orders@;
                        assert(st.0.4 == remaining);
                        assert(st.2 == remaining);
                        if maker_leaves == 0 {
                            if am[p].len() == 1 {
                                assert(nq[p].len() == 0);
                                assert(trimmed(side_model(nq, no), p) =~= st.1);
                            } else {
                                assert(nq[p].len() > 0);
                                assert(trimmed(side_model(nq, no), p) =~= st.1);
                            }
                        } else {
                            assert(trimmed(side_model(nq, no), p) =~= st.1);
                        }
                        assert(steps.push(st.0) + match_run(st.1, taker, price, remaining as nat, (fuel - 1) as nat).0
                            =~= steps + (seq![st.0] + match_run(st.1, taker, price, remaining as nat, (fuel - 1) as nat).0));
                    }
                    let fill = Fill {
                        maker_order_id,
                        taker_clord_id: clord,
                        taker_clord_id_len: clord_len,
                        symbol: sym,
                        symbol_len: sym_len,
                        side,
                        price: level_price,
                        fill_qty,
                        maker_leaves,
                        taker_leaves: remaining,
                        taker_order_qty: qty,
                        exec_id: *next_exec_id,
                    };
                    proof {
                        assert(steps.len() + 1 <= run.0.len());
                        assert(best_price(am, taker) == p);
                        assert(fill.maker_order_id == st.0.0);
                        assert(fill.price == st.0.1);
                        assert(fill.fill_qty == st.0.2);
                        assert(fill.maker_leaves == st.0.3);
                        assert(fill.taker_leaves == st.0.4);
                        assert(fill.side == opposite(taker));
                        assert(fill.exec_id == e0 + steps.len());
                        assert(fill_matches(fill, st.0, taker, clord_id@, symbol@, qty, e0 + steps.len()));
                    }
                    let ghost f0 = fills@;
                    let ghost s0 = steps;
                    *next_exec_id = *next_exec_id + 1;
                    fills.push(fill);
                    head = next_order;
                    proof {
                        steps = steps.push(st.0);
                        fuel = (fuel - 1) as nat;
                        progressed = true;
                        assert(steps.drop_last() =~= s0);
                        assert(steps.last() == st.0);
                        assert forall|i: int| 0 <= i < steps.len() implies #[trigger] fill_matches(
                            fills@[i],
                            steps[i],
                            taker,
                            clord_id@,
                            symbol@,
                            qty,
                            e0 + i,
                        ) by {
                            if i < s0.len() {
                                assert(fills@[i] == f0[i]);
                                assert(steps[i] == s0[i]);
                            }
                        }
                    }
                }
                proof {
                    tree.lemma_levels();
                    orders.lemma_wf();
                    assert(level_links(tree@[node], queues@[p], orders@, side));
                    if queues@[p].len() > 0 {
                        assert(order_at(queues@[p], orders@, 0, p, side));
                    }
                }
                if tree.arena.get(node).order_head == NO_ORDER {
                    let ghost q = queues@;
                    let ghost t0 = *tree;
                    tree.delete(node);
                    *queues = Ghost(q.remove(p));
                    proof {
                        tree.lemma_levels();
                        assert(q[p].len() == 0);
                        assert(side_model(queues@, orders@) =~= trimmed(side_model(q, orders@), p));
                        assert forall|l: u32| #[trigger] tree@.contains_key(l) implies queues@.contains_key(tree@[l].0)
                            && level_links(tree@[l], queues@[tree@[l].0], orders@, side) && queues@[tree@[l].0].len() > 0 by {
                            assert(t0@.contains_key(l));
                            assert(tree@[l] == t0@[l]);
                        }
                        assert forall|c: i64| #[trigger] queues@.contains_key(c) implies tree.has_key(c) by {
                            assert(t0.has_key(c));
                            let l = choose|l: u32| t0@.contains_key(l) && (#[trigger] t0@[l]).0 == c;
                            assert(l != node);
                            assert(tree@.contains_key(l));
                        }
                    }
                } else {
                    proof {
                        assert(queues@[p].len() > 0);
                        assert(trimmed(side_model(queues@, orders@), p) == side_model(queues@, orders@));
                    }
                }
            },
        }
    }
    proof {
        orders.lemma_wf();
    }
    remaining
}


impl LimitOrderBook {
    /// The side of the book that a taker on side `taker` trades against.
    pub open spec fn book_for(&self, taker: Side) -> Map<i64, Seq<Order>> {
        if taker == Side::Buy {
            self.asks_model()
        } else {
            self.bids_model()
        }
    }

    /// The side of the book on which an order of side `side` rests.
    pub open spec fn own_book(&self, side: Side) -> Map<i64, Seq<Order>> {
        if side == Side::Buy {
            self.bids_model()
        } else {
            self.asks_model()
        }
    }

    /// The matching of a taker against this book: the executions, the other side after
    /// them and what the taker has left. The fuel, one more than the number of live
    /// orders, is never the limit: each execution but the last removes an order.
    pub open spec fn taker_run(&self, taker: Side, price: i64, qty: u64) -> (
        Seq<(u64, i64, nat, nat, nat)>,
        Map<i64, Seq<Order>>,
        nat,
    ) {
        match_run(self.book_for(taker), taker, price, qty as nat, self.order_arena@.dom().len() + 1)
    }

    /// `o` is the order that rests after a submission that left `remaining` open: it takes
    /// the next order id and sequence number, and its ids truncated and zero-padded.
    pub open spec fn entered_as(
        &self,
        o: Order,
        clord_id: Seq<u8>,
        symbol: Seq<u8>,
        side: Side,
        price: i64,
        qty: u64,
        remaining: nat,
    ) -> bool {
        &&& o.order_id == self.next_order_id
        &&& o.clord_id@ == padded(clord_id, 20)
        &&& o.clord_id_len == min_nat(clord_id.len(), 20)
        &&& o.symbol@ == padded(symbol, 8)
        &&& o.symbol_len == min_nat(symbol.len(), 8)
        &&& o.side == side
        &&& o.price == price
        &&& o.order_qty == qty
        &&& o.filled_qty == qty - remaining
        &&& o.timestamp == self.seq + 1
        &&& o.next == NO_ORDER
        &&& o.prev == NO_ORDER
    }

    /// A submission stays within the book's capacities and counters: the order and exec
    /// ids and the sequence do not overflow, and an order that rests finds a free order
    /// slot, a level (or a free level slot) and room in its level's total.
    pub open spec fn submit_fits(&self, side: Side, price: i64, qty: u64) -> bool {
        let run = self.taker_run(side, price, qty);
        let own_q = if side == Side::Buy {
            self.bid_queues@
        } else {
            self.ask_queues@
        };
        let own_tree = if side == Side::Buy {
            self.bids
        } else {
            self.asks
        };
        &&& self.next_order_id < u64::MAX
        &&& self.seq < u64::MAX
        &&& self.next_exec_id + run.0.len() <= u64::MAX
        &&& run.2 > 0 ==> {
            &&& (!self.order_arena.is_full() || exists|i: int|
                0 <= i < run.0.len() && (#[trigger] run.0[i]).3 == 0)
            &&& (!own_q.contains_key(price) ==> !own_tree.is_full())
            &&& sum_leaves(queue_at(self.own_book(side), price)) + run.2 <= u64::MAX
        }
    }

    /// What a submission did: `b0` is the book before it, `b1` after it, `fills` what it
    /// returned. The taker matched `b0`'s other side by price-time priority, one fill
    /// per execution with consecutive exec ids, and what it had left rests at the end of
    /// its price's queue on its own side.
    pub open spec fn submitted(
        b0: LimitOrderBook,
        b1: LimitOrderBook,
        fills: Seq<Fill>,
        clord_id: Seq<u8>,
        symbol: Seq<u8>,
        side: Side,
        price: i64,
        qty: u64,
    ) -> bool {
        let run = b0.taker_run(side, price, qty);
        &&& b1.wf()
        &&& fills.len() == run.0.len()
        &&& forall|i: int|
            0 <= i < run.0.len() ==> #[trigger] fill_matches(
                fills[i],
                run.0[i],
                side,
                clord_id,
                symbol,
                qty,
                b0.next_exec_id + i,
            )
        &&& b1.book_for(side) == run.1
        &&& run.2 > 0 ==> !has_best(run.1, side) || !crosses(side, price, best_price(run.1, side))
        &&& run.2 == 0 ==> b1.own_book(side) == b0.own_book(side)
        &&& run.2 > 0 ==> exists|o: Order|
            #[trigger] b0.entered_as(o, clord_id, symbol, side, price, qty, run.2)
                && b1.own_book(side) == b0.own_book(side).insert(
                price,
                queue_at(b0.own_book(side), price).push(o),
            )
        &&& b1.next_order_id == b0.next_order_id + 1
        &&& b1.seq == b0.seq + 1
        &&& b1.next_exec_id == b0.next_exec_id + run.0.len()
        &&& b1.order_arena.spec_capacity() == b0.order_arena.spec_capacity()
        &&& b1.bids.spec_capacity() == b0.bids.spec_capacity()
        &&& b1.asks.spec_capacity() == b0.asks.spec_capacity()
        &&& b1.order_arena@.dom().len() + done_count(run.0) == b0.order_arena@.dom().len() + (if run.2
            > 0 {
            1nat
        } else {
            0nat
        })
    }

    /// Matches the order against the other side by price-time priority, then rests what
    /// is left of it on its own side; returns one fill per execution, in order.
    pub fn submit_order(
        &mut self,
        clord_id: &[u8],
        symbol: &[u8],
        side: Side,
        price: i64,
        qty: u64,
    ) -> (fills: Vec<Fill>)
        requires
            old(self).wf(),
            old(self).submit_fits(side, price, qty),
        ensures
            Self::submitted(*old(self), *final(self), fills@, clord_id@, symbol@, side, price, qty),
    {
        let ghost b0 = *self;
        let order_id = self.next_order_id;
        self.next_order_id = self.next_order_id + 1;
        self.seq = self.seq + 1;
        let timestamp = self.seq;
        let (clord, clord_len) = copy_id20(clord_id);
        let (sym, sym_len) = copy_id8(symbol);
        let mut fills: Vec<Fill> = Vec::new();
        match side {
            Side::Buy => {
                let remaining = match_book(
                    &mut self.asks,
                    &mut self.ask_queues,
                    &mut self.order_arena,
                    self.owner,
                    false,
                    Side::Sell,
                    Side::Buy,
                    price,
                    qty,
                    Ghost(clord_id@),
                    Ghost(symbol@),
                    clord,
                    clord_len,
                    sym,
                    sym_len,
                    &mut self.next_exec_id,
                    &mut fills,
                );
                proof {
                    lemma_side_frame(
                        self.bids,
                        self.bid_queues@,
                        b0.order_arena@,
                        b0.owner@,
                        self.order_arena@,
                        self.owner@,
                        true,
                        Side::Buy,
                        crate::lob::rbtree::NIL,
                    );
                }
                proof {
                    lemma_run_bounds(b0.book_for(side), side, price, qty as nat, b0.order_arena@.dom().len() + 1);
                }
                if remaining > 0 {
                    let order = Order {
                        order_id,
                        clord_id: clord,
                        clord_id_len: clord_len,
                        symbol: sym,
                        symbol_len: sym_len,
                        side,
                        price,
                        order_qty: qty,
                        filled_qty: qty - remaining,
                        timestamp,
                        next: NO_ORDER,
                        prev: NO_ORDER,
                    };
                    let ghost o1 = self.order_arena@;
                    let ghost w1 = self.owner@;
                    proof {
                        self.order_arena.lemma_wf();
                        assert(b0.entered_as(order, clord_id@, symbol@, side, price, qty, remaining as nat));
                        assert(resting(order) == order);
                    }
                    rest_order(
                        &mut self.bids,
                        &mut self.bid_queues,
                        &mut self.order_arena,
                        &mut self.owner,
                        true,
                        order,
                    );
                    proof {
                        lemma_side_frame(
                            self.asks,
                            self.ask_queues@,
                            o1,
                            w1,
                            self.order_arena@,
                            self.owner@,
                            false,
                            Side::Sell,
                            crate::lob::rbtree::NIL,
                        );
                    }
                }
            },
            Side::Sell => {
                let remaining = match_book(
                    &mut self.bids,
                    &mut self.bid_queues,
                    &mut self.order_arena,
                    self.owner,
                    true,
                    Side::Buy,
                    Side::Sell,
                    price,
                    qty,
                    Ghost(clord_id@),
                    Ghost(symbol@),
                    clord,
                    clord_len,
                    sym,
                    sym_len,
                    &mut self.next_exec_id,
                    &mut fills,
                );
                proof {
                    lemma_side_frame(
                        self.asks,
                        self.ask_queues@,
                        b0.order_arena@,
                        b0.owner@,
                        self.order_arena@,
                        self.owner@,
                        false,
                        Side::Sell,
                        crate::lob::rbtree::NIL,
                    );
                }
                proof {
                    lemma_run_bounds(b0.book_for(side), side, price, qty as nat, b0.order_arena@.dom().len() + 1);
                }
                if remaining > 0 {
                    let order = Order {
                        order_id,
                        clord_id: clord,
                        clord_id_len: clord_len,
                        symbol: sym,
                        symbol_len: sym_len,
                        side,
                        price,
                        order_qty: qty,
                        filled_qty: qty - remaining,
                        timestamp,
                        next: NO_ORDER,
                        prev: NO_ORDER,
                    };
                    let ghost o1 = self.order_arena@;
                    let ghost w1 = self.owner@;
                    proof {
                        self.order_arena.lemma_wf();
                        assert(b0.entered_as(order, clord_id@, symbol@, side, price, qty, remaining as nat));
                        assert(resting(order) == order);
                    }
                    rest_order(
                        &mut self.asks,
                        &mut self.ask_queues,
                        &mut self.order_arena,
                        &mut self.owner,
                        false,
                        order,
                    );
                    proof {
                        lemma_side_frame(
                            self.bids,
                            self.bid_queues@,
                            o1,
                            w1,
                            self.order_arena@,
                            self.owner@,
                            true,
                            Side::Buy,
                            crate::lob::rbtree::NIL,
                        );
                    }
                }
            },
        }
        fills
    }
}


impl LimitOrderBook {
    /// The highest bid, if any.
    pub open spec fn bid_top(&self) -> Option<i64> {
        if has_best(self.bids_model(), Side::Sell) {
            Some(best_price(self.bids_model(), Side::Sell))
        } else {
            None
        }
    }

    /// The lowest ask, if any.
    pub open spec fn ask_top(&self) -> Option<i64> {
        if has_best(self.asks_model(), Side::Buy) {
            Some(best_price(self.asks_model(), Side::Buy))
        } else {
            None
        }
    }

    /// The distance from the best bid to the best ask in whole ticks, truncated to 32
    /// bits; zero for a crossed or locked book; `None` when a side is empty.
    pub open spec fn spread_of(bid: Option<i64>, ask: Option<i64>) -> Option<u32> {
        match (bid, ask) {
            (Some(b), Some(a)) => if a > b {
                Some(((a - b) / (TICK_SIZE as int)) as u32)
            } else {
                Some(0)
            },
            _ => None,
        }
    }

    /// The spread of the book can be taken in 64-bit signed arithmetic.
    pub open spec fn spread_fits(&self) -> bool {
        match (self.bid_top(), self.ask_top()) {
            (Some(b), Some(a)) => a - b <= i64::MAX,
            _ => true,
        }
    }

    pub fn best_bid(&self) -> (r: Option<i64>)
        requires
            self.wf(),
        ensures
            r == self.bid_top(),
            r is None <==> self.bids_model().dom() == Set::<i64>::empty(),
    {
        proof {
            self.bids.lemma_levels();
        }
        let top = self.bids.max_key();
        match top {
            Some(idx) => {
                let p = self.bids.arena.get(idx).key;
                proof {
                    let m = self.bids_model();
                    assert(self.bids@[idx].0 == p);
                    assert(m.contains_key(p));
                    assert forall|q: i64| #[trigger] m.contains_key(q) implies q <= p by {
                        assert(self.bids.has_key(q));
                        let l = choose|l: u32| self.bids@.contains_key(l) && (#[trigger] self.bids@[l]).0 == q;
                    }
                    assert(is_best(m, Side::Sell, p));
                    lemma_best_unique(m, Side::Sell, p);
                    assert(m.dom().contains(p));
                }
                Some(p)
            },
            None => {
                proof {
                    let m = self.bids_model();
                    assert forall|q: i64| !(#[trigger] m.dom().contains(q)) by {
                        if m.contains_key(q) {
                            assert(self.bids.has_key(q));
                            let l = choose|l: u32| self.bids@.contains_key(l) && (#[trigger] self.bids@[l]).0 == q;
                        }
                    }
                    assert(m.dom() =~= Set::<i64>::empty());
                    if has_best(m, Side::Sell) {
                        let c = choose|c: i64| is_best(m, Side::Sell, c);
                        assert(m.dom().contains(c));
                    }
                }
                None
            },
        }
    }

    pub fn best_ask(&self) -> (r: Option<i64>)
        requires
            self.wf(),
        ensures
            r == self.ask_top(),
            r is None <==> self.asks_model().dom() == Set::<i64>::empty(),
    {
        proof {
            self.asks.lemma_levels();
        }
        let top = self.asks.min_key();
        match top {
            Some(idx) => {
                let p = self.asks.arena.get(idx).key;
                proof {
                    let m = self.asks_model();
                    assert(self.asks@[idx].0 == p);
                    assert(m.contains_key(p));
                    assert forall|q: i64| #[trigger] m.contains_key(q) implies p <= q by {
                        assert(self.asks.has_key(q));
                        let l = choose|l: u32| self.asks@.contains_key(l) && (#[trigger] self.asks@[l]).0 == q;
                    }
                    assert(is_best(m, Side::Buy, p));
                    lemma_best_unique(m, Side::Buy, p);
                    assert(m.dom().contains(p));
                }
                Some(p)
            },
            None => {
                proof {
                    let m = self.asks_model();
                    assert forall|q: i64| !(#[trigger] m.dom().contains(q)) by {
                        if m.contains_key(q) {
                            assert(self.asks.has_key(q));
                            let l = choose|l: u32| self.asks@.contains_key(l) && (#[trigger] self.asks@[l]).0 == q;
                        }
                    }
                    assert(m.dom() =~= Set::<i64>::empty());
                    if has_best(m, Side::Buy) {
                        let c = choose|c: i64| is_best(m, Side::Buy, c);
                        assert(m.dom().contains(c));
                    }
                }
                None
            },
        }
    }

    pub fn top_of_book(&self) -> (r: (Option<i64>, Option<i64>))
        requires
            self.wf(),
        ensures
            r == (self.bid_top(), self.ask_top()),
    {
        (self.best_bid(), self.best_ask())
    }

    pub fn spread_ticks(&self) -> (r: Option<u32>)
        requires
            self.wf(),
            self.spread_fits(),
        ensures
            r == Self::spread_of(self.bid_top(), self.ask_top()),
            r is None <==> (self.bid_top() is None || self.ask_top() is None),
            self.bid_top() is Some && self.ask_top() is Some && self.ask_top().unwrap()
                <= self.bid_top().unwrap() ==> r == Some(0u32),
            self.bid_top() is Some && self.ask_top() is Some && self.ask_top().unwrap()
                > self.bid_top().unwrap() && self.ask_top().unwrap() - self.bid_top().unwrap() < (
            u32::MAX + 1) * TICK_SIZE ==> (r matches Some(t) && t * TICK_SIZE <= self.ask_top().unwrap()
                - self.bid_top().unwrap() < (t + 1) * TICK_SIZE),
    {
        proof {
            Self::lemma_spread_of(self.bid_top(), self.ask_top());
        }
        match (self.best_bid(), self.best_ask()) {
            (Some(bid), Some(ask)) => {
                if ask > bid {
                    let diff = (ask - bid) as u64;
                    Some((diff / (TICK_SIZE as u64)) as u32)
                } else {
                    Some(0)
                }
            },
            _ => None,
        }
    }

    /// A spread exists exactly when both sides have a best price; it is zero where the
    /// book is crossed or locked, and otherwise the whole number of ticks between the
    /// best prices (where that number fits in 32 bits).
    pub proof fn lemma_spread_of(bid: Option<i64>, ask: Option<i64>)
        ensures
            Self::spread_of(bid, ask) is None <==> (bid is None || ask is None),
            bid is Some && ask is Some && ask.unwrap() <= bid.unwrap() ==> Self::spread_of(bid, ask)
                == Some(0u32),
            bid is Some && ask is Some && ask.unwrap() > bid.unwrap() && ask.unwrap() - bid.unwrap()
                < (u32::MAX + 1) * TICK_SIZE ==> (Self::spread_of(bid, ask) matches Some(t) && t
                * TICK_SIZE <= ask.unwrap() - bid.unwrap() < (t + 1) * TICK_SIZE),
    {
        if bid is Some && ask is Some && ask.unwrap() > bid.unwrap() {
            let d: int = ask.unwrap() - bid.unwrap();
            vstd::arithmetic::div_mod::lemma_fundamental_div_mod(d, TICK_SIZE as int);
            vstd::arithmetic::div_mod::lemma_mod_bound(d, TICK_SIZE as int);
            if d < (u32::MAX + 1) * TICK_SIZE {
                assert(d / (TICK_SIZE as int) <= u32::MAX) by {
                    vstd::arithmetic::div_mod::lemma_div_is_ordered(
                        d,
                        (u32::MAX + 1) * TICK_SIZE - 1,
                        TICK_SIZE as int,
                    );
                    assert(((u32::MAX + 1) * TICK_SIZE - 1) / (TICK_SIZE as int) == u32::MAX);
                }
                assert(d / (TICK_SIZE as int) >= 0);
            }
        }
    }

    /// The spread is wider than `MAX_SPREAD_TICKS`.
    pub fn is_spread_too_wide(&self) -> (r: bool)
        requires
            self.wf(),
            self.spread_fits(),
        ensures
            r == (Self::spread_of(self.bid_top(), self.ask_top()) matches Some(s) && s
                > MAX_SPREAD_TICKS),
    {
        match self.spread_ticks() {
            Some(s) => s > MAX_SPREAD_TICKS,
            None => false,
        }
    }

    /// The total open quantity resting at `price` on the side where orders of side
    /// `side` rest; zero where there is no such level.
    pub fn level_total(&self, side: Side, price: i64) -> (r: u64)
        requires
            self.wf(),
        ensures
            r == sum_leaves(queue_at(self.own_book(side), price)),
    {
        let tree = match side {
            Side::Buy => &self.bids,
            Side::Sell => &self.asks,
        };
        let ghost q = if side == Side::Buy {
            self.bid_queues@
        } else {
            self.ask_queues@
        };
        let ghost sd = if side == Side::Buy {
            Side::Buy
        } else {
            Side::Sell
        };
        proof {
            tree.lemma_levels();
            assert(sd == side);
            assert(side_ok(*tree, q, self.order_arena@, self.owner@, side == Side::Buy, side));
            assert(self.own_book(side) == side_model(q, self.order_arena@));
        }
        match tree.find(price) {
            Some(idx) => {
                proof {
                    assert(level_links(tree@[idx], q[price], self.order_arena@, side));
                }
                tree.arena.get(idx).total_qty
            },
            None => {
                proof {
                    assert(!q.contains_key(price));
                    assert(queue_at(self.own_book(side), price) =~= Seq::<Order>::empty());
                }
                0
            },
        }
    }

    /// Bounds that do not depend on how an order would match: the counters have room for
    /// an execution per resting order, an order slot is free, and the order's level exists
    /// (or a level slot is free) with room for the whole quantity.
    pub open spec fn accept_bound(
        &self,
        order_id: u64,
        exec_id: u64,
        side: Side,
        price: i64,
        qty: u64,
    ) -> bool {
        let own_q = if side == Side::Buy {
            self.bid_queues@
        } else {
            self.ask_queues@
        };
        let own_tree = if side == Side::Buy {
            self.bids
        } else {
            self.asks
        };
        &&& order_id < u64::MAX
        &&& self.seq < u64::MAX
        &&& exec_id + self.order_arena@.dom().len() < u64::MAX
        &&& !self.order_arena.is_full()
        &&& sum_leaves(queue_at(self.own_book(side), price)) + qty <= u64::MAX
        &&& !own_q.contains_key(price) ==> !own_tree.is_full()
    }

    /// Whether `accept_bound` holds; where it does, the submission fits.
    fn within_bound(&self, order_id: u64, exec_id: u64, side: Side, price: i64, qty: u64) -> (r:
        bool)
        requires
            self.wf(),
        ensures
            r == self.accept_bound(order_id, exec_id, side, price, qty),
            r ==> (LimitOrderBook {
                next_order_id: order_id,
                next_exec_id: exec_id,
                ..*self
            }).submit_fits(side, price, qty),
    {
        if order_id == u64::MAX || self.seq == u64::MAX {
            return false;
        }
        let live = self.order_arena.len();
        if exec_id > u64::MAX - 1 - (live as u64) {
            return false;
        }
        if !self.order_arena.has_free_slot() {
            return false;
        }
        let total = self.level_total(side, price);
        if total > u64::MAX - qty {
            return false;
        }
        let tree = match side {
            Side::Buy => &self.bids,
            Side::Sell => &self.asks,
        };
        let ghost q = if side == Side::Buy {
            self.bid_queues@
        } else {
            self.ask_queues@
        };
        proof {
            tree.lemma_levels();
        }
        match tree.find(price) {
            Some(idx) => {
                proof {
                    assert(q.contains_key(price));
                }
            },
            None => {
                if !tree.arena.has_free_slot() {
                    return false;
                }
            },
        }
        proof {
            lemma_run_bounds(
                self.book_for(side),
                side,
                price,
                qty as nat,
                self.order_arena@.dom().len() + 1,
            );
        }
        true
    }

    /// Matches a copy of the other side of the book, leaving the book itself as it is:
    /// gives the number of executions a taker would make, whether one of them would use
    /// up its maker, and what the taker would have left.
    fn dry_run(&self, taker: Side, price: i64, qty: u64) -> (r: (usize, bool, u64))
        requires
            self.wf(),
        ensures
            ({
                let run = self.taker_run(taker, price, qty);
                &&& r.0 == run.0.len()
                &&& r.1 == (exists|i: int| 0 <= i < run.0.len() && (#[trigger] run.0[i]).3 == 0)
                &&& r.2 == run.2
            }),
    {
        let is_bid = taker == Side::Sell;
        let side = if taker == Side::Buy {
            Side::Sell
        } else {
            Side::Buy
        };
        let mut tree = if taker == Side::Buy {
            self.asks.duplicate()
        } else {
            self.bids.duplicate()
        };
        let mut queues: Ghost<Map<i64, Seq<u32>>> = Ghost(
            if taker == Side::Buy {
                self.ask_queues@
            } else {
                self.bid_queues@
            },
        );
        let mut orders = self.order_arena.duplicate();
        let mut exec_id: u64 = 0;
        let mut fills: Vec<Fill> = Vec::new();
        let clord: [u8; 20] = [0u8; 20];
        let sym: [u8; 8] = [0u8; 8];
        let ghost run = self.taker_run(taker, price, qty);
        proof {
            orders.lemma_full_len();
            orders.lemma_wf();
            lemma_run_bounds(
                self.book_for(taker),
                taker,
                price,
                qty as nat,
                self.order_arena@.dom().len() + 1,
            );
            assert(clord@ =~= padded(Seq::<u8>::empty(), 20));
            assert(sym@ =~= padded(Seq::<u8>::empty(), 8));
            assert(side_model(queues@, orders@) == self.book_for(taker));
        }
        let remaining = match_book(
            &mut tree,
            &mut queues,
            &mut orders,
            Ghost(self.owner@),
            is_bid,
            side,
            taker,
            price,
            qty,
            Ghost(Seq::empty()),
            Ghost(Seq::empty()),
            clord,
            0,
            sym,
            0,
            &mut exec_id,
            &mut fills,
        );
        proof {
            assert forall|k: int| 0 <= k < run.0.len() implies (#[trigger] fills@[k]).maker_leaves
                == run.0[k].3 by {
                assert(fill_matches(fills@[k], run.0[k], taker, Seq::empty(), Seq::empty(), qty, 0 + k));
            }
        }
        let mut any_done = false;
        let mut i: usize = 0;
        while i < fills.len()
            invariant
                i <= fills@.len(),
                fills@.len() == run.0.len(),
                forall|k: int| 0 <= k < run.0.len() ==> (#[trigger] fills@[k]).maker_leaves == run.0[k].3,
                any_done == (exists|k: int| 0 <= k < i && (#[trigger] run.0[k]).3 == 0),
            decreases fills@.len() - i,
        {
            if fills[i].maker_leaves == 0 {
                any_done = true;
            }
            proof {
                assert(fills@[i as int].maker_leaves == run.0[i as int].3);
            }
            i += 1;
        }
        (fills.len(), any_done, remaining)
    }

    /// A check, made before a submission, that it fits the book once its id counters
    /// are set to `order_id` and `exec_id`: exactly `submit_fits`. Where `accept_bound`
    /// holds, the answer comes without matching; otherwise a copy of the other side is
    /// matched to count what the submission would do.
    pub fn can_accept(&self, order_id: u64, exec_id: u64, side: Side, price: i64, qty: u64) -> (r:
        bool)
        requires
            self.wf(),
        ensures
            r == (LimitOrderBook {
                next_order_id: order_id,
                next_exec_id: exec_id,
                ..*self
            }).submit_fits(side, price, qty),
    {
        let ghost b = LimitOrderBook { next_order_id: order_id, next_exec_id: exec_id, ..*self };
        if self.within_bound(order_id, exec_id, side, price, qty) {
            return true;
        }
        if order_id == u64::MAX || self.seq == u64::MAX {
            return false;
        }
        let (n, any_done, rem) = self.dry_run(side, price, qty);
        proof {
            assert(b.taker_run(side, price, qty) == self.taker_run(side, price, qty));
            self.order_arena.lemma_full_len();
            self.order_arena.lemma_wf();
            lemma_run_bounds(
                self.book_for(side),
                side,
                price,
                qty as nat,
                self.order_arena@.dom().len() + 1,
            );
        }
        if n as u64 > u64::MAX - exec_id {
            return false;
        }
        if rem > 0 {
            if !self.order_arena.has_free_slot() && !any_done {
                return false;
            }
            let tree = match side {
                Side::Buy => &self.bids,
                Side::Sell => &self.asks,
            };
            let ghost q = if side == Side::Buy {
                self.bid_queues@
            } else {
                self.ask_queues@
            };
            proof {
                tree.lemma_levels();
            }
            match tree.find(price) {
                Some(idx) => {
                    proof {
                        assert(q.contains_key(price));
                    }
                },
                None => {
                    proof {
                        if q.contains_key(price) {
                            assert(tree.has_key(price));
                        }
                    }
                    if !tree.arena.has_free_slot() {
                        return false;
                    }
                },
            }
            let total = self.level_total(side, price);
            if total > u64::MAX - rem {
                return false;
            }
        }
        true
    }
}


// ---------------------------------------------------------------------------
// Execution reports.

/// One FIX field: the tag in decimal, `=`, the value and the field separator.
pub open spec fn tag_field(tag: nat, value: Seq<u8>) -> Seq<u8> {
    dec_str(tag) + seq![61u8] + value + seq![SOH]
}

pub open spec fn byte_sum(s: Seq<u8>) -> nat
    decreases s.len(),
{
    if s.len() == 0 {
        0
    } else {
        byte_sum(s.drop_last()) + (s.last() as nat)
    }
}

/// `n` in three decimal digits, with leading zeros.
pub open spec fn three_digits(n: nat) -> Seq<u8> {
    seq![(48 + n / 100 % 10) as u8, (48 + n / 10 % 10) as u8, (48 + n % 10) as u8]
}

/// `FIX.4.4`
pub open spec fn fix44() -> Seq<u8> {
    seq![70u8, 73u8, 88u8, 46u8, 52u8, 46u8, 52u8]
}

/// The execution and order status of a fill: `2` (filled) when the taker has nothing
/// left, `1` (partially filled) otherwise.
pub open spec fn exec_type(fill: Fill) -> Seq<u8> {
    if fill.taker_leaves == 0 {
        seq![50u8]
    } else {
        seq![49u8]
    }
}

/// The body of the execution report of `fill`, from `35=8` to the leaves quantity.
pub open spec fn report_body(fill: Fill) -> Seq<u8> {
    tag_field(35, seq![56u8]) + tag_field(37, dec_str(fill.maker_order_id as nat)) + tag_field(
        11,
        fill.taker_clord_id@.take(fill.taker_clord_id_len as int),
    ) + tag_field(17, dec_str(fill.exec_id as nat)) + tag_field(150, exec_type(fill)) + tag_field(
        39,
        exec_type(fill),
    ) + tag_field(55, fill.symbol@.take(fill.symbol_len as int)) + tag_field(
        54,
        seq![fill.side.fix_byte()],
    ) + tag_field(44, price_text(fill.price)) + tag_field(38, dec_str(fill.taker_order_qty as nat))
        + tag_field(6, price_text(fill.price)) + tag_field(
        14,
        dec_str((fill.taker_order_qty - fill.taker_leaves) as nat),
    ) + tag_field(151, dec_str(fill.taker_leaves as nat))
}

/// The report up to its checksum: begin string, body length, body.
pub open spec fn report_framed(fill: Fill) -> Seq<u8> {
    tag_field(8, fix44()) + tag_field(9, dec_str(report_body(fill).len())) + report_body(fill)
}

/// The whole execution report of `fill`, ending with its checksum field: the sum of
/// every byte before it, modulo 256, in three digits.
pub open spec fn report_bytes(fill: Fill) -> Seq<u8> {
    report_framed(fill) + tag_field(10, three_digits(byte_sum(report_framed(fill)) % 256))
}

impl LimitOrderBook {
    /// Appends the field `tag=value` and its separator.
    fn append_tag(buf: &mut Vec<u8>, tag: u32, value: &[u8])
        ensures
            final(buf)@ == old(buf)@ + tag_field(tag as nat, value@),
    {
        let digits = u64_digits(tag as u64);
        let mut i: usize = 0;
        while i < digits.len()
            invariant
                i <= digits@.len(),
                buf@ == old(buf)@ + digits@.take(i as int),
            decreases digits@.len() - i,
        {
            buf.push(digits[i]);
            i += 1;
            proof {
                assert(digits@.take(i as int) =~= digits@.take(i - 1).push(digits@[i - 1]));
            }
        }
        buf.push(61u8);
        let mut j: usize = 0;
        let ghost mid = buf@;
        while j < value.len()
            invariant
                j <= value@.len(),
                buf@ == mid + value@.take(j as int),
            decreases value@.len() - j,
        {
            buf.push(value[j]);
            j += 1;
            proof {
                assert(value@.take(j as int) =~= value@.take(j - 1).push(value@[j - 1]));
            }
        }
        buf.push(SOH);
        proof {
            assert(digits@.take(digits@.len() as int) =~= digits@);
            assert(value@.take(value@.len() as int) =~= value@);
            assert(buf@ =~= old(buf)@ + tag_field(tag as nat, value@));
        }
    }

    /// Appends the field `tag=value` with `value` in decimal.
    fn append_tag_u64(buf: &mut Vec<u8>, tag: u32, value: u64)
        ensures
            final(buf)@ == old(buf)@ + tag_field(tag as nat, dec_str(value as nat)),
    {
        let digits = u64_digits(value);
        Self::append_tag(buf, tag, digits.as_slice());
    }

    /// Appends the field `tag=value` whose value is the bytes `value`.
    fn append_tag_bytes(buf: &mut Vec<u8>, tag: u32, value: &[u8])
        ensures
            final(buf)@ == old(buf)@ + tag_field(tag as nat, value@),
    {
        Self::append_tag(buf, tag, value);
    }

    /// Appends the field `tag=value` whose value is the single byte `value`.
    fn append_tag_byte(buf: &mut Vec<u8>, tag: u32, value: u8)
        ensures
            final(buf)@ == old(buf)@ + tag_field(tag as nat, seq![value]),
    {
        let one = [value];
        proof {
            assert(one@ =~= seq![value]);
        }
        Self::append_tag(buf, tag, one.as_slice());
    }

    /// The FIX 4.4 execution report (35=8) of a fill, with its body length and checksum.
    #[verifier::spinoff_prover]
    #[verifier::rlimit(50)]
    pub fn format_execution_report(fill: &Fill) -> (r: Vec<u8>)
        requires
            fill.taker_clord_id_len <= 20,
            fill.symbol_len <= 8,
            fill.taker_leaves <= fill.taker_order_qty,
        ensures
            r@ == report_bytes(*fill),
    {
        let mut body: Vec<u8> = Vec::new();
        Self::append_tag(&mut body, 35, [56u8].as_slice());
        Self::append_tag_u64(&mut body, 37, fill.maker_order_id);
        Self::append_tag_bytes(
            &mut body,
            11,
            slice_subrange(fill.taker_clord_id.as_slice(), 0, fill.taker_clord_id_len as usize),
        );
        Self::append_tag_u64(&mut body, 17, fill.exec_id);
        let exec_type_byte: u8 = if fill.taker_leaves == 0 {
            50
        } else {
            49
        };
        Self::append_tag(&mut body, 150, [exec_type_byte].as_slice());
        Self::append_tag(&mut body, 39, [exec_type_byte].as_slice());
        Self::append_tag_bytes(
            &mut body,
            55,
            slice_subrange(fill.symbol.as_slice(), 0, fill.symbol_len as usize),
        );
        Self::append_tag_byte(&mut body, 54, fill.side.to_fix_byte());
        let price = price_bytes(fill.price);
        Self::append_tag_bytes(&mut body, 44, price.as_slice());
        Self::append_tag_u64(&mut body, 38, fill.taker_order_qty);
        Self::append_tag_bytes(&mut body, 6, price.as_slice());
        let cum_qty = fill.taker_order_qty - fill.taker_leaves;
        Self::append_tag_u64(&mut body, 14, cum_qty);
        Self::append_tag_u64(&mut body, 151, fill.taker_leaves);
        proof {
            assert([56u8]@ =~= seq![56u8]);
            assert([exec_type_byte]@ =~= exec_type(*fill));
            assert(body@ =~= report_body(*fill));
        }
        let mut buf: Vec<u8> = Vec::new();
        Self::append_tag(&mut buf, 8, [70u8, 73u8, 88u8, 46u8, 52u8, 46u8, 52u8].as_slice());
        Self::append_tag_u64(&mut buf, 9, body.len() as u64);
        let mut k: usize = 0;
        let ghost head = buf@;
        while k < body.len()
            invariant
                k <= body@.len(),
                buf@ == head + body@.take(k as int),
            decreases body@.len() - k,
        {
            buf.push(body[k]);
            k += 1;
            proof {
                assert(body@.take(k as int) =~= body@.take(k - 1).push(body@[k - 1]));
            }
        }
        proof {
            assert([70u8, 73u8, 88u8, 46u8, 52u8, 46u8, 52u8]@ =~= fix44());
            assert(body@.take(body@.len() as int) =~= body@);
            assert(buf@ =~= report_framed(*fill));
        }
        let mut checksum: u8 = 0;
        let mut m: usize = 0;
        while m < buf.len()
            invariant
                m <= buf@.len(),
                checksum == byte_sum(buf@.take(m as int)) % 256,
            decreases buf@.len() - m,
        {
            let b = buf[m];
            proof {
                let t = buf@.take(m as int);
                assert(buf@.take(m + 1).drop_last() =~= t);
                vstd::arithmetic::div_mod::lemma_add_mod_noop(byte_sum(t) as int, b as int, 256);
            }
            checksum = ((checksum as u16 + b as u16) % 256) as u8;
            m += 1;
        }
        proof {
            assert(buf@.take(buf@.len() as int) =~= buf@);
        }
        let digits = [
            48u8 + checksum / 100,
            48u8 + checksum / 10 % 10,
            48u8 + checksum % 10,
        ];
        proof {
            assert(digits@ =~= three_digits(checksum as nat));
        }
        Self::append_tag(&mut buf, 10, digits.as_slice());
        buf
    }
}


// ---------------------------------------------------------------------------
// The book stays uncrossed.

proof fn lemma_set_min(s: Set<i64>)
    requires
        s.finite(),
        s.len() > 0,
    ensures
        exists|m: i64| s.contains(m) && forall|x: i64| #[trigger] s.contains(x) ==> m <= x,
    decreases s.len(),
{
    let x = s.choose();
    assert(s.contains(x));
    if s.len() == 1 {
        assert forall|y: i64| #[trigger] s.contains(y) implies x <= y by {
            if y != x {
                assert(s.remove(x).contains(y));
                assert(s.remove(x).len() == 0);
            }
        }
    } else {
        lemma_set_min(s.remove(x));
        let m = choose|m: i64| s.remove(x).contains(m) && forall|y: i64| #[trigger] s.remove(x).contains(y) ==> m <= y;
        let w = if x < m { x } else { m };
        assert forall|y: i64| #[trigger] s.contains(y) implies w <= y by {
            if y != x {
                assert(s.remove(x).contains(y));
            }
        }
    }
}

proof fn lemma_set_max(s: Set<i64>)
    requires
        s.finite(),
        s.len() > 0,
    ensures
        exists|m: i64| s.contains(m) && forall|x: i64| #[trigger] s.contains(x) ==> x <= m,
    decreases s.len(),
{
    let x = s.choose();
    assert(s.contains(x));
    if s.len() == 1 {
        assert forall|y: i64| #[trigger] s.contains(y) implies y <= x by {
            if y != x {
                assert(s.remove(x).contains(y));
                assert(s.remove(x).len() == 0);
            }
        }
    } else {
        lemma_set_max(s.remove(x));
        let m = choose|m: i64| s.remove(x).contains(m) && forall|y: i64| #[trigger] s.remove(x).contains(y) ==> y <= m;
        let w = if x > m { x } else { m };
        assert forall|y: i64| #[trigger] s.contains(y) implies y <= w by {
            if y != x {
                assert(s.remove(x).contains(y));
            }
        }
    }
}

/// A side of a well-formed book has finitely many price levels, so a non-empty one
/// has a best price.
proof fn lemma_side_has_best(
    tree: RbTree,
    queues: Map<i64, Seq<u32>>,
    orders: Map<u32, Order>,
    owner: Map<u32, (bool, i64)>,
    is_bid: bool,
    side: Side,
    taker: Side,
    p: i64,
)
    requires
        side_ok(tree, queues, orders, owner, is_bid, side),
        side_model(queues, orders).contains_key(p),
    ensures
        has_best(side_model(queues, orders), taker),
{
    let m = side_model(queues, orders);
    tree.lemma_levels();
    tree.arena.lemma_wf();
    let f = |l: u32| tree@[l].0;
    tree@.dom().lemma_map_finite(f);
    assert(m.dom().subset_of(tree@.dom().map(f))) by {
        assert forall|q: i64| #[trigger] m.dom().contains(q) implies tree@.dom().map(f).contains(q) by {
            assert(tree.has_key(q));
            let l = choose|l: u32| tree@.contains_key(l) && (#[trigger] tree@[l]).0 == q;
            assert(f(l) == q);
        }
    }
    vstd::set_lib::lemma_set_subset_finite(tree@.dom().map(f), m.dom());
    assert(m.dom().contains(p));
    if taker == Side::Buy {
        lemma_set_min(m.dom());
        let c = choose|c: i64| m.dom().contains(c) && forall|x: i64| #[trigger] m.dom().contains(x) ==> c <= x;
        assert(is_best(m, taker, c));
    } else {
        lemma_set_max(m.dom());
        let c = choose|c: i64| m.dom().contains(c) && forall|x: i64| #[trigger] m.dom().contains(x) ==> x <= c;
        assert(is_best(m, taker, c));
    }
}

/// Matching only takes levels away.
proof fn lemma_run_keys(book: Map<i64, Seq<Order>>, taker: Side, limit: i64, remaining: nat, fuel: nat)
    ensures
        match_run(book, taker, limit, remaining, fuel).1.dom().subset_of(book.dom()),
    decreases fuel,
{
    if fuel > 0 && remaining > 0 && has_best(book, taker) && crosses(
        taker,
        limit,
        best_price(book, taker),
    ) && book[best_price(book, taker)].len() > 0 {
        let (e, book2, r2) = match_step(book, taker, remaining);
        let p = best_price(book, taker);
        assert(is_best(book, taker, p));
        assert(book2.dom().subset_of(book.dom()));
        lemma_run_keys(book2, taker, limit, r2, (fuel - 1) as nat);
    }
}

impl LimitOrderBook {
    /// Every resting bid is priced below every resting ask.
    pub open spec fn uncrossed(&self) -> bool {
        forall|b: i64, a: i64|
            #![trigger self.bids_model().contains_key(b), self.asks_model().contains_key(a)]
            self.bids_model().contains_key(b) && self.asks_model().contains_key(a) ==> b < a
    }

    /// Every queue of the book holds its orders in strictly increasing time stamp, none
    /// later than the book's sequence number.
    pub open spec fn time_ordered(&self) -> bool {
        &&& time_ordered(self.bids_model(), self.seq)
        &&& time_ordered(self.asks_model(), self.seq)
    }

    /// A submission keeps every queue in time order: the orders it fills keep their
    /// places, and what rests goes last in its queue with the newest time stamp.
    pub proof fn lemma_submit_keeps_time_order(
        b0: LimitOrderBook,
        b1: LimitOrderBook,
        fills: Seq<Fill>,
        clord_id: Seq<u8>,
        symbol: Seq<u8>,
        side: Side,
        price: i64,
        qty: u64,
    )
        requires
            b0.wf(),
            b0.time_ordered(),
            Self::submitted(b0, b1, fills, clord_id, symbol, side, price, qty),
        ensures
            b1.time_ordered(),
    {
        let run = b0.taker_run(side, price, qty);
        lemma_run_time_ordered(
            b0.book_for(side),
            side,
            price,
            qty as nat,
            b0.order_arena@.dom().len() + 1,
            b0.seq,
        );
        let other1 = b1.book_for(side);
        assert(time_ordered(other1, b1.seq)) by {
            assert forall|p: i64, i: int|
                other1.contains_key(p) && 0 <= i < other1[p].len() implies #[trigger] other1[p][i].timestamp
                <= b1.seq by {
                assert(run.1[p][i].timestamp <= b0.seq);
            }
        }
        let own0 = b0.own_book(side);
        let own1 = b1.own_book(side);
        assert(time_ordered(own0, b0.seq));
        assert(time_ordered(own1, b1.seq)) by {
            if run.2 > 0 {
                let o = choose|o: Order| #[trigger]
                    b0.entered_as(o, clord_id, symbol, side, price, qty, run.2)
                        && b1.own_book(side) == b0.own_book(side).insert(
                        price,
                        queue_at(b0.own_book(side), price).push(o),
                    );
                let q0 = queue_at(own0, price);
                let q1 = q0.push(o);
                assert forall|p: i64, i: int, j: int|
                    own1.contains_key(p) && 0 <= i < j < own1[p].len() implies #[trigger] own1[p][i].timestamp
                    < #[trigger] own1[p][j].timestamp by {
                    if p == price {
                        if j == q0.len() {
                            assert(q1[i] == q0[i]);
                            assert(own0.contains_key(p));
                            assert(q0[i].timestamp <= b0.seq);
                        } else {
                            assert(own0.contains_key(p));
                            assert(q1[i] == q0[i] && q1[j] == q0[j]);
                            assert(q0[i].timestamp < q0[j].timestamp);
                        }
                    }
                }
                assert forall|p: i64, i: int|
                    own1.contains_key(p) && 0 <= i < own1[p].len() implies #[trigger] own1[p][i].timestamp
                    <= b1.seq by {
                    if p == price && i < q0.len() {
                        assert(own0.contains_key(p));
                        assert(q1[i] == q0[i]);
                        assert(q0[i].timestamp <= b0.seq);
                    } else if p != price {
                        assert(own0[p][i].timestamp <= b0.seq);
                    }
                }
            } else {
                assert forall|p: i64, i: int|
                    own1.contains_key(p) && 0 <= i < own1[p].len() implies #[trigger] own1[p][i].timestamp
                    <= b1.seq by {
                    assert(own0[p][i].timestamp <= b0.seq);
                }
            }
        }
    }

    /// A submission leaves an uncrossed book uncrossed: an order that would cross is
    /// matched until it no longer does, and only then rests.
    pub proof fn lemma_submit_keeps_uncrossed(
        b0: LimitOrderBook,
        b1: LimitOrderBook,
        fills: Seq<Fill>,
        clord_id: Seq<u8>,
        symbol: Seq<u8>,
        side: Side,
        price: i64,
        qty: u64,
    )
        requires
            b0.wf(),
            b0.uncrossed(),
            Self::submitted(b0, b1, fills, clord_id, symbol, side, price, qty),
        ensures
            b1.uncrossed(),
    {
        let run = b0.taker_run(side, price, qty);
        lemma_run_keys(b0.book_for(side), side, price, qty as nat, b0.order_arena@.dom().len() + 1);
        let own0 = b0.own_book(side);
        let own1 = b1.own_book(side);
        assert forall|k: i64| #[trigger] own1.contains_key(k) implies own0.contains_key(k) || (k
            == price && run.2 > 0) by {
            if run.2 > 0 {
                let o = choose|o: Order| #[trigger]
                    b0.entered_as(o, clord_id, symbol, side, price, qty, run.2)
                        && b1.own_book(side) == b0.own_book(side).insert(
                        price,
                        queue_at(b0.own_book(side), price).push(o),
                    );
            }
        }
        assert forall|b: i64, a: i64|
            #![trigger b1.bids_model().contains_key(b), b1.asks_model().contains_key(a)]
            b1.bids_model().contains_key(b) && b1.asks_model().contains_key(a) implies b < a by {
            if side == Side::Buy {
                assert(b0.asks_model().contains_key(a));
                if b0.bids_model().contains_key(b) {
                } else {
                    assert(b == price && run.2 > 0);
                    if !has_best(run.1, side) {
                        lemma_side_has_best(
                            b1.asks,
                            b1.ask_queues@,
                            b1.order_arena@,
                            b1.owner@,
                            false,
                            Side::Sell,
                            side,
                            a,
                        );
                    }
                    let c = best_price(run.1, side);
                    assert(is_best(run.1, side, c));
                    assert(run.1.contains_key(a));
                }
            } else {
                assert(b0.bids_model().contains_key(b));
                if b0.asks_model().contains_key(a) {
                } else {
                    assert(a == price && run.2 > 0);
                    if !has_best(run.1, side) {
                        lemma_side_has_best(
                            b1.bids,
                            b1.bid_queues@,
                            b1.order_arena@,
                            b1.owner@,
                            true,
                            Side::Buy,
                            side,
                            b,
                        );
                    }
                    let c = best_price(run.1, side);
                    assert(is_best(run.1, side, c));
                    assert(run.1.contains_key(b));
                }
            }
        }
    }
}


// ---------------------------------------------------------------------------
// What every submission's fills obey.

/// The total quantity of a sequence of executions.
pub open spec fn run_filled(es: Seq<(u64, i64, nat, nat, nat)>) -> nat
    decreases es.len(),
{
    if es.len() == 0 {
        0
    } else {
        es[0].2 + run_filled(es.drop_first())
    }
}

/// The total quantity of a sequence of fills.
pub open spec fn fills_total(fills: Seq<Fill>) -> nat
    decreases fills.len(),
{
    if fills.len() == 0 {
        0
    } else {
        (fills[0].fill_qty as nat) + fills_total(fills.drop_first())
    }
}

/// `p` is at least as good as `q` for the maker side met by a taker on side `taker`:
/// no higher for a buyer, no lower for a seller.
pub open spec fn no_worse(taker: Side, p: i64, q: i64) -> bool {
    if taker == Side::Buy {
        p <= q
    } else {
        q <= p
    }
}

proof fn lemma_run_facts(book: Map<i64, Seq<Order>>, taker: Side, limit: i64, remaining: nat, fuel: nat)
    ensures
        ({
            let run = match_run(book, taker, limit, remaining, fuel);
            &&& run_filled(run.0) + run.2 == remaining
            &&& forall|i: int| 0 <= i < run.0.len() ==> crosses(taker, limit, #[trigger] run.0[i].1)
            &&& forall|i: int| 0 <= i < run.0.len() ==> book.contains_key(#[trigger] run.0[i].1)
            &&& forall|i: int, j: int|
                0 <= i < j < run.0.len() ==> no_worse(taker, #[trigger] run.0[i].1, #[trigger] run.0[j].1)
            &&& has_best(book, taker) ==> forall|i: int|
                0 <= i < run.0.len() ==> no_worse(taker, best_price(book, taker), #[trigger] run.0[i].1)
        }),
    decreases fuel,
{
    let run = match_run(book, taker, limit, remaining, fuel);
    if fuel > 0 && remaining > 0 && has_best(book, taker) && crosses(
        taker,
        limit,
        best_price(book, taker),
    ) && book[best_price(book, taker)].len() > 0 {
        let (e, book2, r2) = match_step(book, taker, remaining);
        let p = best_price(book, taker);
        assert(is_best(book, taker, p));
        assert(book2.dom().subset_of(book.dom()));
        lemma_run_facts(book2, taker, limit, r2, (fuel - 1) as nat);
        let rest = match_run(book2, taker, limit, r2, (fuel - 1) as nat);
        assert(run.0 == seq![e] + rest.0);
        assert(run.0.drop_first() =~= rest.0);
        lemma_run_keys(book2, taker, limit, r2, (fuel - 1) as nat);
        assert forall|i: int| 0 <= i < run.0.len() implies book.contains_key(#[trigger] run.0[i].1)
            && no_worse(taker, p, run.0[i].1) by {
            if i > 0 {
                assert(run.0[i] == rest.0[i - 1]);
            }
        }
        assert forall|i: int, j: int|
            0 <= i < j < run.0.len() implies no_worse(taker, #[trigger] run.0[i].1, #[trigger] run.0[j].1) by {
            assert(run.0[j] == rest.0[j - 1]);
            if i > 0 {
                assert(run.0[i] == rest.0[i - 1]);
            } else {
                assert(book.contains_key(run.0[j].1));
            }
        }
        assert forall|i: int| 0 <= i < run.0.len() implies crosses(taker, limit, #[trigger] run.0[i].1) by {
            if i > 0 {
                assert(run.0[i] == rest.0[i - 1]);
            }
        }
    } else {
        assert(run.0.len() == 0);
    }
}

proof fn lemma_fills_total(fills: Seq<Fill>, es: Seq<(u64, i64, nat, nat, nat)>)
    requires
        fills.len() == es.len(),
        forall|i: int| 0 <= i < es.len() ==> (#[trigger] fills[i]).fill_qty == es[i].2,
    ensures
        fills_total(fills) == run_filled(es),
    decreases fills.len(),
{
    if fills.len() > 0 {
        lemma_fills_total(fills.drop_first(), es.drop_first());
    }
}

impl LimitOrderBook {
    /// A submission neither loses nor makes quantity: what its fills took and what it
    /// left open add up to the order quantity; each fill is at a price within the
    /// order's limit, and the fills come best price first.
    pub proof fn lemma_submit_fills(
        b0: LimitOrderBook,
        b1: LimitOrderBook,
        fills: Seq<Fill>,
        clord_id: Seq<u8>,
        symbol: Seq<u8>,
        side: Side,
        price: i64,
        qty: u64,
    )
        requires
            Self::submitted(b0, b1, fills, clord_id, symbol, side, price, qty),
        ensures
            fills_total(fills) + b0.taker_run(side, price, qty).2 == qty,
            forall|i: int| 0 <= i < fills.len() ==> crosses(side, price, #[trigger] fills[i].price),
            forall|i: int| 0 <= i < fills.len() ==> b0.book_for(side).contains_key(#[trigger] fills[i].price),
            forall|i: int, j: int|
                0 <= i < j < fills.len() ==> no_worse(side, #[trigger] fills[i].price, #[trigger] fills[j].price),
    {
        let run = b0.taker_run(side, price, qty);
        lemma_run_facts(b0.book_for(side), side, price, qty as nat, b0.order_arena@.dom().len() + 1);
        assert forall|i: int| 0 <= i < run.0.len() implies (#[trigger] fills[i]).fill_qty == run.0[i].2 && fills[i].price == run.0[i].1 by {
            assert(fill_matches(fills[i], run.0[i], side, clord_id, symbol, qty, b0.next_exec_id + i));
        }
        lemma_fills_total(fills, run.0);
    }
}


// ---------------------------------------------------------------------------
// Reading back a formatted price.

proof fn lemma_pow10_add(a: nat, b: nat)
    ensures
        pow10(a + b) == pow10(a) * pow10(b),
    decreases b,
{
    if b > 0 {
        lemma_pow10_add(a, (b - 1) as nat);
        let x = pow10(a);
        let y = pow10((b - 1) as nat);
        assert(pow10(a + b) == 10 * pow10((a + b - 1) as nat));
        assert((a + b - 1) as nat == a + (b - 1) as nat);
        assert(pow10(b) == 10 * y);
        assert(10 * (x * y) == x * (10 * y)) by (nonlinear_arith);
    } else {
        assert(pow10(0) == 1);
        assert(a + b == a);
        assert(pow10(a) * 1 == pow10(a));
    }
}

proof fn lemma_decimal_concat(a: Seq<u8>, b: Seq<u8>)
    ensures
        decimal_value(a + b) == decimal_value(a) * pow10(b.len()) + decimal_value(b),
    decreases b.len(),
{
    if b.len() == 0 {
        assert(a + b =~= a);
        assert(pow10(0) == 1);
        assert(decimal_value(a) * 1 == decimal_value(a));
    } else {
        let b1 = b.drop_last();
        assert((a + b).drop_last() =~= a + b1);
        assert((a + b).last() == b.last());
        lemma_decimal_concat(a, b1);
        let x = decimal_value(a);
        let p = pow10(b1.len());
        let y = decimal_value(b1);
        assert((x * p + y) * 10 == x * (10 * p) + y * 10) by (nonlinear_arith);
        assert(pow10(b.len()) == 10 * p);
        assert(decimal_value(b) == y * 10 + (b.last() - 48) as nat);
        assert(decimal_value(a + b) == (x * p + y) * 10 + (b.last() - 48) as nat);
    }
}

proof fn lemma_dec_str(n: nat)
    ensures
        crate::fix::scanner::all_digits(dec_str(n)),
        decimal_value(dec_str(n)) == n,
        dec_str(n).len() >= 1,
    decreases n,
{
    if n >= 10 {
        lemma_dec_str(n / 10);
        assert(dec_str(n).drop_last() =~= dec_str(n / 10));
        vstd::arithmetic::div_mod::lemma_fundamental_div_mod(n as int, 10);
        assert(decimal_value(dec_str(n)) == (n / 10) * 10 + n % 10);
    } else {
        assert(dec_str(n).drop_last() =~= Seq::<u8>::empty());
        assert(decimal_value(Seq::<u8>::empty()) == 0);
        assert(dec_str(n).last() == (48 + n) as u8);
        assert(((48 + n) as u8) as int == 48 + n);
        assert(decimal_value(dec_str(n)) == 0 * 10 + n);
    }
}

/// The digits of a digit string are the string itself.
proof fn lemma_digits_of_digits(s: Seq<u8>)
    requires
        crate::fix::scanner::all_digits(s),
    ensures
        digits_of(s) == s,
    decreases s.len(),
{
    if s.len() > 0 {
        assert(is_digit(s.last()));
        lemma_digits_of_digits(s.drop_last());
        assert(s.drop_last().push(s.last()) =~= s);
    }
}

proof fn lemma_digits_of_concat(a: Seq<u8>, b: Seq<u8>)
    ensures
        digits_of(a + b) == digits_of(a) + digits_of(b),
    decreases b.len(),
{
    if b.len() == 0 {
        assert(a + b =~= a);
        assert(digits_of(a) + Seq::<u8>::empty() =~= digits_of(a));
    } else {
        assert((a + b).drop_last() =~= a + b.drop_last());
        assert((a + b).last() == b.last());
        lemma_digits_of_concat(a, b.drop_last());
        if is_digit(b.last()) {
            assert(digits_of(a) + digits_of(b.drop_last()).push(b.last()) =~= (digits_of(a)
                + digits_of(b.drop_last())).push(b.last()));
        }
    }
}

/// The first `b` of `s` from `i` on is at `j` when `s[j]` is one and none comes
/// between.
proof fn lemma_find_first(s: Seq<u8>, b: u8, i: int, j: int)
    requires
        0 <= i <= j < s.len(),
        s[j] == b,
        forall|k: int| i <= k < j ==> s[k] != b,
    ensures
        crate::fix::scanner::find_from(s, b, i) == Some(j),
    decreases j - i,
{
    if i < j {
        lemma_find_first(s, b, i + 1, j);
    }
}

/// `fp / 10^(8-j)` written in `j` digits are the first `j` digits of `frac8(fp)`.
proof fn lemma_frac8_prefix(fp: nat, j: nat)
    requires
        fp < 100_000_000,
        j <= 8,
    ensures
        crate::fix::scanner::all_digits(frac8(fp).take(j as int)),
        decimal_value(frac8(fp).take(j as int)) == fp / pow10((8 - j) as nat),
    decreases j,
{
    lemma_pow10_pos((8 - j) as nat);
    if j == 0 {
        assert(frac8(fp).take(0) =~= Seq::<u8>::empty());
        assert(pow10(8) == 100_000_000) by {
            reveal_with_fuel(pow10, 9);
        }
        vstd::arithmetic::div_mod::lemma_fundamental_div_mod_converse(
            fp as int,
            100_000_000,
            0,
            fp as int,
        );
    } else {
        lemma_frac8_prefix(fp, (j - 1) as nat);
        let k = j - 1;
        let pm = pow10((7 - k) as nat);
        lemma_pow10_pos((7 - k) as nat);
        assert(pow10((8 - k) as nat) == 10 * pm);
        let t = frac8(fp).take(j as int);
        assert(t.drop_last() =~= frac8(fp).take(k as int));
        let q = fp / pm;
        vstd::arithmetic::div_mod::lemma_mod_breakdown(fp as int, pm as int, 10);
        assert(fp % (pm * 10) == pm * (q % 10) + fp % pm);
        vstd::arithmetic::div_mod::lemma_mod_bound(fp as int, pm as int);
        vstd::arithmetic::div_mod::lemma_mod_bound(q as int, 10);
        assert(pm * (q % 10) == (q % 10) * pm) by (nonlinear_arith);
        vstd::arithmetic::div_mod::lemma_fundamental_div_mod_converse(
            (fp % (pm * 10)) as int,
            pm as int,
            (q % 10) as int,
            (fp % pm) as int,
        );
        assert(10 * pm == pm * 10) by (nonlinear_arith);
        assert((fp % pow10((8 - k) as nat)) / pm == q % 10);
        assert(t.last() == (48 + q % 10) as u8);
        vstd::arithmetic::div_mod::lemma_div_denominator(fp as int, pm as int, 10);
        vstd::arithmetic::div_mod::lemma_fundamental_div_mod(q as int, 10);
        assert(fp / pow10((8 - k) as nat) == q / 10);
    }
}

proof fn lemma_frac8(fp: nat)
    requires
        fp < 100_000_000,
    ensures
        crate::fix::scanner::all_digits(frac8(fp)),
        decimal_value(frac8(fp)) == fp,
        frac8(fp).len() == 8,
{
    lemma_frac8_prefix(fp, 8);
    assert(frac8(fp).take(8) =~= frac8(fp));
    assert(pow10(0) == 1);
    assert(fp / 1 == fp);
}

proof fn lemma_strip_zeros(s: Seq<u8>)
    requires
        crate::fix::scanner::all_digits(s),
        s.len() >= 1,
    ensures
        crate::fix::scanner::all_digits(strip_zeros(s)),
        1 <= strip_zeros(s).len() <= s.len(),
        decimal_value(strip_zeros(s)) * pow10((s.len() - strip_zeros(s).len()) as nat)
            == decimal_value(s),
    decreases s.len(),
{
    if s.len() > 1 && s.last() == 48 {
        let t = s.drop_last();
        lemma_strip_zeros(t);
        let z = strip_zeros(t);
        let k = (t.len() - z.len()) as nat;
        assert(strip_zeros(s) == z);
        assert(decimal_value(s) == decimal_value(t) * 10);
        assert(pow10(k + 1) == 10 * pow10(k));
        assert(decimal_value(z) * (10 * pow10(k)) == (decimal_value(z) * pow10(k)) * 10)
            by (nonlinear_arith);
        assert((s.len() - z.len()) as nat == k + 1);
    } else {
        assert(pow10(0) == 1);
        assert(decimal_value(s) * 1 == decimal_value(s));
    }
}

/// The text that `price_bytes` writes for a price reads back, through `parse_price`, as
/// the price's magnitude: the same price where it is not negative.
#[verifier::spinoff_prover]
pub proof fn lemma_price_text_reads_back(price: i64)
    ensures
        spec_price(price_text(price)) == abs_price(price),
{
    let a = abs_price(price);
    let ip = a / 100_000_000;
    let fp = a % 100_000_000;
    let digits = if ip == 0 {
        seq![48u8]
    } else {
        dec_str(ip)
    };
    let head = if ip == 0 {
        seq![48u8]
    } else if price < 0 {
        seq![45u8] + dec_str(ip)
    } else {
        dec_str(ip)
    };
    let tail = if fp > 0 {
        strip_zeros(frac8(fp))
    } else {
        seq![48u8]
    };
    let s = price_text(price);
    assert(s == head + seq![46u8] + tail);
    lemma_dec_str(ip);
    lemma_dec_str(0);
    assert(dec_str(0) =~= seq![48u8]);
    vstd::arithmetic::div_mod::lemma_mod_bound(a as int, 100_000_000);
    if fp > 0 {
        lemma_frac8(fp);
        lemma_strip_zeros(frac8(fp));
    } else {
        assert(crate::fix::scanner::all_digits(seq![48u8]));
    }
    assert(crate::fix::scanner::all_digits(tail));
    assert(crate::fix::scanner::all_digits(digits));
    assert(1 <= tail.len() <= 8);
    // the only `.` is the one after the head
    assert forall|k: int| 0 <= k < head.len() implies s[k] != 0x2e by {
        assert(s[k] == head[k]);
        if !(ip != 0 && price < 0 && k == 0) {
            if ip != 0 && price < 0 {
                assert(head[k] == dec_str(ip)[k - 1]);
                assert(is_digit(dec_str(ip)[k - 1]));
            } else {
                assert(is_digit(digits[k]));
            }
        }
    }
    assert(s[head.len() as int] == 0x2e);
    lemma_find_first(s, 0x2e, 0, head.len() as int);
    assert(dot_index(s) == head.len());
    assert(s.take(head.len() as int) =~= head);
    assert(s.skip(head.len() as int + 1) =~= tail);
    // integer digits
    lemma_digits_of_digits(digits);
    if ip != 0 && price < 0 {
        lemma_digits_of_concat(seq![45u8], dec_str(ip));
        assert(seq![45u8].drop_last() =~= Seq::<u8>::empty());
        assert(digits_of(seq![45u8]) =~= digits_of(Seq::<u8>::empty()));
        assert(Seq::<u8>::empty() + dec_str(ip) =~= dec_str(ip));
    }
    assert(int_digits(s) == digits);
    // fraction digits
    lemma_digits_of_digits(tail);
    assert(frac_digits(s) == tail);
    // the value
    lemma_decimal_concat(digits, tail);
    let t = tail.len();
    let vt = decimal_value(tail);
    lemma_pow10_add(t, (8 - t) as nat);
    assert(pow10(8) == 100_000_000) by {
        reveal_with_fuel(pow10, 9);
    }
    assert(decimal_value(digits) == ip);
    assert((ip * pow10(t) + vt) * pow10((8 - t) as nat) == ip * (pow10(t) * pow10((8 - t) as nat))
        + vt * pow10((8 - t) as nat)) by (nonlinear_arith);
    if fp > 0 {
        assert(vt * pow10((8 - t) as nat) == fp);
    } else {
        assert(vt == 0);
        assert(0 * pow10((8 - t) as nat) == 0) by (nonlinear_arith);
    }
    vstd::arithmetic::div_mod::lemma_fundamental_div_mod(a as int, 100_000_000);
}

/// `dec_str(n)` has at most `k` digits where `n` is below `10^k`.
proof fn lemma_dec_str_len(n: nat, k: nat)
    requires
        k >= 1,
        n < pow10(k),
    ensures
        dec_str(n).len() <= k,
    decreases n,
{
    if n >= 10 {
        assert(k >= 2) by {
            if k == 1 {
                assert(pow10(1) == 10 * pow10(0));
            }
        }
        let k1 = (k - 1) as nat;
        assert(pow10(k) == 10 * pow10(k1));
        assert(n / 10 < pow10(k1)) by (nonlinear_arith)
            requires
                n < 10 * pow10(k1),
        ;
        lemma_dec_str_len(n / 10, k1);
    }
}

/// A stripped fraction ends in a nonzero digit unless it is a single digit.
proof fn lemma_strip_zeros_last(s: Seq<u8>)
    ensures
        strip_zeros(s).len() > 1 ==> strip_zeros(s).last() != 48,
    decreases s.len(),
{
    if s.len() > 1 && s.last() == 48 {
        lemma_strip_zeros_last(s.drop_last());
    }
}

/// The text of a price has at most 21 bytes, and at most 20 when the price is not
/// negative. A price that is not negative is written in decimal digits with one `.`,
/// at least one digit after it, and no trailing `0` after it but the lone `0` of a
/// whole price.
#[verifier::spinoff_prover]
pub proof fn lemma_price_text_shape(price: i64)
    ensures
        price_text(price).len() <= 21,
        price >= 0 ==> {
            let s = price_text(price);
            let d = dot_index(s);
            &&& s.len() <= 20
            &&& 1 <= d < s.len() - 1
            &&& s[d] == 0x2e
            &&& forall|i: int| 0 <= i < s.len() && i != d ==> is_digit(#[trigger] s[i])
            &&& (s.last() != 48 || (price % 100_000_000 == 0 && s.skip(d + 1) == seq![48u8]))
        },
{
    let a = abs_price(price);
    let ip = a / 100_000_000;
    let fp = a % 100_000_000;
    let head = if ip == 0 {
        seq![48u8]
    } else if price < 0 {
        seq![45u8] + dec_str(ip)
    } else {
        dec_str(ip)
    };
    let tail = if fp > 0 {
        strip_zeros(frac8(fp))
    } else {
        seq![48u8]
    };
    let s = price_text(price);
    assert(s == head + seq![46u8] + tail);
    lemma_dec_str(ip);
    vstd::arithmetic::div_mod::lemma_mod_bound(a as int, 100_000_000);
    assert(pow10(11) == 100_000_000_000) by {
        reveal_with_fuel(pow10, 12);
    }
    assert(a <= 9_223_372_036_854_775_808);
    assert(ip < 100_000_000_000) by (nonlinear_arith)
        requires
            a <= 9_223_372_036_854_775_808,
            ip == a / 100_000_000,
    ;
    lemma_dec_str_len(ip, 11);
    if fp > 0 {
        lemma_frac8(fp);
        lemma_strip_zeros(frac8(fp));
        lemma_strip_zeros_last(frac8(fp));
        lemma_pow10_pos((8 - tail.len()) as nat);
        if tail.len() == 1 && tail[0] == 48 {
            assert(decimal_value(tail) == decimal_value(tail.drop_last()) * 10 + 0);
            assert(tail.drop_last() =~= Seq::<u8>::empty());
            assert(decimal_value(tail) == 0);
            assert(0 * pow10((8 - tail.len()) as nat) == 0) by (nonlinear_arith);
        }
    } else {
        assert(crate::fix::scanner::all_digits(seq![48u8]));
    }
    assert(crate::fix::scanner::all_digits(tail));
    assert(1 <= tail.len() <= 8);
    assert(head.len() <= 12);
    if price >= 0 {
        assert(price as nat == a);
        assert(head.len() <= 11);
        assert forall|k: int| 0 <= k < head.len() implies s[k] != 0x2e && is_digit(s[k]) by {
            assert(s[k] == head[k]);
            if ip != 0 {
                assert(is_digit(dec_str(ip)[k]));
            }
        }
        assert(s[head.len() as int] == 0x2e);
        lemma_find_first(s, 0x2e, 0, head.len() as int);
        let d = dot_index(s);
        assert(d == head.len());
        assert forall|i: int| 0 <= i < s.len() && i != d implies is_digit(#[trigger] s[i]) by {
            if i > d {
                assert(s[i] == tail[i - d - 1]);
            }
        }
        assert(s.skip(d + 1) =~= tail);
        assert(s.last() == tail.last());
        assert(price % 100_000_000 == fp);
    }
}


// ---------------------------------------------------------------------------
// Execution reports scan back.

/// The bytes of a list of fields, each `tag=value` and a separator.
pub open spec fn fields_text(fs: Seq<(nat, Seq<u8>)>) -> Seq<u8>
    decreases fs.len(),
{
    if fs.len() == 0 {
        Seq::empty()
    } else {
        tag_field(fs[0].0, fs[0].1) + fields_text(fs.drop_first())
    }
}

/// The value of the last field of `fs` with `tag`.
pub open spec fn field_value(fs: Seq<(nat, Seq<u8>)>, tag: u32) -> Option<Seq<u8>>
    decreases fs.len(),
{
    if fs.len() == 0 {
        None
    } else {
        match field_value(fs.drop_first(), tag) {
            Some(v) => Some(v),
            None => if fs[0].0 == tag {
                Some(fs[0].1)
            } else {
                None
            },
        }
    }
}

/// Fields whose tags fit in 32 bits and whose values hold no separator.
pub open spec fn plain_fields(fs: Seq<(nat, Seq<u8>)>) -> bool {
    forall|i: int| 0 <= i < fs.len() ==> (#[trigger] fs[i]).0 <= u32::MAX && !fs[i].1.contains(SOH)
}

/// Where the scanner finds the fields of `fields_text(fs)` placed at offset `base`.
spec fn field_spans(fs: Seq<(nat, Seq<u8>)>, base: int) -> Seq<(u32, int, int)>
    decreases fs.len(),
{
    if fs.len() == 0 {
        Seq::empty()
    } else {
        let vs = base + dec_str(fs[0].0).len() + 1;
        let ve = vs + fs[0].1.len();
        seq![(fs[0].0 as u32, vs, ve)] + field_spans(fs.drop_first(), ve + 1)
    }
}

proof fn lemma_next_field_at(p: Seq<u8>, t: nat, v: Seq<u8>, rest: Seq<u8>)
    requires
        t <= u32::MAX,
        !v.contains(SOH),
    ensures
        crate::fix::scanner::spec_next_field(p + tag_field(t, v) + rest, p.len() as int) == Some(
            (
                t as u32,
                (p.len() + dec_str(t).len() + 1) as int,
                (p.len() + dec_str(t).len() + 1 + v.len()) as int,
            ),
        ),
{
    let data = p + tag_field(t, v) + rest;
    let pos = p.len() as int;
    let d = dec_str(t);
    lemma_dec_str(t);
    let rem = data.subrange(pos, data.len() as int);
    assert(rem =~= d + seq![61u8] + v + seq![SOH] + rest);
    assert forall|k: int| 0 <= k < d.len() implies rem[k] != crate::fix::scanner::EQ by {
        assert(rem[k] == d[k]);
        assert(is_digit(d[k]));
    }
    lemma_find_first(rem, crate::fix::scanner::EQ, 0, d.len() as int);
    let tag_end = pos + d.len();
    assert(data.subrange(pos, tag_end) =~= d);
    let vs = tag_end + 1;
    let rest2 = data.subrange(vs, data.len() as int);
    assert(rest2 =~= v + seq![SOH] + rest);
    assert forall|k: int| 0 <= k < v.len() implies rest2[k] != SOH by {
        assert(rest2[k] == v[k]);
        if v[k] == SOH {
            assert(v.contains(SOH));
        }
    }
    lemma_find_first(rest2, SOH, 0, v.len() as int);
}

#[verifier::spinoff_prover]
#[verifier::rlimit(40)]
proof fn lemma_fields_scan(p: Seq<u8>, fs: Seq<(nat, Seq<u8>)>)
    requires
        plain_fields(fs),
    ensures
        crate::fix::scanner::spec_fields(p + fields_text(fs), p.len() as int) == field_spans(
            fs,
            p.len() as int,
        ),
    decreases fs.len(),
{
    if fs.len() == 0 {
        assert(p + fields_text(fs) =~= p);
    } else {
        let rest = fields_text(fs.drop_first());
        let tf = tag_field(fs[0].0, fs[0].1);
        assert(fs[0].0 <= u32::MAX && !fs[0].1.contains(SOH));
        assert(p + fields_text(fs) =~= p + tf + rest);
        lemma_next_field_at(p, fs[0].0, fs[0].1, rest);
        let p2 = p + tf;
        assert(p2 + rest =~= p + fields_text(fs));
        assert(plain_fields(fs.drop_first())) by {
            assert forall|i: int| 0 <= i < fs.drop_first().len() implies (
            #[trigger] fs.drop_first()[i]).0 <= u32::MAX && !fs.drop_first()[i].1.contains(SOH) by {
                assert(fs.drop_first()[i] == fs[i + 1]);
            }
        }
        lemma_fields_scan(p2, fs.drop_first());
    }
}

proof fn lemma_last_with_tag_front(x: (u32, int, int), r: Seq<(u32, int, int)>, tag: u32)
    ensures
        crate::fix::scanner::last_with_tag(seq![x] + r, tag) == match crate::fix::scanner::last_with_tag(
            r,
            tag,
        ) {
            Some(v) => Some(v),
            None => if x.0 == tag {
                Some((x.1, x.2))
            } else {
                None
            },
        },
    decreases r.len(),
{
    let z = seq![x] + r;
    if r.len() > 0 {
        assert(z.drop_last() =~= seq![x] + r.drop_last());
        assert(z.last() == r.last());
        lemma_last_with_tag_front(x, r.drop_last(), tag);
    } else {
        assert(z =~= seq![x]);
        assert(z.drop_last() =~= Seq::<(u32, int, int)>::empty());
        assert(z.last() == x);
        assert(crate::fix::scanner::last_with_tag(z.drop_last(), tag) is None);
        assert(crate::fix::scanner::last_with_tag(r, tag) is None);
    }
}

#[verifier::spinoff_prover]
#[verifier::rlimit(40)]
proof fn lemma_spans_value(p: Seq<u8>, fs: Seq<(nat, Seq<u8>)>, tag: u32)
    requires
        plain_fields(fs),
    ensures
        match crate::fix::scanner::last_with_tag(field_spans(fs, p.len() as int), tag) {
            None => field_value(fs, tag) is None,
            Some((s, e)) => field_value(fs, tag) == Some((p + fields_text(fs)).subrange(s, e)),
        },
    decreases fs.len(),
{
    if fs.len() > 0 {
        let rest = fs.drop_first();
        let tf = tag_field(fs[0].0, fs[0].1);
        let p2 = p + tf;
        let d = dec_str(fs[0].0);
        let vs: int = p.len() as int + d.len() + 1;
        let ve: int = vs + fs[0].1.len();
        assert(fs[0].0 <= u32::MAX && !fs[0].1.contains(SOH));
        assert(plain_fields(rest)) by {
            assert forall|i: int| 0 <= i < rest.len() implies (#[trigger] rest[i]).0 <= u32::MAX
                && !rest[i].1.contains(SOH) by {
                assert(rest[i] == fs[i + 1]);
            }
        }
        lemma_spans_value(p2, rest, tag);
        assert(p2 + fields_text(rest) =~= p + fields_text(fs));
        assert(p2.len() == ve + 1);
        lemma_last_with_tag_front((fs[0].0 as u32, vs, ve), field_spans(rest, ve + 1), tag);
        assert((p + fields_text(fs)).subrange(vs, ve) =~= fs[0].1);
    }
}

/// Scanning the text of plain fields finds, for every tag, the value of its last field.
proof fn lemma_fields_tag_value(fs: Seq<(nat, Seq<u8>)>, tag: u32)
    requires
        plain_fields(fs),
    ensures
        crate::fix::scanner::tag_value(fields_text(fs), tag) == field_value(fs, tag),
{
    let e = Seq::<u8>::empty();
    assert(e + fields_text(fs) =~= fields_text(fs));
    lemma_fields_scan(e, fs);
    lemma_spans_value(e, fs, tag);
}

/// The fields of the execution report of `fill`, in order.
pub open spec fn report_fields(fill: Fill) -> Seq<(nat, Seq<u8>)> {
    let body = report_body(fill);
    seq![
        (8nat, fix44()),
        (9nat, dec_str(body.len())),
        (35nat, seq![56u8]),
        (37nat, dec_str(fill.maker_order_id as nat)),
        (11nat, fill.taker_clord_id@.take(fill.taker_clord_id_len as int)),
        (17nat, dec_str(fill.exec_id as nat)),
        (150nat, exec_type(fill)),
        (39nat, exec_type(fill)),
        (55nat, fill.symbol@.take(fill.symbol_len as int)),
        (54nat, seq![fill.side.fix_byte()]),
        (44nat, price_text(fill.price)),
        (38nat, dec_str(fill.taker_order_qty as nat)),
        (6nat, price_text(fill.price)),
        (14nat, dec_str((fill.taker_order_qty - fill.taker_leaves) as nat)),
        (151nat, dec_str(fill.taker_leaves as nat)),
        (10nat, three_digits(byte_sum(report_framed(fill)) % 256)),
    ]
}

proof fn lemma_digits_plain(s: Seq<u8>)
    requires
        crate::fix::scanner::all_digits(s),
    ensures
        !s.contains(SOH),
{
    if s.contains(SOH) {
        let k = choose|k: int| 0 <= k < s.len() && s[k] == SOH;
        assert(is_digit(s[k]));
    }
}

#[verifier::spinoff_prover]
#[verifier::rlimit(40)]
proof fn lemma_price_text_plain(price: i64)
    ensures
        !price_text(price).contains(SOH),
{
    let a = abs_price(price);
    let ip = a / 100_000_000;
    let fp = a % 100_000_000;
    let head = if ip == 0 {
        seq![48u8]
    } else if price < 0 {
        seq![45u8] + dec_str(ip)
    } else {
        dec_str(ip)
    };
    let tail = if fp > 0 {
        strip_zeros(frac8(fp))
    } else {
        seq![48u8]
    };
    lemma_dec_str(ip);
    vstd::arithmetic::div_mod::lemma_mod_bound(a as int, 100_000_000);
    if fp > 0 {
        lemma_frac8(fp);
        lemma_strip_zeros(frac8(fp));
    }
    let t = price_text(price);
    assert(t == head + seq![46u8] + tail);
    if t.contains(SOH) {
        let k = choose|k: int| 0 <= k < t.len() && t[k] == SOH;
        if k < head.len() {
            if ip != 0 && price < 0 && k > 0 {
                assert(is_digit(dec_str(ip)[k - 1]));
            } else if ip != 0 && price >= 0 {
                assert(is_digit(dec_str(ip)[k]));
            }
        } else if k > head.len() {
            assert(t[k] == tail[k - head.len() - 1]);
            assert(is_digit(tail[k - head.len() - 1]));
        }
    }
}

/// Appending a field appends its text.
proof fn lemma_fields_text_push(fs: Seq<(nat, Seq<u8>)>, x: (nat, Seq<u8>))
    ensures
        fields_text(fs.push(x)) == fields_text(fs) + tag_field(x.0, x.1),
    decreases fs.len(),
{
    let z = fs.push(x);
    if fs.len() == 0 {
        assert(z.drop_first() =~= Seq::<(nat, Seq<u8>)>::empty());
        assert(z[0] == x);
        assert(fields_text(z.drop_first()) == Seq::<u8>::empty());
        assert(fields_text(fs) == Seq::<u8>::empty());
        assert(fields_text(z) == tag_field(x.0, x.1) + Seq::<u8>::empty());
        assert(fields_text(z) =~= fields_text(fs) + tag_field(x.0, x.1));
    } else {
        assert(z.drop_first() =~= fs.drop_first().push(x));
        assert(z[0] == fs[0]);
        lemma_fields_text_push(fs.drop_first(), x);
        assert(fields_text(z) =~= fields_text(fs) + tag_field(x.0, x.1));
    }
}

/// The text of two lists of fields, one after the other.
proof fn lemma_fields_text_concat(a: Seq<(nat, Seq<u8>)>, b: Seq<(nat, Seq<u8>)>)
    ensures
        fields_text(a + b) == fields_text(a) + fields_text(b),
    decreases b.len(),
{
    if b.len() == 0 {
        assert(a + b =~= a);
        assert(fields_text(a) + fields_text(b) =~= fields_text(a));
    } else {
        let l = b.last();
        let b2 = b.drop_last();
        assert(b2.push(l) =~= b);
        assert(a + b =~= (a + b2).push(l));
        lemma_fields_text_concat(a, b2);
        lemma_fields_text_push(a + b2, l);
        lemma_fields_text_push(b2, l);
        assert(fields_text(a + b) =~= fields_text(a) + fields_text(b));
    }
}

proof fn lemma_fields_text_one(x: (nat, Seq<u8>))
    ensures
        fields_text(seq![x]) == tag_field(x.0, x.1),
{
    lemma_fields_text_push(Seq::empty(), x);
    assert(Seq::<(nat, Seq<u8>)>::empty().push(x) =~= seq![x]);
    assert(Seq::<u8>::empty() + tag_field(x.0, x.1) =~= tag_field(x.0, x.1));
}

/// The report is the text of its fields.
#[verifier::spinoff_prover]
#[verifier::rlimit(40)]
proof fn lemma_report_fields_text(fill: Fill)
    ensures
        fields_text(report_fields(fill)) == report_bytes(fill),
{
    let fs = report_fields(fill);
    let h0 = seq![fs[0]];
    let h = h0.push(fs[1]);
    let b0 = seq![fs[2]];
    let b1 = b0.push(fs[3]);
    let b2 = b1.push(fs[4]);
    let b3 = b2.push(fs[5]);
    let b4 = b3.push(fs[6]);
    let b5 = b4.push(fs[7]);
    let b6 = b5.push(fs[8]);
    let b7 = b6.push(fs[9]);
    let b8 = b7.push(fs[10]);
    let b9 = b8.push(fs[11]);
    let b10 = b9.push(fs[12]);
    let b11 = b10.push(fs[13]);
    let b12 = b11.push(fs[14]);
    let t = seq![fs[15]];
    assert(fs =~= h + b12 + t);
    lemma_fields_text_concat(h + b12, t);
    lemma_fields_text_concat(h, b12);
    lemma_fields_text_one(fs[15]);
    lemma_fields_text_one(fs[0]);
    lemma_fields_text_push(h0, fs[1]);
    lemma_fields_text_one(fs[2]);
    lemma_fields_text_push(b0, fs[3]);
    lemma_fields_text_push(b1, fs[4]);
    lemma_fields_text_push(b2, fs[5]);
    lemma_fields_text_push(b3, fs[6]);
    lemma_fields_text_push(b4, fs[7]);
    lemma_fields_text_push(b5, fs[8]);
    lemma_fields_text_push(b6, fs[9]);
    lemma_fields_text_push(b7, fs[10]);
    lemma_fields_text_push(b8, fs[11]);
    lemma_fields_text_push(b9, fs[12]);
    lemma_fields_text_push(b10, fs[13]);
    lemma_fields_text_push(b11, fs[14]);
    assert(fields_text(b12) == report_body(fill));
    assert(fields_text(h) == tag_field(8, fix44()) + tag_field(9, dec_str(report_body(fill).len())));
}

#[verifier::spinoff_prover]
#[verifier::rlimit(40)]
proof fn lemma_report_plain(fill: Fill)
    requires
        !fill.taker_clord_id@.take(fill.taker_clord_id_len as int).contains(SOH),
        !fill.symbol@.take(fill.symbol_len as int).contains(SOH),
    ensures
        plain_fields(report_fields(fill)),
{
    let fs = report_fields(fill);
    lemma_dec_str(report_body(fill).len());
    lemma_dec_str(fill.maker_order_id as nat);
    lemma_dec_str(fill.exec_id as nat);
    lemma_dec_str(fill.taker_order_qty as nat);
    lemma_dec_str((fill.taker_order_qty - fill.taker_leaves) as nat);
    lemma_dec_str(fill.taker_leaves as nat);
    lemma_digits_plain(dec_str(report_body(fill).len()));
    lemma_digits_plain(dec_str(fill.maker_order_id as nat));
    lemma_digits_plain(dec_str(fill.exec_id as nat));
    lemma_digits_plain(dec_str(fill.taker_order_qty as nat));
    lemma_digits_plain(dec_str((fill.taker_order_qty - fill.taker_leaves) as nat));
    lemma_digits_plain(dec_str(fill.taker_leaves as nat));
    lemma_price_text_plain(fill.price);
    let c = byte_sum(report_framed(fill)) % 256;
    assert(!three_digits(c).contains(SOH)) by {
        if three_digits(c).contains(SOH) {
            let k = choose|k: int| 0 <= k < 3 && three_digits(c)[k] == SOH;
        }
    }
    assert(!fix44().contains(SOH)) by {
        if fix44().contains(SOH) {
            let k = choose|k: int| 0 <= k < 7 && fix44()[k] == SOH;
        }
    }
    assert(!exec_type(fill).contains(SOH)) by {
        if exec_type(fill).contains(SOH) {
            let k = choose|k: int| 0 <= k < 1 && exec_type(fill)[k] == SOH;
        }
    }
    assert(!seq![56u8].contains(SOH)) by {
        if seq![56u8].contains(SOH) {
            let k = choose|k: int| 0 <= k < 1 && seq![56u8][k] == SOH;
        }
    }
    assert(!seq![fill.side.fix_byte()].contains(SOH)) by {
        if seq![fill.side.fix_byte()].contains(SOH) {
            let k = choose|k: int| 0 <= k < 1 && seq![fill.side.fix_byte()][k] == SOH;
        }
    }
}

/// The last field with `tag` is the only one with it, at index `k`.
proof fn lemma_field_value_unique(fs: Seq<(nat, Seq<u8>)>, tag: u32, k: int)
    requires
        0 <= k < fs.len(),
        fs[k].0 == tag,
        forall|j: int| 0 <= j < fs.len() && j != k ==> (#[trigger] fs[j]).0 != tag,
    ensures
        field_value(fs, tag) == Some(fs[k].1),
    decreases fs.len(),
{
    if k > 0 {
        let r = fs.drop_first();
        assert forall|j: int| 0 <= j < r.len() && j != k - 1 implies (#[trigger] r[j]).0 != tag by {
            assert(r[j] == fs[j + 1]);
        }
        lemma_field_value_unique(r, tag, k - 1);
    } else {
        lemma_field_value_absent(fs.drop_first(), tag);
    }
}

proof fn lemma_field_value_absent(fs: Seq<(nat, Seq<u8>)>, tag: u32)
    requires
        forall|j: int| 0 <= j < fs.len() ==> (#[trigger] fs[j]).0 != tag,
    ensures
        field_value(fs, tag) is None,
    decreases fs.len(),
{
    if fs.len() > 0 {
        let r = fs.drop_first();
        assert forall|j: int| 0 <= j < r.len() implies (#[trigger] r[j]).0 != tag by {
            assert(r[j] == fs[j + 1]);
        }
        lemma_field_value_absent(r, tag);
        assert(fs[0].0 != tag);
    }
}

/// Every execution report the engine writes is read back, field by field, by its own
/// scanner: the message type is `8`; the client order id, symbol, side, price, order
/// quantity, maker order id and execution id are those of the fill; the execution type
/// and order status are both `2` (filled) exactly when the taker has nothing left and
/// `1` (partially filled) otherwise, whatever the maker has left; the cumulative quantity
/// is what the taker has traded and the leaves quantity what it has left; provided the
/// ids hold no field separator.
#[verifier::spinoff_prover]
#[verifier::rlimit(40)]
pub proof fn lemma_report_scans_back(fill: Fill)
    requires
        fill.taker_clord_id_len <= 20,
        fill.symbol_len <= 8,
        fill.taker_leaves <= fill.taker_order_qty,
        !fill.taker_clord_id@.take(fill.taker_clord_id_len as int).contains(SOH),
        !fill.symbol@.take(fill.symbol_len as int).contains(SOH),
    ensures
        crate::fix::scanner::tag_value(report_bytes(fill), 35) == Some(seq![56u8]),
        crate::fix::scanner::tag_value(report_bytes(fill), 11) == Some(
            fill.taker_clord_id@.take(fill.taker_clord_id_len as int),
        ),
        crate::fix::scanner::tag_value(report_bytes(fill), 55) == Some(
            fill.symbol@.take(fill.symbol_len as int),
        ),
        crate::fix::scanner::tag_value(report_bytes(fill), 54) == Some(seq![fill.side.fix_byte()]),
        crate::fix::scanner::tag_value(report_bytes(fill), 44) == Some(price_text(fill.price)),
        crate::fix::scanner::tag_value(report_bytes(fill), 38) == Some(
            dec_str(fill.taker_order_qty as nat),
        ),
        crate::fix::scanner::tag_value(report_bytes(fill), 37) == Some(
            dec_str(fill.maker_order_id as nat),
        ),
        crate::fix::scanner::tag_value(report_bytes(fill), 17) == Some(
            dec_str(fill.exec_id as nat),
        ),
        crate::fix::scanner::tag_value(report_bytes(fill), 150) == Some(
            if fill.taker_leaves == 0 {
                seq![50u8]
            } else {
                seq![49u8]
            },
        ),
        crate::fix::scanner::tag_value(report_bytes(fill), 39) == Some(
            if fill.taker_leaves == 0 {
                seq![50u8]
            } else {
                seq![49u8]
            },
        ),
        crate::fix::scanner::tag_value(report_bytes(fill), 14) == Some(
            dec_str((fill.taker_order_qty - fill.taker_leaves) as nat),
        ),
        crate::fix::scanner::tag_value(report_bytes(fill), 151) == Some(
            dec_str(fill.taker_leaves as nat),
        ),
{
    lemma_report_plain(fill);
    lemma_report_field(fill, 35, 2);
    lemma_report_field(fill, 11, 4);
    lemma_report_field(fill, 55, 8);
    lemma_report_field(fill, 54, 9);
    lemma_report_field(fill, 44, 10);
    lemma_report_field(fill, 38, 11);
    lemma_report_field(fill, 37, 3);
    lemma_report_field(fill, 17, 5);
    lemma_report_field(fill, 150, 6);
    lemma_report_field(fill, 39, 7);
    lemma_report_field(fill, 14, 13);
    lemma_report_field(fill, 151, 14);
}

/// Scanning the report finds, for a tag that only field `k` carries, that field's value.
#[verifier::spinoff_prover]
proof fn lemma_report_field(fill: Fill, tag: u32, k: int)
    requires
        0 <= k < report_fields(fill).len(),
        report_fields(fill)[k].0 == tag,
        forall|j: int|
            0 <= j < report_fields(fill).len() && j != k ==> (#[trigger] report_fields(fill)[j]).0
                != tag,
        plain_fields(report_fields(fill)),
    ensures
        crate::fix::scanner::tag_value(report_bytes(fill), tag) == Some(report_fields(fill)[k].1),
{
    let fs = report_fields(fill);
    lemma_report_fields_text(fill);
    lemma_fields_tag_value(fs, tag);
    lemma_field_value_unique(fs, tag, k);
}


} // verus!
