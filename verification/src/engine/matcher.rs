use crate::fix::scanner::{opt_bytes, parse_u64, spec_parse_decimal, FixMessage};
use crate::lob::orderbook::{
    padded, parse_price, parse_price_checked, spec_price, Fill, LimitOrderBook, Order, Side,
    LEVEL_ARENA_CAP, ORDER_ARENA_CAP,
};
use std::collections::HashMap;
use vstd::bytes::{
    lemma_auto_spec_u64_to_from_le_bytes, spec_u64_from_le_bytes, spec_u64_to_le_bytes,
    u64_from_le_bytes,
};
use vstd::prelude::*;

verus! {

broadcast use vstd::std_specs::hash::group_hash_axioms;

/// Routes new orders to one limit order book per symbol and numbers orders and
/// executions across all of them.
pub struct MatchingEngine {
    books: HashMap<u64, LimitOrderBook>,
    next_order_id: u64,
    next_exec_id: u64,
}

/// `UNKNOWN`, the client order id of an order that carries none.
pub open spec fn unknown_id() -> Seq<u8> {
    seq![85u8, 78u8, 75u8, 78u8, 79u8, 87u8, 78u8]
}

/// The key of the book of `symbol`: its first eight bytes, zero-padded, read as a
/// little-endian number.
pub open spec fn book_key(symbol: Seq<u8>) -> u64 {
    spec_u64_from_le_bytes(padded(symbol, 8))
}

/// Symbols that differ in their first eight bytes have different books.
pub proof fn lemma_book_key_distinct(a: Seq<u8>, b: Seq<u8>)
    requires
        padded(a, 8) != padded(b, 8),
    ensures
        book_key(a) != book_key(b),
{
    lemma_auto_spec_u64_to_from_le_bytes();
    assert(spec_u64_to_le_bytes(spec_u64_from_le_bytes(padded(a, 8))) == padded(a, 8));
    assert(spec_u64_to_le_bytes(spec_u64_from_le_bytes(padded(b, 8))) == padded(b, 8));
}

/// The side, symbol and price text of `msg` where it is a new order single (35=D)
/// with a one-byte side of 1 or 2, a symbol and a price.
pub open spec fn order_head(msg: FixMessage) -> Option<(Side, Seq<u8>, Seq<u8>)> {
    match (opt_bytes(msg.msg_type), opt_bytes(msg.side), opt_bytes(msg.symbol), opt_bytes(msg.price)) {
        (Some(mt), Some(sd), Some(sym), Some(p)) => if mt == seq![68u8] && sd.len() == 1 && (sd[0]
            == 49 || sd[0] == 50) {
            Some(
                (
                    if sd[0] == 49 {
                        Side::Buy
                    } else {
                        Side::Sell
                    },
                    sym,
                    p,
                ),
            )
        } else {
            None
        },
        _ => None,
    }
}

/// The order quantity of `msg`, where it is a decimal that fits in 64 bits.
pub open spec fn order_qty(msg: FixMessage) -> Option<u64> {
    match opt_bytes(msg.order_qty) {
        Some(q) => match spec_parse_decimal(q, u64::MAX as nat) {
            Some(v) => Some(v as u64),
            None => None,
        },
        None => None,
    }
}

/// The client order id of `msg`, `UNKNOWN` where it has none.
pub open spec fn order_clord_id(msg: FixMessage) -> Seq<u8> {
    match opt_bytes(msg.clord_id) {
        Some(c) => c,
        None => unknown_id(),
    }
}

impl MatchingEngine {
    /// The books, by `book_key` of their symbol.
    pub closed spec fn books_map(&self) -> Map<u64, LimitOrderBook> {
        self.books@
    }

    /// The order id that the next order gets.
    pub closed spec fn order_ids(&self) -> u64 {
        self.next_order_id
    }

    /// The exec id that the next execution gets.
    pub closed spec fn exec_ids(&self) -> u64 {
        self.next_exec_id
    }

    /// Every book is well formed and uncrossed.
    pub open spec fn wf(&self) -> bool {
        forall|k: u64| #[trigger]
            self.books_map().contains_key(k) ==> self.books_map()[k].wf()
                && self.books_map()[k].uncrossed()
    }

    /// `b` is the book that an order for the book `key` is matched against: the book that
    /// is there, or an empty one, with the engine's id counters.
    pub open spec fn prepared(&self, key: u64, b: LimitOrderBook) -> bool {
        &&& b.wf()
        &&& if self.books_map().contains_key(key) {
            b == LimitOrderBook {
                next_order_id: self.order_ids(),
                next_exec_id: self.exec_ids(),
                ..self.books_map()[key]
            }
        } else {
            &&& b.next_order_id == self.order_ids()
            &&& b.next_exec_id == self.exec_ids()
            &&& b.seq == 0
            &&& b.order_arena@ == Map::<u32, Order>::empty()
            &&& b.bids@ == Map::<u32, (i64, u32, u32, u64)>::empty()
            &&& b.asks@ == Map::<u32, (i64, u32, u32, u64)>::empty()
            &&& b.bid_queues@ == Map::<i64, Seq<u32>>::empty()
            &&& b.ask_queues@ == Map::<i64, Seq<u32>>::empty()
            &&& b.order_arena.spec_capacity() == ORDER_ARENA_CAP
            &&& b.bids.spec_capacity() == LEVEL_ARENA_CAP
            &&& b.asks.spec_capacity() == LEVEL_ARENA_CAP
        }
    }

    /// The engine can take `msg` without running out of ids, capacity or range: its
    /// price fits in 64 bits, and its book has room for the order.
    pub open spec fn accepts(&self, msg: FixMessage) -> bool {
        match order_head(msg) {
            None => true,
            Some(h) => spec_price(h.2) <= i64::MAX && (order_qty(msg) is Some ==> forall|
                b: LimitOrderBook,
            |
                #[trigger] self.prepared(book_key(h.1), b) ==> b.submit_fits(
                    h.0,
                    spec_price(h.2) as i64,
                    order_qty(msg).unwrap(),
                )),
        }
    }

    /// What processing `msg` did: `e0` is the engine before, `e1` after, `fills` what it
    /// returned. A message that is not a valid new order changes nothing; a new order is
    /// submitted to the book of its symbol (an empty one on first use) with the engine's
    /// id counters, which then continue from that book's.
    pub open spec fn processed(
        e0: MatchingEngine,
        e1: MatchingEngine,
        msg: FixMessage,
        fills: Seq<Fill>,
    ) -> bool {
        &&& (order_head(msg) is None || order_qty(msg) is None) ==> fills.len() == 0
            && e1.books_map() == e0.books_map() && e1.order_ids() == e0.order_ids()
            && e1.exec_ids() == e0.exec_ids()
        &&& order_head(msg) is Some && order_qty(msg) is Some ==> {
            let (side, sym, p) = order_head(msg).unwrap();
            let q = order_qty(msg).unwrap();
            let key = book_key(sym);
            let b1 = e1.books_map()[key];
            &&& e1.books_map().contains_key(key)
            &&& e1.books_map() == e0.books_map().insert(key, b1)
            &&& exists|b0: LimitOrderBook| #[trigger]
                e0.prepared(key, b0) && LimitOrderBook::submitted(
                    b0,
                    b1,
                    fills,
                    order_clord_id(msg),
                    sym,
                    side,
                    spec_price(p) as i64,
                    q,
                )
            &&& e1.order_ids() == b1.next_order_id
            &&& e1.exec_ids() == b1.next_exec_id
        }
    }

    /// Processing a message touches only the book of the message's own symbol: the book
    /// of any symbol that differs from it in its first eight bytes is left as it was.
    pub proof fn lemma_other_books_untouched(
        e0: MatchingEngine,
        e1: MatchingEngine,
        msg: FixMessage,
        fills: Seq<Fill>,
        other: Seq<u8>,
    )
        requires
            Self::processed(e0, e1, msg, fills),
            order_head(msg) matches Some(h) ==> padded(h.1, 8) != padded(other, 8),
        ensures
            e1.books_map().contains_key(book_key(other)) == e0.books_map().contains_key(
                book_key(other),
            ),
            e1.books_map()[book_key(other)] == e0.books_map()[book_key(other)],
    {
        if order_head(msg) is Some {
            lemma_book_key_distinct(order_head(msg).unwrap().1, other);
        }
    }

    /// Only a new order single is an order: a message whose type (tag 35) is anything
    /// but `D` has no order head, so the engine takes it whatever it holds, and
    /// processing it returns no fills and leaves the books and id counters as they were.
    pub proof fn lemma_only_new_orders(
        e0: MatchingEngine,
        e1: MatchingEngine,
        msg: FixMessage,
        fills: Seq<Fill>,
    )
        requires
            Self::processed(e0, e1, msg, fills),
            opt_bytes(msg.msg_type) != Some(seq![68u8]),
        ensures
            order_head(msg) is None,
            e0.accepts(msg),
            fills.len() == 0,
            e1.books_map() == e0.books_map(),
            e1.order_ids() == e0.order_ids(),
            e1.exec_ids() == e0.exec_ids(),
    {
    }

    pub fn new() -> (e: Self)
        ensures
            e.wf(),
            e.books_map() == Map::<u64, LimitOrderBook>::empty(),
            e.order_ids() == 1,
            e.exec_ids() == 1,
    {
        MatchingEngine { books: HashMap::new(), next_order_id: 1, next_exec_id: 1 }
    }

    /// The book of `symbol`, made empty on first use.
    #[allow(dead_code)]
    fn get_or_create_book(&mut self, symbol: &[u8]) -> (book: &mut LimitOrderBook)
        ensures
            old(self).books_map().contains_key(book_key(symbol@)) ==> *book == old(
                self,
            ).books_map()[book_key(symbol@)],
            !old(self).books_map().contains_key(book_key(symbol@)) ==> book.wf()
                && book.bids_model() == Map::<i64, Seq<Order>>::empty()
                && book.asks_model() == Map::<i64, Seq<Order>>::empty()
                && book.order_arena@ == Map::<u32, Order>::empty(),
            final(self).books_map() == old(self).books_map().insert(book_key(symbol@), *final(book)),
            final(self).order_ids() == old(self).order_ids(),
            final(self).exec_ids() == old(self).exec_ids(),
    {
        let key = book_key_of(symbol);
        match self.books.entry(key) {
            std::collections::hash_map::Entry::Occupied(o) => o.into_mut(),
            std::collections::hash_map::Entry::Vacant(v) => v.insert(LimitOrderBook::new()),
        }
    }

    /// The book of `symbol`, if an order for it was ever processed.
    pub fn book(&self, symbol: &[u8]) -> (r: Option<&LimitOrderBook>)
        ensures
            r == (if self.books_map().contains_key(book_key(symbol@)) {
                Some(&self.books_map()[book_key(symbol@)])
            } else {
                None
            }),
    {
        let key = book_key_of(symbol);
        self.books.get(&key)
    }

    /// Processes one FIX message: a valid new order single (35=D) is submitted to the
    /// book of its symbol, made on first use; every other message is ignored. Returns
    /// the fills.
    pub fn process_fix_message(&mut self, msg: &FixMessage) -> (fills: Vec<Fill>)
        requires
            old(self).wf(),
            old(self).accepts(*msg),
        ensures
            final(self).wf(),
            Self::processed(*old(self), *final(self), *msg, fills@),
            opt_bytes(msg.msg_type) != Some(seq![68u8]) ==> fills@.len() == 0
                && final(self).books_map() == old(self).books_map() && final(self).order_ids()
                == old(self).order_ids() && final(self).exec_ids() == old(self).exec_ids(),
    {
        let msg_type = match msg.msg_type {
            Some(mt) => mt,
            None => {
                return Vec::new();
            },
        };
        if msg_type.len() != 1 || msg_type[0] != 68 {
            proof {
                if msg_type@.len() == 1 {
                    assert(msg_type@ != seq![68u8]);
                }
            }
            return Vec::new();
        }
        proof {
            assert(msg_type@ == seq![68u8]);
        }
        let side = match msg.side {
            Some(s) => {
                if s.len() == 1 {
                    match Side::from_byte(s[0]) {
                        Some(sd) => sd,
                        None => {
                            return Vec::new();
                        },
                    }
                } else {
                    return Vec::new();
                }
            },
            None => {
                return Vec::new();
            },
        };
        let symbol = match msg.symbol {
            Some(s) => s,
            None => {
                return Vec::new();
            },
        };
        let price_raw = match msg.price {
            Some(p) => p,
            None => {
                return Vec::new();
            },
        };
        let price = parse_price(price_raw);
        let qty = match msg.order_qty {
            Some(q) => match parse_u64(q) {
                Some(v) => v,
                None => {
                    return Vec::new();
                },
            },
            None => {
                return Vec::new();
            },
        };
        let unknown = [85u8, 78u8, 75u8, 78u8, 79u8, 87u8, 78u8];
        let clord_id: &[u8] = match msg.clord_id {
            Some(c) => c,
            None => unknown.as_slice(),
        };
        proof {
            assert(unknown@ =~= unknown_id());
            assert(clord_id@ == order_clord_id(*msg));
        }
        let key = book_key_of(symbol);
        let oid = self.next_order_id;
        let eid = self.next_exec_id;
        let ghost e0 = *self;
        let book: &mut LimitOrderBook = match self.books.entry(key) {
            std::collections::hash_map::Entry::Occupied(o) => o.into_mut(),
            std::collections::hash_map::Entry::Vacant(v) => v.insert(LimitOrderBook::new()),
        };
        let ghost pre = *book;
        proof {
            if e0.books_map().contains_key(key) {
                assert(pre == e0.books_map()[key]);
            }
            assert(pre.wf());
            assert(pre.uncrossed());
        }
        book.next_order_id = oid;
        book.next_exec_id = eid;
        let ghost b0 = *book;
        proof {
            assert(b0.bids_model() == pre.bids_model());
            assert(b0.asks_model() == pre.asks_model());
            assert(e0 == *old(self));
            assert(e0.prepared(key, b0));
            assert(order_head(*msg) == Some((side, symbol@, price_raw@)));
            assert(order_qty(*msg) == Some(qty));
            lemma_accepts_order(*old(self), *msg, side, symbol@, price_raw@, qty, b0);
            assert(b0.submit_fits(side, spec_price(price_raw@) as i64, qty));
            assert(b0.uncrossed());
        }
        let fills = book.submit_order(clord_id, symbol, side, price, qty);
        proof {
            LimitOrderBook::lemma_submit_keeps_uncrossed(
                b0,
                *book,
                fills@,
                clord_id@,
                symbol@,
                side,
                price,
                qty,
            );
        }
        let ghost b1 = *book;
        let (next_oid, next_eid) = (book.next_order_id, book.next_exec_id);
        self.next_order_id = next_oid;
        self.next_exec_id = next_eid;
        proof {
            assert(self.books@ =~= e0.books@.insert(key, b1));
            assert(self.books_map()[key] == b1);
            let h = order_head(*msg).unwrap();
            assert(h.0 == side && h.1 == symbol@ && h.2 == price_raw@);
            assert(order_qty(*msg).unwrap() == qty);
            assert(old(self).prepared(key, b0) && LimitOrderBook::submitted(
                b0,
                b1,
                fills@,
                order_clord_id(*msg),
                symbol@,
                side,
                spec_price(price_raw@) as i64,
                qty,
            ));
            assert forall|k: u64| #[trigger] self.books_map().contains_key(k) implies self.books_map()[k].wf()
                && self.books_map()[k].uncrossed() by {
                if k != key {
                    assert(e0.books_map().contains_key(k));
                }
            }
        }
        fills
    }

    /// A check, made before `process_fix_message`, of exactly `accepts`.
    pub fn can_process(&self, msg: &FixMessage) -> (r: bool)
        requires
            self.wf(),
        ensures
            r == self.accepts(*msg),
            opt_bytes(msg.msg_type) != Some(seq![68u8]) ==> r,
    {
        let msg_type = match msg.msg_type {
            Some(mt) => mt,
            None => {
                return true;
            },
        };
        if msg_type.len() != 1 || msg_type[0] != 68 {
            proof {
                if msg_type@.len() == 1 {
                    assert(msg_type@ != seq![68u8]);
                }
            }
            return true;
        }
        proof {
            assert(msg_type@ == seq![68u8]);
        }
        let side = match msg.side {
            Some(s) => {
                if s.len() == 1 {
                    match Side::from_byte(s[0]) {
                        Some(sd) => sd,
                        None => {
                            return true;
                        },
                    }
                } else {
                    return true;
                }
            },
            None => {
                return true;
            },
        };
        let symbol = match msg.symbol {
            Some(s) => s,
            None => {
                return true;
            },
        };
        let price_raw = match msg.price {
            Some(p) => p,
            None => {
                return true;
            },
        };
        let price = match parse_price_checked(price_raw) {
            Some(v) => v,
            None => {
                return false;
            },
        };
        proof {
            assert(order_head(*msg) == Some((side, symbol@, price_raw@)));
            let h = order_head(*msg).unwrap();
            assert(h.0 == side && h.1 == symbol@ && h.2 == price_raw@);
        }
        let qty = match msg.order_qty {
            Some(q) => match parse_u64(q) {
                Some(v) => v,
                None => {
                    return true;
                },
            },
            None => {
                return true;
            },
        };
        proof {
            assert(order_qty(*msg).unwrap() == qty);
        }
        let key = book_key_of(symbol);
        match self.books.get(&key) {
            Some(book) => {
                proof {
                    assert(self.books_map().contains_key(key));
                    assert(*book == self.books_map()[key]);
                }
                let ok = book.can_accept(self.next_order_id, self.next_exec_id, side, price, qty);
                proof {
                    let b = LimitOrderBook {
                        next_order_id: self.next_order_id,
                        next_exec_id: self.next_exec_id,
                        ..*book
                    };
                    assert(self.prepared(key, b));
                    if ok {
                        assert forall|b2: LimitOrderBook| #[trigger]
                            self.prepared(key, b2) implies b2.submit_fits(side, price, qty) by {}
                    }
                }
                ok
            },
            None => {
                let ok = self.next_order_id < u64::MAX;
                proof {
                    if ok {
                        assert forall|b: LimitOrderBook| #[trigger]
                            self.prepared(key, b) implies b.submit_fits(side, price, qty) by {
                            lemma_fresh_fits(b, side, price, qty);
                        }
                    }
                }
                if !ok {
                    let fresh = LimitOrderBook::new();
                    proof {
                        let b = LimitOrderBook {
                            next_order_id: self.next_order_id,
                            next_exec_id: self.next_exec_id,
                            ..fresh
                        };
                        assert(self.prepared(key, b));
                        assert(!b.submit_fits(side, price, qty));
                    }
                }
                ok
            },
        }
    }
}

proof fn lemma_accepts_order(
    e: MatchingEngine,
    msg: FixMessage,
    side: Side,
    sym: Seq<u8>,
    p: Seq<u8>,
    q: u64,
    b: LimitOrderBook,
)
    requires
        e.accepts(msg),
        order_head(msg) == Some((side, sym, p)),
        order_qty(msg) == Some(q),
        e.prepared(book_key(sym), b),
    ensures
        spec_price(p) <= i64::MAX,
        b.submit_fits(side, spec_price(p) as i64, q),
{
    let h = order_head(msg).unwrap();
    assert(h.0 == side && h.1 == sym && h.2 == p);
    assert(order_qty(msg).unwrap() == q);
}

/// An empty book with an order id below the maximum takes any order.
proof fn lemma_fresh_fits(b: LimitOrderBook, side: Side, price: i64, qty: u64)
    requires
        b.wf(),
        b.next_order_id < u64::MAX,
        b.seq == 0,
        b.next_exec_id <= u64::MAX,
        b.order_arena@ == Map::<u32, Order>::empty(),
        b.bids@ == Map::<u32, (i64, u32, u32, u64)>::empty(),
        b.asks@ == Map::<u32, (i64, u32, u32, u64)>::empty(),
        b.bid_queues@ == Map::<i64, Seq<u32>>::empty(),
        b.ask_queues@ == Map::<i64, Seq<u32>>::empty(),
        b.order_arena.spec_capacity() == ORDER_ARENA_CAP,
        b.bids.spec_capacity() == LEVEL_ARENA_CAP,
        b.asks.spec_capacity() == LEVEL_ARENA_CAP,
    ensures
        b.submit_fits(side, price, qty),
{
    b.bids.lemma_levels();
    b.asks.lemma_levels();
    assert(b.bids_model() =~= Map::<i64, Seq<Order>>::empty());
    assert(b.asks_model() =~= Map::<i64, Seq<Order>>::empty());
    assert(!b.order_arena@.contains_key(0u32));
    assert(!b.bids.arena@.contains_key(0u32));
    assert(!b.asks.arena@.contains_key(0u32));
    assert(b.taker_run(side, price, qty).0.len() == 0);
}

/// The first eight bytes of `sym`, zero-padded: the key of its book.
pub fn symbol_key(sym: &[u8]) -> (key: [u8; 8])
    ensures
        key@ == padded(sym@, 8),
{
    let mut key = [0u8; 8];
    let len: usize = if sym.len() < 8 {
        sym.len()
    } else {
        8
    };
    let mut i: usize = 0;
    while i < len
        invariant
            len <= 8,
            len <= sym@.len(),
            len == sym@.len() || len == 8,
            i <= len,
            key@.len() == 8,
            forall|j: int| 0 <= j < 8 ==> #[trigger] key@[j] == (if j < i {
                sym@[j]
            } else {
                0u8
            }),
        decreases len - i,
    {
        key[i] = sym[i];
        i += 1;
    }
    proof {
        assert(key@ =~= padded(sym@, 8));
    }
    key
}

/// The book key of `symbol`.
fn book_key_of(symbol: &[u8]) -> (k: u64)
    ensures
        k == book_key(symbol@),
{
    let key = symbol_key(symbol);
    u64_from_le_bytes(key.as_slice())
}

} // verus!
