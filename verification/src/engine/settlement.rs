use crate::lob::orderbook::{Fill, Side};
use vstd::prelude::*;

verus! {

/// The settlement view of one fill: who bought and who sold, at what price and size.
pub struct SettlementReport {
    pub fill_price: i64,
    pub fill_qty: u64,
    pub side: Side,
    pub buyer_order_id: u64,
    pub seller_order_id: u64,
}

/// The report of `fill`: its maker is the buyer where the maker's side is a buy, the
/// seller otherwise; the other id is left at zero.
pub open spec fn report_of(fill: Fill) -> SettlementReport {
    SettlementReport {
        fill_price: fill.price,
        fill_qty: fill.fill_qty,
        side: fill.side,
        buyer_order_id: if fill.side == Side::Buy {
            fill.maker_order_id
        } else {
            0
        },
        seller_order_id: if fill.side == Side::Sell {
            fill.maker_order_id
        } else {
            0
        },
    }
}

pub struct SettlementEngine;

impl SettlementEngine {
    pub fn new() -> (r: Self) {
        SettlementEngine
    }

    /// One report per fill, in order.
    pub fn settle_fills(&self, fills: &[Fill]) -> (r: Vec<SettlementReport>)
        ensures
            r@.len() == fills@.len(),
            forall|i: int| 0 <= i < fills@.len() ==> #[trigger] r@[i] == report_of(fills@[i]),
            forall|i: int|
                0 <= i < fills@.len() ==> (#[trigger] r@[i]).fill_qty == fills@[i].fill_qty
                    && r@[i].fill_price == fills@[i].price && r@[i].side == fills@[i].side,
            forall|i: int|
                0 <= i < fills@.len() ==> (#[trigger] r@[i]).buyer_order_id == (if fills@[i].side
                    == Side::Buy {
                    fills@[i].maker_order_id
                } else {
                    0
                }) && r@[i].seller_order_id == (if fills@[i].side == Side::Sell {
                    fills@[i].maker_order_id
                } else {
                    0
                }),
            settled_qty(r@) == traded_qty(fills@),
    {
        let mut out: Vec<SettlementReport> = Vec::new();
        let mut i: usize = 0;
        while i < fills.len()
            invariant
                i <= fills@.len(),
                out@.len() == i,
                forall|k: int| 0 <= k < i ==> #[trigger] out@[k] == report_of(fills@[k]),
            decreases fills@.len() - i,
        {
            let fill = &fills[i];
            out.push(
                SettlementReport {
                    fill_price: fill.price,
                    fill_qty: fill.fill_qty,
                    side: fill.side,
                    buyer_order_id: if fill.side == Side::Buy {
                        fill.maker_order_id
                    } else {
                        0
                    },
                    seller_order_id: if fill.side == Side::Sell {
                        fill.maker_order_id
                    } else {
                        0
                    },
                },
            );
            i += 1;
        }
        proof {
            lemma_settled_traded(out@, fills@);
        }
        out
    }
}

/// The quantity a list of reports settles.
pub open spec fn settled_qty(rs: Seq<SettlementReport>) -> nat
    decreases rs.len(),
{
    if rs.len() == 0 {
        0
    } else {
        settled_qty(rs.drop_last()) + rs.last().fill_qty as nat
    }
}

/// The quantity a list of fills trades.
pub open spec fn traded_qty(fs: Seq<Fill>) -> nat
    decreases fs.len(),
{
    if fs.len() == 0 {
        0
    } else {
        traded_qty(fs.drop_last()) + fs.last().fill_qty as nat
    }
}

/// Reports that each carry the quantity of their fill settle exactly what was traded.
pub proof fn lemma_settled_traded(rs: Seq<SettlementReport>, fs: Seq<Fill>)
    requires
        rs.len() == fs.len(),
        forall|i: int| 0 <= i < fs.len() ==> (#[trigger] rs[i]).fill_qty == fs[i].fill_qty,
    ensures
        settled_qty(rs) == traded_qty(fs),
    decreases fs.len(),
{
    if fs.len() > 0 {
        assert forall|i: int| 0 <= i < fs.drop_last().len() implies (
        #[trigger] rs.drop_last()[i]).fill_qty == fs.drop_last()[i].fill_qty by {
            assert(rs.drop_last()[i] == rs[i]);
        }
        lemma_settled_traded(rs.drop_last(), fs.drop_last());
        assert(rs.last().fill_qty == fs.last().fill_qty);
    }
}

} // verus!
