//! The mathematical model of a book side: a sequence of price levels, best
//! level first, each a FIFO of resting orders; and the matching rules over it.
use vstd::prelude::*;
use crate::types::{Order, OrderSide, TimeInForce, Trade};

verus! {

/// One price level as a value: its tick and its queue, oldest order first.
pub struct LevelView {
    pub price_tick: u64,
    pub orders: Seq<Order>,
}

/// Whether tick `a` ranks strictly before tick `b` on a side with the given
/// polarity (higher ticks first for bids, lower first for asks).
pub open spec fn better(higher_is_better: bool, a: u64, b: u64) -> bool {
    if higher_is_better {
        a > b
    } else {
        a < b
    }
}

/// The order side that a book side of the given polarity holds.
pub open spec fn side_of(higher_is_better: bool) -> OrderSide {
    if higher_is_better {
        OrderSide::Bid
    } else {
        OrderSide::Ask
    }
}

/// Sum of the open quantities of a queue.
pub open spec fn sum_residuals(s: Seq<Order>) -> int
    decreases s.len(),
{
    if s.len() == 0 {
        0
    } else {
        s[0].residual() + sum_residuals(s.drop_first())
    }
}

/// Number of orders resting on a side.
pub open spec fn count_orders(levels: Seq<LevelView>) -> int
    decreases levels.len(),
{
    if levels.len() == 0 {
        0
    } else {
        levels[0].orders.len() + count_orders(levels.drop_first())
    }
}

/// A resting order as it may stand in a level at `tick` on `side`.
pub open spec fn resting_ok(o: Order, tick: u64, side: OrderSide) -> bool {
    &&& o.price_tick == tick
    &&& o.side == side
    &&& o.quantity_filled < o.quantity
    &&& !o.is_cancelled
    &&& o.time_in_force == TimeInForce::GTC
}

/// A stored level: a positive tick, a non-empty queue of live orders at that
/// tick in order of arrival, and an open quantity that fits a `u64`.
pub open spec fn level_wf(l: LevelView, side: OrderSide) -> bool {
    &&& l.price_tick > 0
    &&& l.orders.len() > 0
    &&& sum_residuals(l.orders) <= u64::MAX
    &&& forall|j: int| 0 <= j < l.orders.len() ==> resting_ok(#[trigger] l.orders[j], l.price_tick, side)
    &&& forall|j: int, k: int|
        0 <= j < k < l.orders.len() ==> (#[trigger] l.orders[j]).id < (#[trigger] l.orders[k]).id
}

/// Levels strictly ordered best first, each of them well formed.
pub open spec fn levels_wf(levels: Seq<LevelView>, higher_is_better: bool) -> bool {
    &&& forall|i: int, j: int|
        0 <= i < j < levels.len() ==> better(
            higher_is_better,
            (#[trigger] levels[i]).price_tick,
            (#[trigger] levels[j]).price_tick,
        )
    &&& forall|i: int| 0 <= i < levels.len() ==> level_wf(#[trigger] levels[i], side_of(higher_is_better))
}

/// Whether a taker may trade with a maker resting at `tick`: a market order
/// takes any price, a limit bid takes asks at or below its price, a limit ask
/// takes bids at or above it.
pub open spec fn crosses(taker: Order, tick: u64) -> bool {
    taker.price_tick == 0 || match taker.side {
        OrderSide::Bid => tick <= taker.price_tick,
        OrderSide::Ask => tick >= taker.price_tick,
    }
}

pub open spec fn min_int(a: int, b: int) -> int {
    if a <= b {
        a
    } else {
        b
    }
}

/// The trade between a taker and a maker for `q` at the maker's price.
pub open spec fn make_trade(taker: Order, maker: Order, q: int, id: int, ts: u64) -> Trade {
    Trade {
        id: id as u64,
        taker_order_id: taker.id,
        maker_order_id: maker.id,
        taker_user_id: taker.user_id,
        maker_user_id: maker.user_id,
        quantity: q as u64,
        price_tick: maker.price_tick,
        timestamp: ts,
    }
}

/// The level with its queue replaced.
pub open spec fn with_orders(l: LevelView, orders: Seq<Order>) -> LevelView {
    LevelView { price_tick: l.price_tick, orders }
}

/// Matching a taker against the levels of the opposite side, best level
/// first and oldest order first within a level. Returns the levels left, the
/// taker with its fills, and the trades in the order they happen; trade ids
/// are numbered from `next_id`.
pub open spec fn match_levels(levels: Seq<LevelView>, taker: Order, next_id: int, ts: u64) -> (
    Seq<LevelView>,
    Order,
    Seq<Trade>,
)
    decreases levels.len(), levels[0].orders.len(),
{
    if levels.len() == 0 || taker.residual() <= 0 || !crosses(taker, levels[0].price_tick) {
        (levels, taker, Seq::empty())
    } else if levels[0].orders.len() == 0 {
        match_levels(levels.drop_first(), taker, next_id, ts)
    } else {
        let maker = levels[0].orders[0];
        let q = min_int(taker.residual(), maker.residual());
        let trade = make_trade(taker, maker, q, next_id, ts);
        let taker2 = taker.filled_by(q);
        let maker2 = maker.filled_by(q);
        if maker2.residual() > 0 {
            (
                levels.update(0, with_orders(levels[0], levels[0].orders.update(0, maker2))),
                taker2,
                seq![trade],
            )
        } else {
            let rest = levels[0].orders.drop_first();
            let levels2 = if rest.len() == 0 {
                levels.drop_first()
            } else {
                levels.update(0, with_orders(levels[0], rest))
            };
            let r = match_levels(levels2, taker2, next_id + 1, ts);
            (r.0, r.1, seq![trade] + r.2)
        }
    }
}

/// Open quantity available to a taker: the levels from the best one on, as
/// long as they cross the taker's price.
pub open spec fn crossing_quantity(levels: Seq<LevelView>, taker: Order) -> int
    decreases levels.len(),
{
    if levels.len() == 0 || !crosses(taker, levels[0].price_tick) {
        0
    } else {
        sum_residuals(levels[0].orders) + crossing_quantity(levels.drop_first(), taker)
    }
}

/// The levels with `o` appended to the queue of its tick, or with a new
/// level for it at its rank.
pub open spec fn insert_resting(levels: Seq<LevelView>, o: Order, higher_is_better: bool) -> Seq<LevelView>
    decreases levels.len(),
{
    if levels.len() == 0 {
        seq![LevelView { price_tick: o.price_tick, orders: seq![o] }]
    } else if levels[0].price_tick == o.price_tick {
        levels.update(0, with_orders(levels[0], levels[0].orders.push(o)))
    } else if better(higher_is_better, o.price_tick, levels[0].price_tick) {
        seq![LevelView { price_tick: o.price_tick, orders: seq![o] }] + levels
    } else {
        seq![levels[0]] + insert_resting(levels.drop_first(), o, higher_is_better)
    }
}

} // verus!
