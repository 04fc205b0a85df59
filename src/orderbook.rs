//! The per-symbol order book: two sides, order and trade numbering, and the
//! intake, matching, cancellation and depth operations.
use vstd::prelude::*;
use crate::model::{
    count_orders, crossing_quantity, insert_resting, levels_wf, match_levels, sum_residuals,
    LevelView,
};
use crate::ids::{distinct, flatten, ids};
use crate::side::{depth_lines, holds_at, holds_order, without_order, DepthLevel, OrderbookSide};
use crate::types::{opposite, Order, OrderSide, TimeInForce, Trade};

verus! {

/// Depth summary of both sides: bids best (highest) first, asks best
/// (lowest) first.
pub struct OrderBookDepth {
    pub bids: Vec<DepthLevel>,
    pub asks: Vec<DepthLevel>,
}

/// The book as a value.
pub struct BookView {
    pub symbol: Seq<char>,
    pub tick_multiplier: u64,
    /// Bid levels, highest tick first.
    pub bids: Seq<LevelView>,
    /// Ask levels, lowest tick first.
    pub asks: Seq<LevelView>,
    /// The id the next order gets.
    pub next_order_id: u64,
    /// The id the next trade gets.
    pub next_trade_id: u64,
}

impl BookView {
    /// The levels of one side.
    pub open spec fn side(self, side: OrderSide) -> Seq<LevelView> {
        match side {
            OrderSide::Bid => self.bids,
            OrderSide::Ask => self.asks,
        }
    }

    /// The book with the levels of one side replaced.
    pub open spec fn with_side(self, side: OrderSide, levels: Seq<LevelView>) -> BookView {
        match side {
            OrderSide::Bid => BookView { bids: levels, ..self },
            OrderSide::Ask => BookView { asks: levels, ..self },
        }
    }

    /// Number of resting orders on both sides.
    pub open spec fn resting_count(self) -> int {
        count_orders(self.bids) + count_orders(self.asks)
    }

    /// A positive tick multiplier; both sides well formed; every resting
    /// order has an id already given out, and no two resting orders share
    /// an id.
    pub open spec fn wf(self) -> bool {
        &&& self.tick_multiplier > 0
        &&& distinct(ids(flatten(self.bids)) + ids(flatten(self.asks)))
        &&& levels_wf(self.bids, true)
        &&& levels_wf(self.asks, false)
        &&& forall|i: int, j: int| holds_at(self.bids, i, j) ==> (#[trigger] self.bids[i].orders[j]).id < self.next_order_id
        &&& forall|i: int, j: int| holds_at(self.asks, i, j) ==> (#[trigger] self.asks[i].orders[j]).id < self.next_order_id
    }

    /// The counters and the level at `price_tick` have room for one more
    /// order of `quantity` on `side`, whatever it trades.
    pub open spec fn has_room(self, side: OrderSide, price_tick: u64, quantity: u64) -> bool {
        &&& self.next_order_id < u64::MAX
        &&& self.next_trade_id + self.resting_count() < u64::MAX
        &&& forall|i: int|
            0 <= i < self.side(side).len() && (#[trigger] self.side(side)[i]).price_tick == price_tick
                ==> sum_residuals(self.side(side)[i].orders) + quantity <= u64::MAX
    }

    /// Whether the book holds a resting order with this id.
    pub open spec fn holds_id(self, id: u64) -> bool {
        (exists|i: int, j: int| holds_at(self.bids, i, j) && (#[trigger] self.bids[i].orders[j]).id == id)
        || (exists|i: int, j: int| holds_at(self.asks, i, j) && (#[trigger] self.asks[i].orders[j]).id == id)
    }
}

/// The polarity of the book side that holds `side`.
pub open spec fn higher_is_better(side: OrderSide) -> bool {
    side == OrderSide::Bid
}

/// What `add_order` does, at intake time `ts`: the order it reports, the
/// trades, and the book after. Every call uses up one order id.
pub open spec fn add_order_spec(
    book: BookView,
    user_id: u64,
    price_tick: u64,
    quantity: u64,
    side: OrderSide,
    tif: TimeInForce,
    ts: u64,
) -> (Option<Order>, Seq<Trade>, BookView) {
    let book1 = BookView { next_order_id: (book.next_order_id + 1) as u64, ..book };
    let opp = book.side(opposite(side));
    let order = Order {
        id: book.next_order_id,
        user_id,
        price_tick,
        quantity,
        quantity_filled: 0,
        side,
        time_in_force: tif,
        timestamp: ts,
        is_cancelled: false,
    };
    if opp.len() == 0 && tif != TimeInForce::GTC {
        (None, Seq::empty(), book1)
    } else if tif == TimeInForce::FOK && crossing_quantity(opp, order) < quantity {
        (None, Seq::empty(), book1)
    } else {
        let m = match_levels(opp, order, book.next_trade_id as int, ts);
        let taker = m.1;
        let trades = m.2;
        let book2 = BookView {
            next_trade_id: (book.next_trade_id + trades.len()) as u64,
            ..book1.with_side(opposite(side), m.0)
        };
        if taker.residual() > 0 {
            match tif {
                TimeInForce::GTC => if price_tick > 0 {
                    (
                        Some(taker),
                        trades,
                        book2.with_side(
                            side,
                            insert_resting(book.side(side), taker, higher_is_better(side)),
                        ),
                    )
                } else if trades.len() == 0 {
                    (None, trades, book2)
                } else {
                    (Some(taker), trades, book2)
                },
                _ => (None, trades, book2),
            }
        } else {
            (Some(taker), trades, book2)
        }
    }
}

/// Whether position (`i`, `j`) of the levels holds order `id` at `tick`.
pub open spec fn is_at(levels: Seq<LevelView>, tick: u64, id: u64, i: int, j: int) -> bool {
    holds_at(levels, i, j) && levels[i].price_tick == tick && levels[i].orders[j].id == id
}

/// Whether the levels hold order `id` at `tick`.
pub open spec fn has_order_at(levels: Seq<LevelView>, tick: u64, id: u64) -> bool {
    exists|i: int, j: int| #[trigger] is_at(levels, tick, id, i, j)
}

/// The position of order `id` at `tick`, when the levels hold it.
pub open spec fn position_of(levels: Seq<LevelView>, tick: u64, id: u64) -> (int, int) {
    choose|i: int, j: int| #[trigger] is_at(levels, tick, id, i, j)
}

/// What `cancel_order` does: whether it cancels, and the book after.
pub open spec fn cancel_spec(book: BookView, order_id: u64, price_tick: u64, side: OrderSide) -> (
    bool,
    BookView,
) {
    let levels = book.side(side);
    if has_order_at(levels, price_tick, order_id) {
        let ij = position_of(levels, price_tick, order_id);
        (true, book.with_side(side, without_order(levels, ij.0, ij.1)))
    } else {
        (false, book)
    }
}

/// In well-formed levels an order id at a tick stands at one position only.
pub proof fn lemma_position_unique(
    levels: Seq<LevelView>,
    hib: bool,
    tick: u64,
    id: u64,
    i: int,
    j: int,
    i2: int,
    j2: int,
)
    requires
        levels_wf(levels, hib),
        is_at(levels, tick, id, i, j),
        is_at(levels, tick, id, i2, j2),
    ensures
        i == i2 && j == j2,
{
    if i != i2 {
        if i < i2 {
            assert(crate::model::better(hib, levels[i].price_tick, levels[i2].price_tick));
        } else {
            assert(crate::model::better(hib, levels[i2].price_tick, levels[i].price_tick));
        }
    }
    assert(crate::model::level_wf(levels[i], crate::model::side_of(hib)));
    if j < j2 {
        assert(levels[i].orders[j].id < levels[i].orders[j2].id);
    } else if j2 < j {
        assert(levels[i].orders[j2].id < levels[i].orders[j].id);
    }
}

/// Relies on `std::time::UNIX_EPOCH.elapsed()`: the wall clock's time since
/// the Unix epoch, here in milliseconds (0 for a clock set before it).
/// Nothing is assumed of the value.
#[verifier::external_body]
fn get_current_timestamp() -> u64 {
    match std::time::UNIX_EPOCH.elapsed() {
        Ok(d) => d.as_millis() as u64,
        Err(_) => 0,
    }
}

pub struct OrderBook {
    symbol: String,
    /// Ask side: lower ticks are better.
    ask_side: OrderbookSide,
    /// Bid side: higher ticks are better.
    bid_side: OrderbookSide,
    /// Ticks per unit of price and of quantity.
    tick_multiplier: u64,
    order_id_counter: u64,
    trade_id_counter: u64,
    total_orders: u64,
}

impl View for OrderBook {
    type V = BookView;

    closed spec fn view(&self) -> BookView {
        BookView {
            symbol: self.symbol@,
            tick_multiplier: self.tick_multiplier,
            bids: self.bid_side@,
            asks: self.ask_side@,
            next_order_id: self.order_id_counter,
            next_trade_id: self.trade_id_counter,
        }
    }
}


/// Matching never brings in an order id that the levels did not hold.
pub proof fn lemma_match_keeps_ids(levels: Seq<LevelView>, taker: Order, next_id: int, ts: u64, bound: u64)
    requires
        forall|i: int, j: int| holds_at(levels, i, j) ==> (#[trigger] levels[i].orders[j]).id < bound,
    ensures
        ({
            let r = match_levels(levels, taker, next_id, ts).0;
            forall|i: int, j: int| holds_at(r, i, j) ==> (#[trigger] r[i].orders[j]).id < bound
        }),
    decreases levels.len(), levels[0].orders.len(),
{
    if levels.len() == 0 || taker.residual() <= 0 || !crate::model::crosses(taker, levels[0].price_tick) {
    } else if levels[0].orders.len() == 0 {
        let d = levels.drop_first();
        assert forall|i: int, j: int| holds_at(d, i, j) implies (#[trigger] d[i].orders[j]).id < bound by {
            assert(holds_at(levels, i + 1, j));
        }
        lemma_match_keeps_ids(d, taker, next_id, ts, bound);
    } else {
        let maker = levels[0].orders[0];
        let q = crate::model::min_int(taker.residual(), maker.residual());
        let taker2 = taker.filled_by(q);
        let maker2 = maker.filled_by(q);
        let l0 = levels[0];
        if maker2.residual() > 0 {
            let r = levels.update(0, crate::model::with_orders(l0, l0.orders.update(0, maker2)));
            assert forall|i: int, j: int| holds_at(r, i, j) implies (#[trigger] r[i].orders[j]).id < bound by {
                assert(holds_at(levels, i, j));
            }
        } else {
            let rest = l0.orders.drop_first();
            let levels2 = if rest.len() == 0 {
                levels.drop_first()
            } else {
                levels.update(0, crate::model::with_orders(l0, rest))
            };
            assert forall|i: int, j: int| holds_at(levels2, i, j) implies (#[trigger] levels2[i].orders[j]).id < bound by {
                if rest.len() == 0 {
                    assert(holds_at(levels, i + 1, j));
                } else if i == 0 {
                    assert(holds_at(levels, 0, j + 1));
                } else {
                    assert(holds_at(levels, i, j));
                }
            }
            lemma_match_keeps_ids(levels2, taker2, next_id + 1, ts, bound);
        }
    }
}

impl OrderBook {
    /// Both sides well formed with their cached extrema, the resting count
    /// kept, and every resting id already given out.
    pub closed spec fn wf(&self) -> bool {
        &&& self.bid_side.wf()
        &&& self.ask_side.wf()
        &&& self.bid_side.higher_is_better
        &&& !self.ask_side.higher_is_better
        &&& self.total_orders == self@.resting_count()
        &&& self@.wf()
    }

    /// The view of a well-formed book is well formed.
    pub proof fn lemma_view_wf(&self)
        requires
            self.wf(),
        ensures
            self@.wf(),
    {
    }

    /// Creates a new, empty book for `symbol`.
    pub fn new(symbol: String, tick_multiplier: u64) -> (r: OrderBook)
        requires
            tick_multiplier > 0,
        ensures
            r.wf(),
            r@.symbol == symbol@,
            r@.tick_multiplier == tick_multiplier,
            r@.bids == Seq::<LevelView>::empty(),
            r@.asks == Seq::<LevelView>::empty(),
            r@.next_order_id == 0,
            r@.next_trade_id == 0,
    {
        OrderBook {
            symbol,
            ask_side: OrderbookSide::new(false),
            bid_side: OrderbookSide::new(true),
            tick_multiplier,
            order_id_counter: 0,
            trade_id_counter: 0,
            total_orders: 0,
        }
    }

    /// The best tick on the side facing `side`.
    fn get_opposite_best_tick(&self, side: OrderSide) -> (r: Option<u64>)
        requires
            self.wf(),
        ensures
            r is None <==> self@.side(opposite(side)).len() == 0,
    {
        match side {
            OrderSide::Bid => self.ask_side.best_tick,
            OrderSide::Ask => self.bid_side.best_tick,
        }
    }

    /// Re-reads the best and worst ticks of one side from its levels.
    fn update_side_ticks(&mut self, side: OrderSide)
        requires
            old(self).bid_side.levels_ok(),
            old(self).ask_side.levels_ok(),
            side == OrderSide::Bid ==> old(self).ask_side.wf(),
            side == OrderSide::Ask ==> old(self).bid_side.wf(),
        ensures
            final(self).bid_side.wf(),
            final(self).ask_side.wf(),
            final(self).bid_side.levels == old(self).bid_side.levels,
            final(self).ask_side.levels == old(self).ask_side.levels,
            final(self).bid_side.higher_is_better == old(self).bid_side.higher_is_better,
            final(self).ask_side.higher_is_better == old(self).ask_side.higher_is_better,
            final(self).symbol == old(self).symbol,
            final(self).tick_multiplier == old(self).tick_multiplier,
            final(self).order_id_counter == old(self).order_id_counter,
            final(self).trade_id_counter == old(self).trade_id_counter,
            final(self).total_orders == old(self).total_orders,
    {
        match side {
            OrderSide::Bid => self.bid_side.refresh_extrema(),
            OrderSide::Ask => self.ask_side.refresh_extrema(),
        }
    }

    /// After a taker on `order_side` has matched, re-reads the extrema of the
    /// side it matched against.
    fn update_price_ticks_after_match(&mut self, order_side: OrderSide)
        requires
            old(self).bid_side.levels_ok(),
            old(self).ask_side.levels_ok(),
            old(self).side_wf(order_side),
        ensures
            final(self).bid_side.wf(),
            final(self).ask_side.wf(),
            final(self).bid_side.levels == old(self).bid_side.levels,
            final(self).ask_side.levels == old(self).ask_side.levels,
            final(self).bid_side.higher_is_better == old(self).bid_side.higher_is_better,
            final(self).ask_side.higher_is_better == old(self).ask_side.higher_is_better,
            final(self).symbol == old(self).symbol,
            final(self).tick_multiplier == old(self).tick_multiplier,
            final(self).order_id_counter == old(self).order_id_counter,
            final(self).trade_id_counter == old(self).trade_id_counter,
            final(self).total_orders == old(self).total_orders,
    {
        match order_side {
            OrderSide::Ask => self.update_side_ticks(OrderSide::Bid),
            OrderSide::Bid => self.update_side_ticks(OrderSide::Ask),
        }
    }

    /// The side holding `side`'s orders has its extrema up to date.
    spec fn side_wf(&self, side: OrderSide) -> bool {
        match side {
            OrderSide::Bid => self.bid_side.wf(),
            OrderSide::Ask => self.ask_side.wf(),
        }
    }

    /// Matches `order` against the opposite side, as `match_levels` says.
    fn match_order(&mut self, order: &mut Order, ts: u64) -> (r: Vec<Trade>)
        requires
            old(self).wf(),
            old(order).quantity_filled <= old(order).quantity,
            old(self)@.next_trade_id + old(self)@.resting_count() < u64::MAX,
        ensures
            final(self).wf(),
            final(order).quantity_filled <= final(order).quantity,
            final(order).side == old(order).side,
            *final(order) == old(order).filled_by(final(order).quantity_filled - old(order).quantity_filled),
            ({
                let m = match_levels(
                    old(self)@.side(opposite(old(order).side)),
                    *old(order),
                    old(self)@.next_trade_id as int,
                    ts,
                );
                &&& *final(order) == m.1
                &&& r@ == m.2
                &&& final(self)@ == BookView {
                    next_trade_id: (old(self)@.next_trade_id + m.2.len()) as u64,
                    ..old(self)@.with_side(opposite(old(order).side), m.0)
                }
            }),
    {
        let ghost v = self@;
        proof {
            crate::side::lemma_count_orders_nonneg(v.bids);
            crate::side::lemma_count_orders_nonneg(v.asks);
        }
        let side = order.side;
        let (trades, removed) = match side {
            OrderSide::Bid => self.ask_side.take_liquidity(order, self.trade_id_counter, ts),
            OrderSide::Ask => self.bid_side.take_liquidity(order, self.trade_id_counter, ts),
        };
        proof {
            crate::side::lemma_count_orders_nonneg(self.bid_side@);
            crate::side::lemma_count_orders_nonneg(self.ask_side@);
            lemma_match_keeps_ids(v.side(opposite(side)), *old(order), v.next_trade_id as int, ts, v.next_order_id);
            let opp = v.side(opposite(side));
            crate::ids::lemma_match_ids(opp, *old(order), v.next_trade_id as int, ts);
            let k = choose|k: int|
                0 <= k <= ids(flatten(opp)).len() && ids(
                    flatten(match_levels(opp, *old(order), v.next_trade_id as int, ts).0),
                ) == #[trigger] ids(flatten(opp)).skip(k);
            crate::ids::lemma_distinct_skip(ids(flatten(v.bids)), ids(flatten(v.asks)), k, side == OrderSide::Ask);
        }
        self.trade_id_counter = self.trade_id_counter + trades.len() as u64;
        self.total_orders = self.total_orders - removed;
        self.update_price_ticks_after_match(side);
        trades
    }
}


impl OrderBook {
    /// Whether the opposite side holds at least `order.quantity` within the
    /// order's price; levels are scanned best first, as matching takes them.
    fn can_fill_fok(&self, order: &Order) -> (r: bool)
        requires
            self.wf(),
        ensures
            r == (self@.side(opposite(order.side)).len() > 0 && crossing_quantity(
                self@.side(opposite(order.side)),
                *order,
            ) >= order.quantity),
    {
        let best_tick = self.get_opposite_best_tick(order.side);
        if best_tick.is_none() {
            return false;
        }
        match order.side {
            OrderSide::Bid => self.ask_side.can_fill(order),
            OrderSide::Ask => self.bid_side.can_fill(order),
        }
    }

    /// Puts a resting order at the back of the queue of its tick.
    fn add_limit_order(&mut self, order: Order)
        requires
            old(self).wf(),
            order.price_tick > 0,
            crate::model::resting_ok(order, order.price_tick, order.side),
            order.id < old(self)@.next_order_id,
            forall|i: int, j: int|
                holds_at(old(self)@.side(order.side), i, j) ==> (#[trigger] old(self)@.side(
                    order.side,
                )[i].orders[j]).id < order.id,
            forall|i: int|
                0 <= i < old(self)@.side(order.side).len() && (#[trigger] old(self)@.side(
                    order.side,
                )[i]).price_tick == order.price_tick ==> sum_residuals(
                    old(self)@.side(order.side)[i].orders,
                ) + order.residual() <= u64::MAX,
            old(self)@.resting_count() < u64::MAX,
            forall|i: int, j: int|
                holds_at(old(self)@.side(opposite(order.side)), i, j) ==> (#[trigger] old(self)@.side(
                    opposite(order.side),
                )[i].orders[j]).id < order.id,
        ensures
            final(self).wf(),
            final(self)@ == old(self)@.with_side(
                order.side,
                insert_resting(old(self)@.side(order.side), order, higher_is_better(order.side)),
            ),
    {
        let ghost v = self@;
        match order.side {
            OrderSide::Bid => {
                assert(v.side(order.side) == self.bid_side@);
                assert(forall|i: int| 0 <= i < v.bids.len() ==> #[trigger] v.bids[i] == v.side(order.side)[i]);
                self.bid_side.insert_order(order);
            },
            OrderSide::Ask => {
                assert(v.side(order.side) == self.ask_side@);
                assert(forall|i: int| 0 <= i < v.asks.len() ==> #[trigger] v.asks[i] == v.side(order.side)[i]);
                self.ask_side.insert_order(order);
            },
        }
        self.total_orders = self.total_orders + 1;
        proof {
            let nv = self@;
            let s = order.side;
            assert forall|i: int, j: int| holds_at(nv.side(s), i, j) implies (#[trigger] nv.side(s)[i].orders[j]).id
                < nv.next_order_id by {
                lemma_insert_resting_ids(v.side(s), order, higher_is_better(s), i, j);
            }
            assert(nv.side(opposite(s)) == v.side(opposite(s)));
            let own = v.side(s);
            crate::ids::lemma_insert_ids(own, order, higher_is_better(s));
            let k = choose|k: int|
                0 <= k <= ids(flatten(own)).len() && ids(flatten(insert_resting(own, order, higher_is_better(s))))
                    == #[trigger] ids(flatten(own)).take(k) + seq![order.id] + ids(flatten(own)).skip(k);
            let a = ids(flatten(v.bids));
            let b = ids(flatten(v.asks));
            assert forall|i: int| 0 <= i < (a + b).len() implies (a + b)[i] != order.id by {
                if i < a.len() {
                    crate::ids::lemma_flatten_member(v.bids, i);
                } else {
                    crate::ids::lemma_flatten_member(v.asks, i - a.len());
                }
            }
            crate::ids::lemma_distinct_insert(a, b, k, order.id, s == OrderSide::Bid);
            if s == OrderSide::Bid {
                assert(ids(flatten(nv.bids)) + ids(flatten(nv.asks)) =~= a.take(k) + seq![order.id] + a.skip(k) + b);
            }
        }
    }
}

/// Every order in `insert_resting(levels, o, hib)` is `o` or was in `levels`.
pub proof fn lemma_insert_resting_ids(levels: Seq<LevelView>, o: Order, hib: bool, i: int, j: int)
    requires
        holds_at(insert_resting(levels, o, hib), i, j),
    ensures
        ({
            let r = insert_resting(levels, o, hib);
            r[i].orders[j] == o || exists|a: int, b: int| holds_at(levels, a, b) && #[trigger] levels[a].orders[b] == r[i].orders[j]
        }),
    decreases levels.len(),
{
    let r = insert_resting(levels, o, hib);
    if levels.len() == 0 {
    } else if levels[0].price_tick == o.price_tick {
        if i == 0 && j < levels[0].orders.len() {
            assert(holds_at(levels, 0, j));
        } else if i > 0 {
            assert(holds_at(levels, i, j));
        }
    } else if crate::model::better(hib, o.price_tick, levels[0].price_tick) {
        if i > 0 {
            assert(holds_at(levels, i - 1, j));
        }
    } else {
        if i == 0 {
            assert(holds_at(levels, 0, j));
        } else {
            let d = levels.drop_first();
            lemma_insert_resting_ids(d, o, hib, i - 1, j);
            let x = r[i].orders[j];
            if x != o {
                let (a, b) = choose|a: int, b: int| holds_at(d, a, b) && #[trigger] d[a].orders[b] == x;
                assert(holds_at(levels, a + 1, b) && levels[a + 1].orders[b] == x);
            }
        }
    }
}


impl OrderBook {
    /// Whether the book can take one more order of `quantity` at
    /// `price_tick` on `side` without running out of ids or overflowing the
    /// open quantity of its level.
    pub fn has_room(&self, side: OrderSide, price_tick: u64, quantity: u64) -> (r: bool)
        requires
            self.wf(),
        ensures
            r == self@.has_room(side, price_tick, quantity),
    {
        proof {
            crate::side::lemma_count_orders_nonneg(self@.bids);
            crate::side::lemma_count_orders_nonneg(self@.asks);
        }
        if self.order_id_counter == u64::MAX {
            return false;
        }
        if self.trade_id_counter as u128 + self.total_orders as u128 >= u64::MAX as u128 {
            return false;
        }
        let own = match side {
            OrderSide::Bid => &self.bid_side,
            OrderSide::Ask => &self.ask_side,
        };
        assert(own@ == self@.side(side));
        match own.get_level(price_tick) {
            None => true,
            Some(level) => {
                let ghost k = choose|k: int| 0 <= k < own.levels@.len() && own.levels@[k] == *level && level.price_tick == price_tick;
                assert(own.levels@[k]@ == own@[k]);
                proof {
                    assert forall|i: int|
                        0 <= i < self@.side(side).len() && (#[trigger] self@.side(side)[i]).price_tick == price_tick
                        implies i == k by {
                        if i < k {
                            assert(crate::model::better(own.higher_is_better, own@[i].price_tick, own@[k].price_tick));
                        } else if k < i {
                            assert(crate::model::better(own.higher_is_better, own@[k].price_tick, own@[i].price_tick));
                        }
                    }
                }
                level.total_quantity as u128 + quantity as u128 <= u64::MAX as u128
            },
        }
    }

    /// `add_order` at intake time `ts`.
    pub fn add_order_at(
        &mut self,
        user_id: u64,
        price_tick: u64,
        quantity: u64,
        side: OrderSide,
        time_in_force: TimeInForce,
        ts: u64,
    ) -> (r: (Option<Order>, Vec<Trade>))
        requires
            old(self).wf(),
            old(self)@.has_room(side, price_tick, quantity),
        ensures
            final(self).wf(),
            ({
                let s = add_order_spec(old(self)@, user_id, price_tick, quantity, side, time_in_force, ts);
                r.0 == s.0 && r.1@ == s.1 && final(self)@ == s.2
            }),
    {
        let ghost v = self@;
        let order_id = self.order_id_counter;
        self.order_id_counter = self.order_id_counter + 1;
        let ghost v1 = self@;
        assert(v1.wf());
        let best_tick = self.get_opposite_best_tick(side);
        if best_tick.is_none() && (time_in_force == TimeInForce::FOK || time_in_force == TimeInForce::IOC) {
            return (None, Vec::new());
        }
        let mut order = Order {
            id: order_id,
            user_id,
            price_tick,
            quantity,
            quantity_filled: 0,
            side,
            time_in_force,
            timestamp: ts,
            is_cancelled: false,
        };
        if time_in_force == TimeInForce::FOK && !self.can_fill_fok(&order) {
            return (None, Vec::new());
        }
        let ghost order0 = order;
        let trades = match best_tick {
            Some(_) => self.match_order(&mut order, ts),
            None => Vec::new(),
        };
        let ghost m = match_levels(v.side(opposite(side)), order0, v.next_trade_id as int, ts);
        assert(order == m.1 && trades@ == m.2);
        assert(order == order0.filled_by(order.quantity_filled - order0.quantity_filled));
        proof {
            lemma_match_keeps_ids(v.side(opposite(side)), order0, v.next_trade_id as int, ts, order_id);
            assert(self@.side(side) == v.side(side));
            crate::side::lemma_count_orders_nonneg(self@.side(opposite(side)));
            crate::side::lemma_count_orders_nonneg(v.side(side));
        }
        if time_in_force == TimeInForce::GTC && order.quantity > order.quantity_filled && price_tick > 0 {
            proof {
                lemma_match_count(v.side(opposite(side)), order0, v.next_trade_id as int, ts);
            }
            self.add_limit_order(order);
        }
        if order.quantity > order.quantity_filled {
            match time_in_force {
                TimeInForce::FOK => {
                    return (None, trades);
                },
                TimeInForce::IOC => {
                    return (None, trades);
                },
                TimeInForce::GTC => {
                    if price_tick > 0 {
                        return (Some(order), trades);
                    }
                    if trades.len() == 0 {
                        return (None, trades);
                    }
                    return (Some(order), trades);
                },
            }
        }
        (Some(order), trades)
    }

    /// Places an order of `user_id` and matches it: see `add_order_spec`. The
    /// intake time is the wall clock's.
    pub fn add_order(
        &mut self,
        user_id: u64,
        price_tick: u64,
        quantity: u64,
        side: OrderSide,
        time_in_force: TimeInForce,
    ) -> (r: (Option<Order>, Vec<Trade>))
        requires
            old(self).wf(),
            old(self)@.has_room(side, price_tick, quantity),
        ensures
            final(self).wf(),
            exists|ts: u64|
                {
                    let s = #[trigger] add_order_spec(
                        old(self)@,
                        user_id,
                        price_tick,
                        quantity,
                        side,
                        time_in_force,
                        ts,
                    );
                    r.0 == s.0 && r.1@ == s.1 && final(self)@ == s.2
                },
    {
        let ts = get_current_timestamp();
        self.add_order_at(user_id, price_tick, quantity, side, time_in_force, ts)
    }
}

/// Matching never adds resting orders.
pub proof fn lemma_match_count(levels: Seq<LevelView>, taker: Order, next_id: int, ts: u64)
    ensures
        count_orders(match_levels(levels, taker, next_id, ts).0) <= count_orders(levels),
    decreases levels.len(), levels[0].orders.len(),
{
    if levels.len() == 0 || taker.residual() <= 0 || !crate::model::crosses(taker, levels[0].price_tick) {
    } else if levels[0].orders.len() == 0 {
        lemma_match_count(levels.drop_first(), taker, next_id, ts);
    } else {
        let maker = levels[0].orders[0];
        let q = crate::model::min_int(taker.residual(), maker.residual());
        let taker2 = taker.filled_by(q);
        let maker2 = maker.filled_by(q);
        let l0 = levels[0];
        if maker2.residual() > 0 {
            crate::side::lemma_count_orders_update(levels, 0, crate::model::with_orders(l0, l0.orders.update(0, maker2)));
        } else {
            let rest = l0.orders.drop_first();
            if rest.len() == 0 {
                crate::side::lemma_count_orders_nonneg(levels.drop_first());
                lemma_match_count(levels.drop_first(), taker2, next_id + 1, ts);
            } else {
                crate::side::lemma_count_orders_update(levels, 0, crate::model::with_orders(l0, rest));
                lemma_match_count(levels.update(0, crate::model::with_orders(l0, rest)), taker2, next_id + 1, ts);
            }
        }
    }
}


impl OrderBook {
    /// Takes order `order_id` out of the level at `price_tick` on `side`, as
    /// `cancel_spec` says, and returns it.
    pub fn take_order(&mut self, order_id: u64, price_tick: u64, side: OrderSide) -> (r: Option<Order>)
        requires
            old(self).wf(),
        ensures
            final(self).wf(),
            (r is Some) == cancel_spec(old(self)@, order_id, price_tick, side).0,
            final(self)@ == cancel_spec(old(self)@, order_id, price_tick, side).1,
            r is Some ==> ({
                let ij = position_of(old(self)@.side(side), price_tick, order_id);
                r->0 == old(self)@.side(side)[ij.0].orders[ij.1]
            }),
    {
        let ghost v = self@;
        let ghost levels = v.side(side);
        let r = match side {
            OrderSide::Bid => self.bid_side.remove_order(price_tick, order_id),
            OrderSide::Ask => self.ask_side.remove_order(price_tick, order_id),
        };
        proof {
            let hib = higher_is_better(side);
            assert(levels_wf(levels, hib));
            match r {
                Some(o) => {
                    let (i, j) = choose|i: int, j: int|
                        holds_at(levels, i, j) && levels[i].price_tick == price_tick
                            && #[trigger] levels[i].orders[j] == o && o.id == order_id
                            && self@.side(side) == without_order(levels, i, j);
                    assert(is_at(levels, price_tick, order_id, i, j));
                    let ij = position_of(levels, price_tick, order_id);
                    lemma_position_unique(levels, hib, price_tick, order_id, i, j, ij.0, ij.1);
                    crate::side::lemma_count_orders_nonneg(self@.side(side));
                    crate::side::lemma_count_orders_nonneg(v.bids);
                    crate::side::lemma_count_orders_nonneg(v.asks);
                    assert forall|a: int, b: int| holds_at(self@.side(side), a, b) implies (#[trigger] self@.side(
                        side,
                    )[a].orders[b]).id < v.next_order_id by {
                        lemma_without_order_ids(levels, i, j, a, b);
                    }
                    assert(self@ == v.with_side(side, without_order(levels, i, j)));
                    crate::ids::lemma_without_ids(levels, i, j);
                    let k = choose|k: int|
                        0 <= k < ids(flatten(levels)).len() && ids(flatten(without_order(levels, i, j)))
                            == #[trigger] ids(flatten(levels)).remove(k);
                    crate::ids::lemma_distinct_remove(ids(flatten(v.bids)), ids(flatten(v.asks)), k, side == OrderSide::Bid);
                },
                None => {
                    assert(!has_order_at(levels, price_tick, order_id));
                },
            }
        }
        if r.is_some() {
            self.total_orders = self.total_orders - 1;
        }
        r
    }

    /// Cancels order `order_id` resting at `price_tick` on `side`. Returns
    /// false when no such order rests there.
    pub fn cancel_order(&mut self, order_id: u64, price_tick: u64, side: OrderSide) -> (r: bool)
        requires
            old(self).wf(),
        ensures
            final(self).wf(),
            (r, final(self)@) == cancel_spec(old(self)@, order_id, price_tick, side),
    {
        let taken = self.take_order(order_id, price_tick, side);
        taken.is_some()
    }

    /// The resting order with id `order_id`. Ids are unique in a
    /// well-formed book (`law_ids_unique`), so this is the order with that
    /// id, if one rests.
    pub fn get_order_by_id(&self, order_id: u64) -> (r: Option<Order>)
        requires
            self.wf(),
        ensures
            match r {
                Some(o) => o.id == order_id && (holds_order(self@.bids, o) || holds_order(self@.asks, o)),
                None => !self@.holds_id(order_id),
            },
    {
        match self.bid_side.find_order(order_id) {
            Some(o) => Some(o),
            None => self.ask_side.find_order(order_id),
        }
    }

    /// The top `levels` levels of each side, bids highest first and asks
    /// lowest first, each as its tick and open quantity.
    pub fn get_depth(&self, levels: usize) -> (r: OrderBookDepth)
        requires
            self.wf(),
        ensures
            r.bids@ == depth_lines(self@.bids, levels as int),
            r.asks@ == depth_lines(self@.asks, levels as int),
    {
        let bids = self.bid_side.depth(levels);
        let asks = self.ask_side.depth(levels);
        OrderBookDepth { bids, asks }
    }

    /// Number of orders resting in the book.
    pub fn total_orders(&self) -> (r: u64)
        requires
            self.wf(),
        ensures
            r == self@.resting_count(),
    {
        self.total_orders
    }

    pub fn symbol(&self) -> (r: &str)
        ensures
            r@ == self@.symbol,
    {
        self.symbol.as_str()
    }

    pub fn tick_multiplier(&self) -> (r: u64)
        ensures
            r == self@.tick_multiplier,
    {
        self.tick_multiplier
    }

    /// The highest bid tick, if any bid rests.
    pub fn best_bid_tick(&self) -> (r: Option<u64>)
        requires
            self.wf(),
        ensures
            r == crate::side::extrema_of(self@.bids).0,
    {
        self.bid_side.best_tick
    }

    /// The lowest ask tick, if any ask rests.
    pub fn best_ask_tick(&self) -> (r: Option<u64>)
        requires
            self.wf(),
        ensures
            r == crate::side::extrema_of(self@.asks).0,
    {
        self.ask_side.best_tick
    }

    /// The id the next order will get.
    pub fn order_id_counter(&self) -> (r: u64)
        ensures
            r == self@.next_order_id,
    {
        self.order_id_counter
    }

    /// The id the next trade will get.
    pub fn trade_id_counter(&self) -> (r: u64)
        ensures
            r == self@.next_trade_id,
    {
        self.trade_id_counter
    }

    /// The bid side.
    pub fn bid_side(&self) -> (r: &OrderbookSide)
        requires
            self.wf(),
        ensures
            r.wf(),
            r.higher_is_better,
            r@ == self@.bids,
    {
        &self.bid_side
    }

    /// The ask side.
    pub fn ask_side(&self) -> (r: &OrderbookSide)
        requires
            self.wf(),
        ensures
            r.wf(),
            !r.higher_is_better,
            r@ == self@.asks,
    {
        &self.ask_side
    }
}

/// Every order left by `without_order` was there before.
pub proof fn lemma_without_order_ids(levels: Seq<LevelView>, i: int, j: int, a: int, b: int)
    requires
        holds_at(levels, i, j),
        holds_at(without_order(levels, i, j), a, b),
    ensures
        exists|c: int, d: int| holds_at(levels, c, d) && #[trigger] levels[c].orders[d] == without_order(levels, i, j)[a].orders[b],
{
    let rest = levels[i].orders.remove(j);
    let x = without_order(levels, i, j)[a].orders[b];
    if rest.len() == 0 {
        if a < i {
            assert(holds_at(levels, a, b) && levels[a].orders[b] == x);
        } else {
            assert(holds_at(levels, a + 1, b) && levels[a + 1].orders[b] == x);
        }
    } else if a == i {
        if b < j {
            assert(holds_at(levels, i, b) && levels[i].orders[b] == x);
        } else {
            assert(holds_at(levels, i, b + 1) && levels[i].orders[b + 1] == x);
        }
    } else {
        assert(holds_at(levels, a, b) && levels[a].orders[b] == x);
    }
}

} // verus!
