//! One side of a book: price levels kept best first, each a FIFO of orders.
use vstd::prelude::*;
use crate::model::{
    better, count_orders, crosses, crossing_quantity, insert_resting, level_wf, levels_wf, make_trade,
    match_levels, resting_ok, side_of, sum_residuals, with_orders, LevelView,
};
use crate::types::{Order, OrderSide, Trade};

verus! {

/// The resting orders at one tick, oldest first, with their open quantity.
#[derive(Clone)]
pub struct PriceLevel {
    pub price_tick: u64,
    pub orders: Vec<Order>,
    pub total_quantity: u64,
}

impl View for PriceLevel {
    type V = LevelView;

    open spec fn view(&self) -> LevelView {
        LevelView { price_tick: self.price_tick, orders: self.orders@ }
    }
}

impl PriceLevel {
    pub open spec fn wf(&self, side: OrderSide) -> bool {
        &&& level_wf(self@, side)
        &&& self.total_quantity == sum_residuals(self.orders@)
    }

    /// The open quantity of the level.
    pub fn total_quantity(&self) -> (r: u64)
        ensures
            r == self.total_quantity,
    {
        self.total_quantity
    }

    /// The queue of the level, oldest order first.
    pub fn orders(&self) -> (r: &Vec<Order>)
        ensures
            r@ == self.orders@,
    {
        &self.orders
    }
}

/// One side of a book. `levels` holds the price levels best first: highest
/// tick first when `higher_is_better` (bids), lowest first otherwise (asks).
pub struct OrderbookSide {
    pub best_tick: Option<u64>,
    pub worst_tick: Option<u64>,
    pub higher_is_better: bool,
    pub levels: Vec<PriceLevel>,
}

pub open spec fn level_views(levels: Seq<PriceLevel>) -> Seq<LevelView> {
    levels.map_values(|l: PriceLevel| l@)
}

impl View for OrderbookSide {
    type V = Seq<LevelView>;

    open spec fn view(&self) -> Seq<LevelView> {
        level_views(self.levels@)
    }
}

/// The best and worst ticks of a sequence of levels kept best first.
pub open spec fn extrema_of(levels: Seq<LevelView>) -> (Option<u64>, Option<u64>) {
    if levels.len() == 0 {
        (None, None)
    } else {
        (Some(levels[0].price_tick), Some(levels.last().price_tick))
    }
}

impl OrderbookSide {
    /// Levels well formed and ordered, each with its cached total.
    pub open spec fn levels_ok(&self) -> bool {
        &&& levels_wf(self@, self.higher_is_better)
        &&& forall|i: int|
            0 <= i < self.levels@.len() ==> (#[trigger] self.levels@[i]).total_quantity
                == sum_residuals(self.levels@[i].orders@)
    }

    /// Levels well formed, and the cached best and worst ticks up to date.
    pub open spec fn wf(&self) -> bool {
        &&& self.levels_ok()
        &&& (self.best_tick, self.worst_tick) == extrema_of(self@)
    }

    /// An empty side of the given polarity.
    pub fn new(higher_is_better: bool) -> (r: OrderbookSide)
        ensures
            r.wf(),
            r@ == Seq::<LevelView>::empty(),
            r.higher_is_better == higher_is_better,
    {
        let r = OrderbookSide {
            best_tick: None,
            worst_tick: None,
            higher_is_better,
            levels: Vec::new(),
        };
        assert(r@ =~= Seq::<LevelView>::empty());
        r
    }

    /// Reads the best and worst ticks off the ends of the ordered levels.
    pub fn refresh_extrema(&mut self)
        requires
            old(self).levels_ok(),
        ensures
            final(self).wf(),
            final(self)@ == old(self)@,
            final(self).levels == old(self).levels,
            final(self).higher_is_better == old(self).higher_is_better,
    {
        let n = self.levels.len();
        if n == 0 {
            self.best_tick = None;
            self.worst_tick = None;
        } else {
            self.best_tick = Some(self.levels[0].price_tick);
            self.worst_tick = Some(self.levels[n - 1].price_tick);
        }
    }

    /// The level at `tick`, if the side holds one.
    pub fn get_level(&self, tick: u64) -> (r: Option<&PriceLevel>)
        requires
            self.wf(),
        ensures
            match r {
                Some(l) => exists|i: int|
                    0 <= i < self.levels@.len() && self.levels@[i] == *l && l.price_tick == tick,
                None => forall|i: int| 0 <= i < self@.len() ==> (#[trigger] self@[i]).price_tick != tick,
            },
    {
        let mut i: usize = 0;
        while i < self.levels.len()
            invariant
                i <= self.levels.len(),
                forall|k: int| 0 <= k < i ==> (#[trigger] self@[k]).price_tick != tick,
            decreases self.levels.len() - i,
        {
            if self.levels[i].price_tick == tick {
                return Some(&self.levels[i]);
            }
            i += 1;
        }
        None
    }
}


/// Whether `taker` may trade with a maker resting at `tick`.
pub fn crosses_tick(taker: &Order, tick: u64) -> (r: bool)
    ensures
        r == crosses(*taker, tick),
{
    taker.price_tick == 0 || match taker.side {
        OrderSide::Bid => tick <= taker.price_tick,
        OrderSide::Ask => tick >= taker.price_tick,
    }
}

/// A queue of orders that are all open has a non-negative open quantity.
pub proof fn lemma_sum_residuals_nonneg(s: Seq<Order>)
    requires
        forall|j: int| 0 <= j < s.len() ==> (#[trigger] s[j]).quantity_filled <= s[j].quantity,
    ensures
        sum_residuals(s) >= 0,
    decreases s.len(),
{
    if s.len() > 0 {
        assert(forall|j: int|
            0 <= j < s.drop_first().len() ==> #[trigger] s.drop_first()[j] == s[j + 1]);
        lemma_sum_residuals_nonneg(s.drop_first());
    }
}

/// A count of orders is never negative.
pub proof fn lemma_count_orders_nonneg(levels: Seq<LevelView>)
    ensures
        count_orders(levels) >= 0,
    decreases levels.len(),
{
    if levels.len() > 0 {
        lemma_count_orders_nonneg(levels.drop_first());
    }
}

impl OrderbookSide {
    /// Matches `taker` against this side, as `match_levels` describes, and
    /// returns the trades with the number of resting orders that were used up.
    pub fn take_liquidity(&mut self, taker: &mut Order, next_trade_id: u64, ts: u64) -> (r: (
        Vec<Trade>,
        u64,
    ))
        requires
            old(self).levels_ok(),
            old(taker).quantity_filled <= old(taker).quantity,
            next_trade_id + count_orders(old(self)@) <= u64::MAX,
        ensures
            final(self).levels_ok(),
            final(self).higher_is_better == old(self).higher_is_better,
            final(taker).quantity_filled <= final(taker).quantity,
            next_trade_id + r.0@.len() <= u64::MAX,
            *final(taker) == old(taker).filled_by(final(taker).quantity_filled - old(taker).quantity_filled),
            (final(self)@, *final(taker), r.0@) == match_levels(
                old(self)@,
                *old(taker),
                next_trade_id as int,
                ts,
            ),
            r.1 == count_orders(old(self)@) - count_orders(final(self)@),
    {
        let ghost orig = self@;
        let ghost t0 = *taker;
        let ghost hib = self.higher_is_better;
        let mut trades: Vec<Trade> = Vec::new();
        let mut tid: u64 = next_trade_id;
        let mut removed: u64 = 0;
        loop
            invariant
                self.levels_ok(),
                self.higher_is_better == hib,
                taker.quantity_filled <= taker.quantity,
                *taker == t0.filled_by(taker.quantity_filled - t0.quantity_filled),
                tid == next_trade_id + trades@.len(),
                taker.quantity_filled < taker.quantity ==> tid + count_orders(self@) <= u64::MAX,
                count_orders(self@) <= count_orders(orig),
                next_trade_id + count_orders(orig) <= u64::MAX,
                removed == count_orders(orig) - count_orders(self@),
                ({
                    let r = match_levels(self@, *taker, tid as int, ts);
                    let r0 = match_levels(orig, t0, next_trade_id as int, ts);
                    r.0 == r0.0 && r.1 == r0.1 && trades@ + r.2 == r0.2
                }),
            ensures
                match_levels(self@, *taker, tid as int, ts) == (self@, *taker, Seq::<Trade>::empty()),
            decreases count_orders(self@) + taker.residual(),
        {
            proof {
                if self@.len() > 0 {
                    lemma_count_orders_nonneg(self@.drop_first());
                }
            }
            if taker.quantity_filled >= taker.quantity {
                break;
            }
            if self.levels.len() == 0 {
                break;
            }
            let tick = self.levels[0].price_tick;
            if !crosses_tick(taker, tick) {
                break;
            }
            let ghost lv = self@;
            let ghost l0 = lv[0];
            let ghost tk = *taker;
            assert(level_wf(lv[0], side_of(hib)));
            assert(self.levels@[0]@ == l0);
            assert(count_orders(lv) == l0.orders.len() + count_orders(lv.drop_first()));
            let mut level = self.levels.remove(0);
            assert(self@ =~= lv.drop_first());
            let maker = level.orders.remove(0);
            assert(maker == l0.orders[0]);
            assert(resting_ok(maker, l0.price_tick, side_of(hib)));
            assert(level.orders@ =~= l0.orders.drop_first());
            let ghost rest = l0.orders.drop_first();
            proof {
                assert(forall|j: int| 0 <= j < rest.len() ==> #[trigger] rest[j] == l0.orders[j + 1]);
                lemma_sum_residuals_nonneg(rest);
            }
            let open_taker = taker.quantity - taker.quantity_filled;
            let open_maker = maker.quantity - maker.quantity_filled;
            let q = if open_taker <= open_maker {
                open_taker
            } else {
                open_maker
            };
            let trade = Trade {
                id: tid,
                taker_order_id: taker.id,
                maker_order_id: maker.id,
                taker_user_id: taker.user_id,
                maker_user_id: maker.user_id,
                quantity: q,
                price_tick: maker.price_tick,
                timestamp: ts,
            };
            assert(trade == make_trade(tk, maker, q as int, tid as int, ts));
            trades.push(trade);
            tid = tid + 1;
            taker.quantity_filled = taker.quantity_filled + q;
            let maker2 = Order { quantity_filled: maker.quantity_filled + q, ..maker };
            assert(*taker == tk.filled_by(q as int));
            assert(maker2 == maker.filled_by(q as int));
            level.total_quantity = level.total_quantity - q;
            if maker2.quantity_filled < maker2.quantity {
                level.orders.insert(0, maker2);
                let ghost new_orders = l0.orders.update(0, maker2);
                assert(level.orders@ =~= new_orders);
                assert(new_orders.drop_first() =~= rest);
                assert(level@ == with_orders(l0, new_orders));
                self.levels.insert(0, level);
                assert(self@ =~= lv.update(0, with_orders(l0, new_orders)));
                assert(self@.drop_first() =~= lv.drop_first());
                assert(count_orders(self@) == self@[0].orders.len() + count_orders(self@.drop_first()));
                assert(level_wf(self@[0], side_of(hib)));
                assert(levels_wf(self@, hib));
            } else {
                proof {
                    lemma_count_orders_nonneg(self@);
                }
                removed = removed + 1;
                if level.orders.len() > 0 {
                    assert(level@ == with_orders(l0, rest));
                    self.levels.insert(0, level);
                    assert(self@ =~= lv.update(0, with_orders(l0, rest)));
                    assert(self@.drop_first() =~= lv.drop_first());
                    assert(count_orders(self@) == self@[0].orders.len() + count_orders(self@.drop_first()));
                    assert(level_wf(self@[0], side_of(hib)));
                    assert(levels_wf(self@, hib));
                } else {
                    assert(levels_wf(self@, hib));
                }
            }
        }
        assert(trades@ + Seq::<Trade>::empty() =~= trades@);
        (trades, removed)
    }
}


/// One line of a depth summary: a tick and the open quantity there.
#[derive(Debug, Clone, PartialEq, Eq, Structural)]
pub struct DepthLevel {
    pub price_tick: u64,
    pub quantity: u64,
}

/// The depth line of a level.
pub open spec fn depth_line(l: LevelView) -> DepthLevel {
    DepthLevel { price_tick: l.price_tick, quantity: sum_residuals(l.orders) as u64 }
}

/// The first `k` levels (or all, if fewer), as depth lines.
pub open spec fn depth_lines(levels: Seq<LevelView>, k: int) -> Seq<DepthLevel> {
    let n = if k < levels.len() {
        k
    } else {
        levels.len() as int
    };
    Seq::new(n as nat, |i: int| depth_line(levels[i]))
}

/// A new level holding one order.
pub open spec fn single_level(o: Order) -> LevelView {
    LevelView { price_tick: o.price_tick, orders: seq![o] }
}

/// The levels once the order at position `j` of level `i` has left; a level
/// left empty goes with it.
pub open spec fn without_order(levels: Seq<LevelView>, i: int, j: int) -> Seq<LevelView> {
    let rest = levels[i].orders.remove(j);
    if rest.len() == 0 {
        levels.remove(i)
    } else {
        levels.update(i, with_orders(levels[i], rest))
    }
}

/// Whether the levels hold order `o`.
pub open spec fn holds_order(levels: Seq<LevelView>, o: Order) -> bool {
    exists|i: int, j: int| holds_at(levels, i, j) && #[trigger] levels[i].orders[j] == o
}

/// Whether the order at position `j` of level `i` exists.
pub open spec fn holds_at(levels: Seq<LevelView>, i: int, j: int) -> bool {
    0 <= i < levels.len() && 0 <= j < levels[i].orders.len()
}

/// Where the sequence of levels is split, `insert_resting` leaves the part
/// before the split alone.
pub proof fn lemma_insert_resting_at(levels: Seq<LevelView>, o: Order, hib: bool, i: int)
    requires
        0 <= i <= levels.len(),
        forall|k: int| 0 <= k < i ==> better(hib, (#[trigger] levels[k]).price_tick, o.price_tick),
        i < levels.len() ==> !better(hib, levels[i].price_tick, o.price_tick),
    ensures
        insert_resting(levels, o, hib) == if i < levels.len() && levels[i].price_tick == o.price_tick {
            levels.update(i, with_orders(levels[i], levels[i].orders.push(o)))
        } else {
            levels.insert(i, single_level(o))
        },
    decreases i,
{
    if i == 0 {
        if levels.len() > 0 && levels[0].price_tick != o.price_tick {
            assert(seq![single_level(o)] + levels =~= levels.insert(0, single_level(o)));
        } else if levels.len() == 0 {
            assert(seq![single_level(o)] =~= levels.insert(0, single_level(o)));
        }
    } else {
        let d = levels.drop_first();
        assert(forall|k: int| 0 <= k < i - 1 ==> #[trigger] d[k] == levels[k + 1]);
        assert(better(hib, levels[0].price_tick, o.price_tick));
        lemma_insert_resting_at(d, o, hib, i - 1);
        if i < levels.len() && levels[i].price_tick == o.price_tick {
            assert(seq![levels[0]] + d.update(i - 1, with_orders(d[i - 1], d[i - 1].orders.push(o)))
                =~= levels.update(i, with_orders(levels[i], levels[i].orders.push(o))));
        } else {
            assert(seq![levels[0]] + d.insert(i - 1, single_level(o)) =~= levels.insert(i, single_level(o)));
        }
    }
}

/// The open quantity that a taker may reach is never negative.
pub proof fn lemma_crossing_quantity_nonneg(levels: Seq<LevelView>, hib: bool, taker: Order)
    requires
        levels_wf(levels, hib),
    ensures
        crossing_quantity(levels, taker) >= 0,
    decreases levels.len(),
{
    if levels.len() > 0 {
        let d = levels.drop_first();
        assert(forall|k: int| 0 <= k < d.len() ==> #[trigger] d[k] == levels[k + 1]);
        assert(levels_wf(d, hib));
        let l0 = levels[0];
        assert(level_wf(l0, side_of(hib)));
        assert(forall|j: int| 0 <= j < l0.orders.len() ==> resting_ok(#[trigger] l0.orders[j], l0.price_tick, side_of(hib)));
        lemma_sum_residuals_nonneg(l0.orders);
        lemma_crossing_quantity_nonneg(d, hib, taker);
    }
}

/// Appending an order to a queue adds its open quantity.
pub proof fn lemma_sum_residuals_push(s: Seq<Order>, o: Order)
    ensures
        sum_residuals(s.push(o)) == sum_residuals(s) + o.residual(),
    decreases s.len(),
{
    if s.len() == 0 {
        assert(s.push(o).drop_first() =~= Seq::<Order>::empty());
        assert(sum_residuals(Seq::<Order>::empty()) == 0);
        assert(sum_residuals(s) == 0);
    } else {
        assert(s.push(o).drop_first() =~= s.drop_first().push(o));
        lemma_sum_residuals_push(s.drop_first(), o);
        assert(s.push(o)[0] == s[0]);
    }
}

/// Taking an order out of a queue takes away its open quantity.
pub proof fn lemma_sum_residuals_remove(s: Seq<Order>, j: int)
    requires
        0 <= j < s.len(),
    ensures
        sum_residuals(s.remove(j)) == sum_residuals(s) - s[j].residual(),
    decreases s.len(),
{
    if j == 0 {
        assert(s.remove(0) =~= s.drop_first());
    } else {
        assert(s.remove(j).drop_first() =~= s.drop_first().remove(j - 1));
        lemma_sum_residuals_remove(s.drop_first(), j - 1);
    }
}

impl OrderbookSide {
    /// Whether the levels that cross the taker's price hold at least its
    /// quantity; levels are visited best first, as matching visits them.
    pub fn can_fill(&self, taker: &Order) -> (r: bool)
        requires
            self.levels_ok(),
        ensures
            r == (crossing_quantity(self@, *taker) >= taker.quantity),
    {
        let ghost hib = self.higher_is_better;
        if taker.quantity == 0 {
            proof {
                lemma_crossing_quantity_nonneg(self@, hib, *taker);
            }
            return true;
        }
        let mut acc: u128 = 0;
        let mut i: usize = 0;
        assert(self@.skip(0) =~= self@);
        while i < self.levels.len()
            invariant
                self.levels_ok(),
                hib == self.higher_is_better,
                i <= self.levels.len(),
                acc < taker.quantity,
                crossing_quantity(self@, *taker) == acc + crossing_quantity(self@.skip(i as int), *taker),
            decreases self.levels.len() - i,
        {
            let ghost rest = self@.skip(i as int);
            assert(rest.drop_first() =~= self@.skip(i as int + 1));
            assert(rest[0] == self@[i as int]);
            if !crosses_tick(taker, self.levels[i].price_tick) {
                proof {
                    lemma_levels_wf_skip(self@, hib, i as int);
                }
                return false;
            }
            assert(self.levels@[i as int].total_quantity == sum_residuals(self@[i as int].orders));
            acc = acc + self.levels[i].total_quantity as u128;
            if acc >= taker.quantity as u128 {
                proof {
                    lemma_levels_wf_skip(self@, hib, i as int + 1);
                    lemma_crossing_quantity_nonneg(self@.skip(i as int + 1), hib, *taker);
                }
                return true;
            }
            i = i + 1;
        }
        assert(self@.skip(i as int) =~= Seq::<LevelView>::empty());
        false
    }

    /// Adds a resting order at the back of the queue of its tick, creating
    /// the level at its rank if the side has none there.
    pub fn insert_order(&mut self, o: Order)
        requires
            old(self).levels_ok(),
            o.price_tick > 0,
            resting_ok(o, o.price_tick, side_of(old(self).higher_is_better)),
            forall|i: int, j: int|
                holds_at(old(self)@, i, j) ==> (#[trigger] old(self)@[i].orders[j]).id < o.id,
            forall|i: int|
                0 <= i < old(self)@.len() && (#[trigger] old(self)@[i]).price_tick == o.price_tick
                    ==> sum_residuals(old(self)@[i].orders) + o.residual() <= u64::MAX,
        ensures
            final(self).wf(),
            final(self).higher_is_better == old(self).higher_is_better,
            final(self)@ == insert_resting(old(self)@, o, old(self).higher_is_better),
            count_orders(final(self)@) == count_orders(old(self)@) + 1,
    {
        let ghost lv = self@;
        let ghost hib = self.higher_is_better;
        let mut i: usize = 0;
        while i < self.levels.len() && better_tick(self.higher_is_better, self.levels[i].price_tick, o.price_tick)
            invariant
                i <= self.levels.len(),
                self@ == lv,
                self.higher_is_better == hib,
                forall|k: int| 0 <= k < i ==> better(hib, (#[trigger] lv[k]).price_tick, o.price_tick),
            decreases self.levels.len() - i,
        {
            i = i + 1;
        }
        proof {
            lemma_insert_resting_at(lv, o, hib, i as int);
        }
        let open_qty = o.quantity - o.quantity_filled;
        if i < self.levels.len() && self.levels[i].price_tick == o.price_tick {
            let mut level = self.levels.remove(i);
            let ghost l = level@;
            assert(l == lv[i as int]);
            proof {
                lemma_sum_residuals_push(l.orders, o);
            }
            level.orders.push(o);
            level.total_quantity = level.total_quantity + open_qty;
            self.levels.insert(i, level);
            assert(self@ =~= lv.update(i as int, with_orders(l, l.orders.push(o))));
            assert(level_wf(self@[i as int], side_of(hib)));
            proof {
                lemma_count_orders_update(lv, i as int, with_orders(l, l.orders.push(o)));
            }
        } else {
            let mut orders: Vec<Order> = Vec::new();
            orders.push(o);
            let level = PriceLevel { price_tick: o.price_tick, orders, total_quantity: open_qty };
            proof {
                reveal_with_fuel(sum_residuals, 2);
                assert(level.orders@ =~= seq![o]);
            }
            self.levels.insert(i, level);
            assert(self@ =~= lv.insert(i as int, single_level(o)));
            assert(level_wf(self@[i as int], side_of(hib)));
            proof {
                lemma_count_orders_insert(lv, i as int, single_level(o));
            }
        }
        self.refresh_extrema();
    }
}

/// The tail of well-formed levels is well formed.
pub proof fn lemma_levels_wf_skip(levels: Seq<LevelView>, hib: bool, i: int)
    requires
        levels_wf(levels, hib),
        0 <= i <= levels.len(),
    ensures
        levels_wf(levels.skip(i), hib),
{
    let s = levels.skip(i);
    assert(forall|k: int| 0 <= k < s.len() ==> #[trigger] s[k] == levels[k + i]);
}

/// Replacing one level changes the count by the change in its queue.
pub proof fn lemma_count_orders_update(levels: Seq<LevelView>, i: int, l: LevelView)
    requires
        0 <= i < levels.len(),
    ensures
        count_orders(levels.update(i, l)) == count_orders(levels) - levels[i].orders.len() + l.orders.len(),
    decreases i,
{
    if i > 0 {
        assert(levels.update(i, l).drop_first() =~= levels.drop_first().update(i - 1, l));
        lemma_count_orders_update(levels.drop_first(), i - 1, l);
    } else {
        assert(levels.update(0, l).drop_first() =~= levels.drop_first());
    }
}

/// Inserting a level adds its queue to the count.
pub proof fn lemma_count_orders_insert(levels: Seq<LevelView>, i: int, l: LevelView)
    requires
        0 <= i <= levels.len(),
    ensures
        count_orders(levels.insert(i, l)) == count_orders(levels) + l.orders.len(),
    decreases i,
{
    if i == 0 {
        assert(levels.insert(0, l).drop_first() =~= levels);
    } else {
        assert(levels.insert(i, l).drop_first() =~= levels.drop_first().insert(i - 1, l));
        lemma_count_orders_insert(levels.drop_first(), i - 1, l);
    }
}

/// Removing a level takes its queue off the count.
pub proof fn lemma_count_orders_remove(levels: Seq<LevelView>, i: int)
    requires
        0 <= i < levels.len(),
    ensures
        count_orders(levels.remove(i)) == count_orders(levels) - levels[i].orders.len(),
    decreases i,
{
    if i == 0 {
        assert(levels.remove(0) =~= levels.drop_first());
    } else {
        assert(levels.remove(i).drop_first() =~= levels.drop_first().remove(i - 1));
        lemma_count_orders_remove(levels.drop_first(), i - 1);
    }
}

/// Whether tick `a` ranks strictly before tick `b`.
pub fn better_tick(higher_is_better: bool, a: u64, b: u64) -> (r: bool)
    ensures
        r == better(higher_is_better, a, b),
{
    if higher_is_better {
        a > b
    } else {
        a < b
    }
}


impl OrderbookSide {
    /// Takes the order `id` out of the level at `tick`; a level left empty
    /// goes too. Returns the order, or `None` when the level holds no such
    /// order.
    pub fn remove_order(&mut self, tick: u64, id: u64) -> (r: Option<Order>)
        requires
            old(self).wf(),
        ensures
            final(self).wf(),
            final(self).higher_is_better == old(self).higher_is_better,
            match r {
                Some(o) => exists|i: int, j: int|
                    #![trigger old(self)@[i].orders[j]]
                    holds_at(old(self)@, i, j) && old(self)@[i].price_tick == tick
                        && old(self)@[i].orders[j] == o && o.id == id
                        && final(self)@ == without_order(old(self)@, i, j),
                None => final(self)@ == old(self)@ && forall|i: int, j: int|
                    holds_at(old(self)@, i, j) && old(self)@[i].price_tick == tick
                        ==> (#[trigger] old(self)@[i].orders[j]).id != id,
            },
            r is Some ==> count_orders(final(self)@) == count_orders(old(self)@) - 1,
    {
        let ghost lv = self@;
        let ghost hib = self.higher_is_better;
        let mut i: usize = 0;
        while i < self.levels.len() && self.levels[i].price_tick != tick
            invariant
                i <= self.levels.len(),
                self@ == lv,
                forall|k: int| 0 <= k < i ==> (#[trigger] lv[k]).price_tick != tick,
            decreases self.levels.len() - i,
        {
            i = i + 1;
        }
        if i == self.levels.len() {
            return None;
        }
        let mut j: usize = 0;
        let n = self.levels[i].orders.len();
        assert(self.levels@[i as int].orders@ == lv[i as int].orders);
        while j < n && self.levels[i].orders[j].id != id
            invariant
                i < self.levels.len(),
                self@ == lv,
                n == lv[i as int].orders.len(),
                j <= n,
                forall|k: int| 0 <= k < j ==> (#[trigger] lv[i as int].orders[k]).id != id,
            decreases n - j,
        {
            j = j + 1;
        }
        if j == n {
            proof {
                assert forall|a: int, b: int|
                    holds_at(lv, a, b) && lv[a].price_tick == tick implies (#[trigger] lv[a].orders[b]).id != id by {
                    if a != i {
                        assert(better(hib, lv[a].price_tick, lv[i as int].price_tick) || better(
                            hib,
                            lv[i as int].price_tick,
                            lv[a].price_tick,
                        ));
                    }
                }
            }
            return None;
        }
        assert(self.levels@[i as int].total_quantity == sum_residuals(lv[i as int].orders));
        let mut level = self.levels.remove(i);
        let ghost l = level@;
        assert(l == lv[i as int]);
        let o = level.orders.remove(j);
        proof {
            let rest = l.orders.remove(j as int);
            assert(level_wf(l, side_of(hib)));
            assert(forall|k: int| 0 <= k < rest.len() ==> #[trigger] rest[k] == l.orders[if k < j { k } else { k + 1 }]);
            assert(forall|k: int| 0 <= k < rest.len() ==> resting_ok(#[trigger] rest[k], l.price_tick, side_of(hib)));
            lemma_sum_residuals_nonneg(rest);
            lemma_sum_residuals_remove(l.orders, j as int);
            assert(level_wf(l, side_of(hib)));
            assert(resting_ok(l.orders[j as int], l.price_tick, side_of(hib)));
            lemma_count_orders_update(lv, i as int, with_orders(l, l.orders.remove(j as int)));
        }
        level.total_quantity = level.total_quantity - (o.quantity - o.quantity_filled);
        if level.orders.len() > 0 {
            self.levels.insert(i, level);
            assert(self@ =~= lv.update(i as int, with_orders(l, l.orders.remove(j as int))));
            assert(level_wf(self@[i as int], side_of(hib)));
        } else {
            assert(self@ =~= lv.remove(i as int));
            proof {
                lemma_count_orders_remove(lv, i as int);
            }
        }
        assert(self@ == without_order(lv, i as int, j as int));
        self.refresh_extrema();
        Some(o)
    }

    /// The resting order with id `id`, if the side holds one.
    pub fn find_order(&self, id: u64) -> (r: Option<Order>)
        requires
            self.wf(),
        ensures
            match r {
                Some(o) => o.id == id && holds_order(self@, o),
                None => forall|i: int, j: int| holds_at(self@, i, j) ==> (#[trigger] self@[i].orders[j]).id != id,
            },
    {
        let mut i: usize = 0;
        while i < self.levels.len()
            invariant
                i <= self.levels.len(),
                forall|a: int, b: int| 0 <= a < i && holds_at(self@, a, b) ==> (#[trigger] self@[a].orders[b]).id != id,
            decreases self.levels.len() - i,
        {
            let level = &self.levels[i];
            assert(level.orders@ == self@[i as int].orders);
            let mut j: usize = 0;
            while j < level.orders.len()
                invariant
                    i < self.levels.len(),
                    level.orders@ == self@[i as int].orders,
                    j <= level.orders.len(),
                    forall|b: int| 0 <= b < j ==> (#[trigger] self@[i as int].orders[b]).id != id,
                decreases level.orders.len() - j,
            {
                if level.orders[j].id == id {
                    return Some(level.orders[j]);
                }
                j = j + 1;
            }
            i = i + 1;
        }
        None
    }

    /// The first `k` levels, best first, each as its tick and open quantity.
    pub fn depth(&self, k: usize) -> (r: Vec<DepthLevel>)
        requires
            self.levels_ok(),
        ensures
            r@ == depth_lines(self@, k as int),
    {
        let mut r: Vec<DepthLevel> = Vec::new();
        let mut i: usize = 0;
        while i < self.levels.len() && i < k
            invariant
                self.levels_ok(),
                i <= self.levels.len(),
                i <= k,
                r@.len() == i,
                forall|a: int| 0 <= a < i ==> #[trigger] r@[a] == depth_line(self@[a]),
            decreases self.levels.len() - i,
        {
            assert(self.levels@[i as int].total_quantity == sum_residuals(self@[i as int].orders));
            r.push(DepthLevel { price_tick: self.levels[i].price_tick, quantity: self.levels[i].total_quantity });
            i = i + 1;
        }
        assert(r@ =~= depth_lines(self@, k as int));
        r
    }
}

} // verus!
