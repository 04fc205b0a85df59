//! Properties of matching and of the book, proved over the model.
use vstd::prelude::*;
use crate::model::{
    crosses, level_wf, levels_wf, make_trade, match_levels, min_int, resting_ok, side_of,
    sum_residuals, with_orders, LevelView,
};
use crate::orderbook::{add_order_spec, cancel_spec, is_at, lemma_match_keeps_ids, position_of, BookView};
use crate::model::{better, crossing_quantity};
use crate::side::without_order;
use crate::funds::{base_amount, credit, quote_amount, Holding};
use crate::side::{depth_line, depth_lines, holds_at};
use crate::types::{opposite, Order, OrderSide, TimeInForce, Trade};

verus! {

/// Total quantity of a sequence of trades.
pub open spec fn traded_quantity(trades: Seq<Trade>) -> int
    decreases trades.len(),
{
    if trades.len() == 0 {
        0
    } else {
        trades[0].quantity + traded_quantity(trades.drop_first())
    }
}

/// Taking the front order off well-formed levels leaves them well formed.
pub proof fn lemma_front_drop_wf(levels: Seq<LevelView>, hib: bool)
    requires
        levels_wf(levels, hib),
        levels.len() > 0,
    ensures
        levels[0].orders.len() > 1 ==> levels_wf(
            levels.update(0, with_orders(levels[0], levels[0].orders.drop_first())),
            hib,
        ),
        levels_wf(levels.drop_first(), hib),
{
    let l0 = levels[0];
    assert(level_wf(l0, side_of(hib)));
    let d = l0.orders.drop_first();
    assert(forall|j: int| 0 <= j < d.len() ==> #[trigger] d[j] == l0.orders[j + 1]);
    assert(forall|j: int| 0 <= j < d.len() ==> resting_ok(#[trigger] l0.orders[j + 1], l0.price_tick, side_of(hib)));
    crate::side::lemma_sum_residuals_nonneg(d);
    if l0.orders.len() > 1 {
        assert(sum_residuals(l0.orders) == l0.orders[0].residual() + sum_residuals(d));
        assert(level_wf(with_orders(l0, d), side_of(hib)));
        let n2 = levels.update(0, with_orders(l0, d));
        assert(levels_wf(n2, hib));
    }
    let dl = levels.drop_first();
    assert(forall|k: int| 0 <= k < dl.len() ==> #[trigger] dl[k] == levels[k + 1]);
    assert(levels_wf(dl, hib));
}

/// Matching fills the taker by exactly the quantity of its trades, and
/// never beyond its quantity.
pub proof fn lemma_match_fills(levels: Seq<LevelView>, hib: bool, taker: Order, next_id: int, ts: u64)
    requires
        levels_wf(levels, hib),
        taker.quantity_filled <= taker.quantity,
    ensures
        ({
            let m = match_levels(levels, taker, next_id, ts);
            &&& m.1.quantity_filled == taker.quantity_filled + traded_quantity(m.2)
            &&& m.1.quantity_filled <= m.1.quantity
            &&& m.1 == taker.filled_by(m.1.quantity_filled - taker.quantity_filled)
        }),
    decreases levels.len(), levels[0].orders.len(),
{
    let m = match_levels(levels, taker, next_id, ts);
    if levels.len() == 0 || taker.residual() <= 0 || !crosses(taker, levels[0].price_tick) {
        assert(traded_quantity(m.2) == 0);
        assert(m.1 == taker.filled_by(0));
    } else {
        let l0 = levels[0];
        assert(level_wf(l0, side_of(hib)));
        let maker = l0.orders[0];
        assert(resting_ok(maker, l0.price_tick, side_of(hib)));
        let q = min_int(taker.residual(), maker.residual());
        let trade = make_trade(taker, maker, q, next_id, ts);
        let taker2 = taker.filled_by(q);
        let maker2 = maker.filled_by(q);
        if maker2.residual() > 0 {
            assert(m.2 =~= seq![trade]);
            assert(seq![trade].drop_first() =~= Seq::<Trade>::empty());
            assert(traded_quantity(Seq::<Trade>::empty()) == 0);
            assert(traded_quantity(m.2) == trade.quantity + traded_quantity(Seq::<Trade>::empty()));
            assert(traded_quantity(m.2) == q);
        } else {
            lemma_front_drop_wf(levels, hib);
            let rest = l0.orders.drop_first();
            let levels2 = if rest.len() == 0 {
                levels.drop_first()
            } else {
                levels.update(0, with_orders(l0, rest))
            };
            lemma_match_fills(levels2, hib, taker2, next_id + 1, ts);
            let r = match_levels(levels2, taker2, next_id + 1, ts);
            assert((seq![trade] + r.2).drop_first() =~= r.2);
        }
    }
}


/// A depth summary has at most `k` lines per side, bids strictly
/// descending and asks strictly ascending by tick; each line's quantity is
/// the open quantity of the live orders at its tick, and is positive.
pub proof fn law_depth(book: BookView, k: int)
    requires
        book.wf(),
        k >= 0,
    ensures
        depth_lines(book.bids, k).len() <= k,
        depth_lines(book.asks, k).len() <= k,
        forall|i: int, j: int|
            0 <= i < j < depth_lines(book.bids, k).len() ==> (#[trigger] depth_lines(book.bids, k)[i]).price_tick
                > (#[trigger] depth_lines(book.bids, k)[j]).price_tick,
        forall|i: int, j: int|
            0 <= i < j < depth_lines(book.asks, k).len() ==> (#[trigger] depth_lines(book.asks, k)[i]).price_tick
                < (#[trigger] depth_lines(book.asks, k)[j]).price_tick,
        forall|i: int|
            0 <= i < depth_lines(book.bids, k).len() ==> {
                let d = #[trigger] depth_lines(book.bids, k)[i];
                &&& d.price_tick == book.bids[i].price_tick
                &&& d.quantity == sum_residuals(book.bids[i].orders)
                &&& d.quantity > 0
                &&& forall|j: int| 0 <= j < book.bids[i].orders.len() ==> !(#[trigger] book.bids[i].orders[j]).is_cancelled
            },
        forall|i: int|
            0 <= i < depth_lines(book.asks, k).len() ==> {
                let d = #[trigger] depth_lines(book.asks, k)[i];
                &&& d.price_tick == book.asks[i].price_tick
                &&& d.quantity == sum_residuals(book.asks[i].orders)
                &&& d.quantity > 0
                &&& forall|j: int| 0 <= j < book.asks[i].orders.len() ==> !(#[trigger] book.asks[i].orders[j]).is_cancelled
            },
{
    law_no_empty_levels(book);
    assert forall|i: int, j: int| 0 <= i < j < depth_lines(book.bids, k).len() implies (#[trigger] depth_lines(
        book.bids,
        k,
    )[i]).price_tick > (#[trigger] depth_lines(book.bids, k)[j]).price_tick by {
        assert(crate::model::better(true, book.bids[i].price_tick, book.bids[j].price_tick));
    }
    assert forall|i: int, j: int| 0 <= i < j < depth_lines(book.asks, k).len() implies (#[trigger] depth_lines(
        book.asks,
        k,
    )[i]).price_tick < (#[trigger] depth_lines(book.asks, k)[j]).price_tick by {
        assert(crate::model::better(false, book.asks[i].price_tick, book.asks[j].price_tick));
    }
    assert forall|i: int| 0 <= i < depth_lines(book.bids, k).len() implies {
        let d = #[trigger] depth_lines(book.bids, k)[i];
        &&& d.price_tick == book.bids[i].price_tick
        &&& d.quantity == sum_residuals(book.bids[i].orders)
        &&& d.quantity > 0
        &&& forall|j: int| 0 <= j < book.bids[i].orders.len() ==> !(#[trigger] book.bids[i].orders[j]).is_cancelled
    } by {
        assert(level_wf(book.bids[i], side_of(true)));
        assert(depth_lines(book.bids, k)[i] == depth_line(book.bids[i]));
    }
    assert forall|i: int| 0 <= i < depth_lines(book.asks, k).len() implies {
        let d = #[trigger] depth_lines(book.asks, k)[i];
        &&& d.price_tick == book.asks[i].price_tick
        &&& d.quantity == sum_residuals(book.asks[i].orders)
        &&& d.quantity > 0
        &&& forall|j: int| 0 <= j < book.asks[i].orders.len() ==> !(#[trigger] book.asks[i].orders[j]).is_cancelled
    } by {
        assert(level_wf(book.asks[i], side_of(false)));
        assert(depth_lines(book.asks, k)[i] == depth_line(book.asks[i]));
    }
}

/// A well-formed queue of resting orders has a positive open quantity.
pub proof fn lemma_level_positive(l: LevelView, side: OrderSide)
    requires
        level_wf(l, side),
    ensures
        sum_residuals(l.orders) > 0,
{
    let d = l.orders.drop_first();
    assert(forall|j: int| 0 <= j < d.len() ==> #[trigger] d[j] == l.orders[j + 1]);
    assert(forall|j: int| 0 <= j < d.len() ==> resting_ok(#[trigger] l.orders[j + 1], l.price_tick, side));
    crate::side::lemma_sum_residuals_nonneg(d);
    assert(resting_ok(l.orders[0], l.price_tick, side));
}

/// Every level a well-formed book stores holds at least one live order and
/// a positive open quantity. Every operation of the book keeps it well
/// formed, so this holds between any two of them.
pub proof fn law_no_empty_levels(book: BookView)
    requires
        book.wf(),
    ensures
        forall|i: int|
            0 <= i < book.bids.len() ==> (#[trigger] book.bids[i]).orders.len() > 0 && sum_residuals(
                book.bids[i].orders,
            ) > 0 && exists|j: int| 0 <= j < book.bids[i].orders.len() && !(#[trigger] book.bids[i].orders[j]).is_cancelled,
        forall|i: int|
            0 <= i < book.asks.len() ==> (#[trigger] book.asks[i]).orders.len() > 0 && sum_residuals(
                book.asks[i].orders,
            ) > 0 && exists|j: int| 0 <= j < book.asks[i].orders.len() && !(#[trigger] book.asks[i].orders[j]).is_cancelled,
{
    assert forall|i: int| 0 <= i < book.bids.len() implies (#[trigger] book.bids[i]).orders.len() > 0 && sum_residuals(
        book.bids[i].orders,
    ) > 0 && exists|j: int| 0 <= j < book.bids[i].orders.len() && !(#[trigger] book.bids[i].orders[j]).is_cancelled by {
        assert(level_wf(book.bids[i], side_of(true)));
        lemma_level_positive(book.bids[i], side_of(true));
        assert(resting_ok(book.bids[i].orders[0], book.bids[i].price_tick, side_of(true)));
    }
    assert forall|i: int| 0 <= i < book.asks.len() implies (#[trigger] book.asks[i]).orders.len() > 0 && sum_residuals(
        book.asks[i].orders,
    ) > 0 && exists|j: int| 0 <= j < book.asks[i].orders.len() && !(#[trigger] book.asks[i].orders[j]).is_cancelled by {
        assert(level_wf(book.asks[i], side_of(false)));
        lemma_level_positive(book.asks[i], side_of(false));
        assert(resting_ok(book.asks[i].orders[0], book.asks[i].price_tick, side_of(false)));
    }
}

/// Matching numbers its trades consecutively from `next_id`.
pub proof fn lemma_match_trade_ids(levels: Seq<LevelView>, taker: Order, next_id: int, ts: u64)
    requires
        0 <= next_id,
        next_id + crate::model::count_orders(levels) <= u64::MAX,
    ensures
        ({
            let t = match_levels(levels, taker, next_id, ts).2;
            forall|k: int| 0 <= k < t.len() ==> (#[trigger] t[k]).id == next_id + k
        }),
    decreases levels.len(), levels[0].orders.len(),
{
    let m = match_levels(levels, taker, next_id, ts);
    if levels.len() == 0 || taker.residual() <= 0 || !crosses(taker, levels[0].price_tick) {
    } else if levels[0].orders.len() == 0 {
        crate::side::lemma_count_orders_nonneg(levels.drop_first());
        assert(crate::model::count_orders(levels) == crate::model::count_orders(levels.drop_first()));
        lemma_match_trade_ids(levels.drop_first(), taker, next_id, ts);
        assert(m == match_levels(levels.drop_first(), taker, next_id, ts));
    } else {
        let l0 = levels[0];
        let maker = l0.orders[0];
        let q = min_int(taker.residual(), maker.residual());
        let taker2 = taker.filled_by(q);
        let maker2 = maker.filled_by(q);
        crate::side::lemma_count_orders_nonneg(levels.drop_first());
        assert(crate::model::count_orders(levels) == l0.orders.len() + crate::model::count_orders(levels.drop_first()));
        assert(next_id < u64::MAX);
        if maker2.residual() > 0 {
            assert(m.2.len() == 1);
            assert(m.2[0].id == next_id);
        } else {
            let rest = l0.orders.drop_first();
            let levels2 = if rest.len() == 0 {
                levels.drop_first()
            } else {
                levels.update(0, with_orders(l0, rest))
            };
            if rest.len() > 0 {
                crate::side::lemma_count_orders_update(levels, 0, with_orders(l0, rest));
            }
            lemma_match_trade_ids(levels2, taker2, next_id + 1, ts);
            assert(m.2[0].id == next_id);
            let r = match_levels(levels2, taker2, next_id + 1, ts);
            assert forall|k: int| 0 <= k < m.2.len() implies (#[trigger] m.2[k]).id == next_id + k by {
                if k > 0 {
                    assert(m.2[k] == r.2[k - 1]);
                }
            }
        }
    }
}

/// Each placement takes the next order id, and an order it reports carries
/// that id; its trades take the next trade ids, one after the other. Ids
/// therefore strictly increase across placements and across trades.
pub proof fn law_monotonic_ids(
    book: BookView,
    user_id: u64,
    price_tick: u64,
    quantity: u64,
    side: OrderSide,
    tif: TimeInForce,
    ts: u64,
)
    requires
        book.wf(),
        book.has_room(side, price_tick, quantity),
    ensures
        ({
            let s = add_order_spec(book, user_id, price_tick, quantity, side, tif, ts);
            &&& s.2.next_order_id == book.next_order_id + 1
            &&& s.0 is Some ==> s.0->0.id == book.next_order_id
            &&& s.2.next_trade_id == book.next_trade_id + s.1.len()
            &&& forall|k: int| 0 <= k < s.1.len() ==> (#[trigger] s.1[k]).id == book.next_trade_id + k
        }),
{
    let opp = book.side(opposite(side));
    crate::side::lemma_count_orders_nonneg(book.bids);
    crate::side::lemma_count_orders_nonneg(book.asks);
    let o0 = Order {
        id: book.next_order_id,
        user_id,
        price_tick,
        quantity,
        quantity_filled: 0,
        side,
        time_in_force: tif,
        timestamp: ts,
        is_cancelled: false,
    };
    lemma_match_trade_ids(opp, o0, book.next_trade_id as int, ts);
    lemma_match_fills(opp, side == OrderSide::Ask, o0, book.next_trade_id as int, ts);
    crate::orderbook::lemma_match_count(opp, o0, book.next_trade_id as int, ts);
    lemma_trades_bounded(opp, side == OrderSide::Ask, o0, book.next_trade_id as int, ts);
}

/// Matching makes at most one trade per resting order it meets.
pub proof fn lemma_trades_bounded(levels: Seq<LevelView>, hib: bool, taker: Order, next_id: int, ts: u64)
    requires
        levels_wf(levels, hib),
    ensures
        match_levels(levels, taker, next_id, ts).2.len() <= crate::model::count_orders(levels),
    decreases levels.len(), levels[0].orders.len(),
{
    if levels.len() == 0 || taker.residual() <= 0 || !crosses(taker, levels[0].price_tick) {
        crate::side::lemma_count_orders_nonneg(levels);
    } else {
        let l0 = levels[0];
        assert(level_wf(l0, side_of(hib)));
        let maker = l0.orders[0];
        let q = min_int(taker.residual(), maker.residual());
        let taker2 = taker.filled_by(q);
        let maker2 = maker.filled_by(q);
        crate::side::lemma_count_orders_nonneg(levels.drop_first());
        if maker2.residual() > 0 {
        } else {
            lemma_front_drop_wf(levels, hib);
            let rest = l0.orders.drop_first();
            let levels2 = if rest.len() == 0 {
                levels.drop_first()
            } else {
                levels.update(0, with_orders(l0, rest))
            };
            if rest.len() > 0 {
                crate::side::lemma_count_orders_update(levels, 0, with_orders(l0, rest));
            }
            lemma_trades_bounded(levels2, hib, taker2, next_id + 1, ts);
        }
    }
}

/// An immediate-or-cancel order never rests: after the call the book holds
/// no order with its id.
pub proof fn law_ioc_never_rests(
    book: BookView,
    user_id: u64,
    price_tick: u64,
    quantity: u64,
    side: OrderSide,
    ts: u64,
)
    requires
        book.wf(),
    ensures
        !add_order_spec(book, user_id, price_tick, quantity, side, TimeInForce::IOC, ts).2.holds_id(
            book.next_order_id,
        ),
{
    let s = add_order_spec(book, user_id, price_tick, quantity, side, TimeInForce::IOC, ts);
    let opp = book.side(opposite(side));
    let o0 = Order {
        id: book.next_order_id,
        user_id,
        price_tick,
        quantity,
        quantity_filled: 0,
        side,
        time_in_force: TimeInForce::IOC,
        timestamp: ts,
        is_cancelled: false,
    };
    lemma_match_keeps_ids(opp, o0, book.next_trade_id as int, ts, book.next_order_id);
    let b = s.2;
    assert forall|i: int, j: int| holds_at(b.bids, i, j) implies (#[trigger] b.bids[i].orders[j]).id != book.next_order_id by {
    }
    assert forall|i: int, j: int| holds_at(b.asks, i, j) implies (#[trigger] b.asks[i].orders[j]).id != book.next_order_id by {
    }
}


/// When the levels that cross the taker's price hold its open quantity,
/// matching fills it completely.
pub proof fn lemma_full_fill(levels: Seq<LevelView>, hib: bool, taker: Order, next_id: int, ts: u64)
    requires
        levels_wf(levels, hib),
        taker.quantity_filled <= taker.quantity,
        crossing_quantity(levels, taker) >= taker.residual(),
    ensures
        match_levels(levels, taker, next_id, ts).1.residual() == 0,
    decreases levels.len(), levels[0].orders.len(),
{
    if levels.len() == 0 || taker.residual() <= 0 || !crosses(taker, levels[0].price_tick) {
    } else {
        let l0 = levels[0];
        assert(level_wf(l0, side_of(hib)));
        let maker = l0.orders[0];
        assert(resting_ok(maker, l0.price_tick, side_of(hib)));
        let q = min_int(taker.residual(), maker.residual());
        let taker2 = taker.filled_by(q);
        let maker2 = maker.filled_by(q);
        if maker2.residual() > 0 {
        } else {
            lemma_front_drop_wf(levels, hib);
            let rest = l0.orders.drop_first();
            let d = levels.drop_first();
            assert(sum_residuals(l0.orders) == maker.residual() + sum_residuals(rest));
            if rest.len() == 0 {
                assert(sum_residuals(rest) == 0);
                lemma_crossing_same_price(d, taker, taker2);
                lemma_full_fill(d, hib, taker2, next_id + 1, ts);
            } else {
                let levels2 = levels.update(0, with_orders(l0, rest));
                assert(levels2.drop_first() =~= d);
                assert(crossing_quantity(levels2, taker2) == sum_residuals(rest) + crossing_quantity(d, taker2));
                assert(crossing_quantity(d, taker2) == crossing_quantity(d, taker)) by {
                    lemma_crossing_same_price(d, taker, taker2);
                }
                lemma_full_fill(levels2, hib, taker2, next_id + 1, ts);
            }
        }
    }
}

/// `crossing_quantity` depends on the taker's side and price only.
pub proof fn lemma_crossing_same_price(levels: Seq<LevelView>, a: Order, b: Order)
    requires
        a.side == b.side,
        a.price_tick == b.price_tick,
    ensures
        crossing_quantity(levels, a) == crossing_quantity(levels, b),
    decreases levels.len(),
{
    if levels.len() > 0 {
        lemma_crossing_same_price(levels.drop_first(), a, b);
    }
}

/// A fill-or-kill placement that reports no order made no trade and left
/// the book as it was, but for the order id it used up.
pub proof fn law_fok_atomic(
    book: BookView,
    user_id: u64,
    price_tick: u64,
    quantity: u64,
    side: OrderSide,
    ts: u64,
)
    requires
        book.wf(),
    ensures
        ({
            let s = add_order_spec(book, user_id, price_tick, quantity, side, TimeInForce::FOK, ts);
            s.0 is None ==> s.1.len() == 0 && s.2 == BookView { next_order_id: (book.next_order_id + 1) as u64, ..book }
        }),
{
    let opp = book.side(opposite(side));
    let o0 = Order {
        id: book.next_order_id,
        user_id,
        price_tick,
        quantity,
        quantity_filled: 0,
        side,
        time_in_force: TimeInForce::FOK,
        timestamp: ts,
        is_cancelled: false,
    };
    if !(opp.len() == 0) && crossing_quantity(opp, o0) >= quantity {
        lemma_full_fill(opp, side == OrderSide::Ask, o0, book.next_trade_id as int, ts);
    }
}

/// Once an order is cancelled, cancelling it again (same id, tick and
/// side) fails.
pub proof fn law_cancel_idempotent(book: BookView, order_id: u64, price_tick: u64, side: OrderSide)
    requires
        book.wf(),
        cancel_spec(book, order_id, price_tick, side).0,
    ensures
        !cancel_spec(cancel_spec(book, order_id, price_tick, side).1, order_id, price_tick, side).0,
{
    let hib = side == OrderSide::Bid;
    let levels = book.side(side);
    assert(levels_wf(levels, hib));
    let (i, j) = position_of(levels, price_tick, order_id);
    assert(crate::orderbook::has_order_at(levels, price_tick, order_id));
    assert(is_at(levels, price_tick, order_id, i, j));
    let new = without_order(levels, i, j);
    let after = cancel_spec(book, order_id, price_tick, side).1;
    assert(after.side(side) == new);
    let l = levels[i];
    assert(level_wf(l, side_of(hib)));
    let rest = l.orders.remove(j);
    assert forall|a: int, b: int| !is_at(new, price_tick, order_id, a, b) by {
        if is_at(new, price_tick, order_id, a, b) {
            if rest.len() == 0 {
                let a2 = if a < i { a } else { a + 1 };
                assert(new[a] == levels[a2]);
                if a2 < i {
                    assert(better(hib, levels[a2].price_tick, levels[i].price_tick));
                } else {
                    assert(better(hib, levels[i].price_tick, levels[a2].price_tick));
                }
            } else if a != i {
                assert(new[a] == levels[a]);
                if a < i {
                    assert(better(hib, levels[a].price_tick, levels[i].price_tick));
                } else {
                    assert(better(hib, levels[i].price_tick, levels[a].price_tick));
                }
            } else {
                let b2 = if b < j { b } else { b + 1 };
                assert(new[a].orders[b] == l.orders[b2]);
                if b2 < j {
                    assert(l.orders[b2].id < l.orders[j].id);
                } else {
                    assert(l.orders[j].id < l.orders[b2].id);
                }
            }
        }
    }
}

/// There is one first record of a user id.
pub proof fn lemma_first_id_unique(users: Seq<crate::ledger::User>, uid: u64, a: int, b: int)
    requires
        crate::ledger::is_first_id(users, uid, a),
        crate::ledger::is_first_id(users, uid, b),
    ensures
        a == b,
{
    if a < b {
        assert(users[a].user_id != uid);
    } else if b < a {
        assert(users[b].user_id != uid);
    }
}

/// Changing a user's funds keeps where each user id is first found.
pub proof fn lemma_set_funds_index(
    users: Seq<crate::ledger::User>,
    i: int,
    f: crate::funds::UserFunds,
    uid: u64,
)
    requires
        0 <= i < users.len(),
    ensures
        crate::ledger::user_index(crate::ledger::set_funds(users, i, f), uid) == crate::ledger::user_index(users, uid),
{
    let u2 = crate::ledger::set_funds(users, i, f);
    assert(forall|k: int| 0 <= k < users.len() ==> (#[trigger] u2[k]).user_id == users[k].user_id);
    assert(forall|k: int| 0 <= k < users.len() ==> (#[trigger] users[k]).user_id == u2[k].user_id);
    if exists|c: int| crate::ledger::is_first_id(users, uid, c) {
        let c = choose|c: int| crate::ledger::is_first_id(users, uid, c);
        assert(crate::ledger::is_first_id(u2, uid, c));
        let c2 = choose|c2: int| crate::ledger::is_first_id(u2, uid, c2);
        assert(crate::ledger::is_first_id(users, uid, c2));
        lemma_first_id_unique(users, uid, c, c2);
    } else {
        assert forall|c: int| !crate::ledger::is_first_id(u2, uid, c) by {
            if crate::ledger::is_first_id(u2, uid, c) {
                assert(crate::ledger::is_first_id(users, uid, c));
            }
        }
    }
}

/// Locking an order's collateral and then releasing it leaves every
/// balance as it was: placing and cancelling an order that did not trade
/// gives the user back exactly what it had.
pub proof fn law_round_trip(
    users: Seq<crate::ledger::User>,
    uid: u64,
    symbol: Seq<char>,
    side: OrderSide,
    q: u64,
    p: u64,
    m: u64,
)
    requires
        m > 0,
        crate::ledger::debit_spec(users, uid, symbol, side, q, p, m) is Ok,
    ensures
        crate::ledger::credit_spec(
            crate::ledger::debit_spec(users, uid, symbol, side, q, p, m)->Ok_0,
            uid,
            symbol,
            side,
            q,
            p,
            m,
        ) == Ok::<Seq<crate::ledger::User>, crate::funds::LedgerError>(users),
{
    let i = crate::ledger::user_index(users, uid);
    let a = crate::funds::base_asset_of(symbol)->0;
    let h = crate::funds::collateral_holding(side, a);
    let c = crate::funds::collateral(side, q, p, m);
    let f = users[i].funds;
    let f1 = crate::funds::with_balance(f, h, crate::funds::balance(f, h) - c);
    let u1 = crate::ledger::set_funds(users, i, f1);
    lemma_set_funds_index(users, i, f1, uid);
    assert(u1[i].funds == f1);
    assert(crate::funds::debit(f, h, c) is Ok);
    assert(c >= 0) by {
        lemma_collateral_nonneg(side, q, p, m);
    }
    assert(crate::funds::balance(f1, h) == crate::funds::balance(f, h) - c);
    assert(crate::funds::with_balance(f1, h, crate::funds::balance(f1, h) + c) == f);
    assert(crate::ledger::set_funds(u1, i, f) =~= users);
}

/// Every trade of a match crosses the taker's price, is at the best
/// level's tick or a worse one, and no trade is at a better price than an
/// earlier one.
pub proof fn lemma_match_prices(levels: Seq<LevelView>, hib: bool, taker: Order, next_id: int, ts: u64)
    requires
        levels_wf(levels, hib),
    ensures
        ({
            let t = match_levels(levels, taker, next_id, ts).2;
            &&& forall|k: int| 0 <= k < t.len() ==> crosses(taker, (#[trigger] t[k]).price_tick)
            &&& forall|k: int|
                0 <= k < t.len() ==> (#[trigger] t[k]).price_tick == levels[0].price_tick || better(
                    hib,
                    levels[0].price_tick,
                    t[k].price_tick,
                )
            &&& forall|k: int, l: int|
                0 <= k < l < t.len() ==> (#[trigger] t[k]).price_tick == (#[trigger] t[l]).price_tick || better(
                    hib,
                    t[k].price_tick,
                    t[l].price_tick,
                )
        }),
    decreases levels.len(), levels[0].orders.len(),
{
    let m = match_levels(levels, taker, next_id, ts);
    if levels.len() == 0 || taker.residual() <= 0 || !crosses(taker, levels[0].price_tick) {
    } else {
        let l0 = levels[0];
        assert(level_wf(l0, side_of(hib)));
        let maker = l0.orders[0];
        assert(resting_ok(maker, l0.price_tick, side_of(hib)));
        let q = min_int(taker.residual(), maker.residual());
        let taker2 = taker.filled_by(q);
        let maker2 = maker.filled_by(q);
        if maker2.residual() > 0 {
            assert(m.2.len() == 1);
        } else {
            lemma_front_drop_wf(levels, hib);
            let rest = l0.orders.drop_first();
            let levels2 = if rest.len() == 0 {
                levels.drop_first()
            } else {
                levels.update(0, with_orders(l0, rest))
            };
            lemma_match_prices(levels2, hib, taker2, next_id + 1, ts);
            let r = match_levels(levels2, taker2, next_id + 1, ts);
            assert(forall|k: int| 0 < k < m.2.len() ==> #[trigger] m.2[k] == r.2[k - 1]);
            assert(m.2[0].price_tick == l0.price_tick);
            if levels2.len() > 0 {
                assert(levels2[0].price_tick == l0.price_tick || better(hib, l0.price_tick, levels2[0].price_tick));
            }
            assert forall|k: int| 0 <= k < m.2.len() implies crosses(taker, (#[trigger] m.2[k]).price_tick) by {
                if k > 0 {
                    assert(crosses(taker2, r.2[k - 1].price_tick));
                }
            }
        }
    }
}

/// Price priority: every trade of an incoming bid is at or below its
/// limit, every trade of an incoming ask at or above it (a market order
/// takes any price), and successive trades of one order move away from the
/// taker's favour: up for a bid, down for an ask.
pub proof fn law_price_priority(
    book: BookView,
    user_id: u64,
    price_tick: u64,
    quantity: u64,
    side: OrderSide,
    tif: TimeInForce,
    ts: u64,
)
    requires
        book.wf(),
    ensures
        ({
            let t = add_order_spec(book, user_id, price_tick, quantity, side, tif, ts).1;
            &&& forall|k: int|
                0 <= k < t.len() ==> price_tick == 0 || (side == OrderSide::Bid && (#[trigger] t[k]).price_tick
                    <= price_tick) || (side == OrderSide::Ask && t[k].price_tick >= price_tick)
            &&& forall|k: int, l: int|
                0 <= k < l < t.len() ==> (side == OrderSide::Bid && (#[trigger] t[k]).price_tick
                    <= (#[trigger] t[l]).price_tick) || (side == OrderSide::Ask && t[k].price_tick >= t[l].price_tick)
        }),
{
    let opp = book.side(opposite(side));
    let o0 = Order {
        id: book.next_order_id,
        user_id,
        price_tick,
        quantity,
        quantity_filled: 0,
        side,
        time_in_force: tif,
        timestamp: ts,
        is_cancelled: false,
    };
    lemma_match_prices(opp, side == OrderSide::Ask, o0, book.next_trade_id as int, ts);
}


/// Collateral is never negative.
pub proof fn lemma_collateral_nonneg(side: OrderSide, q: u64, p: u64, m: u64)
    requires
        m > 0,
    ensures
        crate::funds::collateral(side, q, p, m) >= 0,
{
    let mm = m * m;
    assert(mm > 0) by (nonlinear_arith)
        requires
            m > 0,
            mm == m * m,
    ;
    assert(q * p * (crate::funds::USD_SCALE as int) >= 0) by (nonlinear_arith)
        requires
            q >= 0,
            p >= 0,
    ;
    assert(q * (crate::funds::BASE_SCALE as int) >= 0) by (nonlinear_arith)
        requires
            q >= 0,
    ;
    vstd::arithmetic::div_mod::lemma_div_pos_is_pos(q * p * (crate::funds::USD_SCALE as int), mm);
    vstd::arithmetic::div_mod::lemma_div_pos_is_pos(q * (crate::funds::BASE_SCALE as int), m as int);
}


/// Within one match, trades at one tick use resting orders in the order of
/// their ids, which is the order in which they arrived; at the best tick
/// none uses an order older than the front of that level.
pub proof fn lemma_match_time_order(levels: Seq<LevelView>, hib: bool, taker: Order, next_id: int, ts: u64)
    requires
        levels_wf(levels, hib),
    ensures
        ({
            let t = match_levels(levels, taker, next_id, ts).2;
            &&& forall|k: int|
                0 <= k < t.len() && levels.len() > 0 && (#[trigger] t[k]).price_tick == levels[0].price_tick
                    ==> t[k].maker_order_id >= levels[0].orders[0].id
            &&& forall|k: int, l: int|
                0 <= k < l < t.len() && (#[trigger] t[k]).price_tick == (#[trigger] t[l]).price_tick
                    ==> t[k].maker_order_id < t[l].maker_order_id
        }),
    decreases levels.len(), levels[0].orders.len(),
{
    let m = match_levels(levels, taker, next_id, ts);
    if levels.len() == 0 || taker.residual() <= 0 || !crosses(taker, levels[0].price_tick) {
    } else {
        let l0 = levels[0];
        assert(level_wf(l0, side_of(hib)));
        let maker = l0.orders[0];
        assert(resting_ok(maker, l0.price_tick, side_of(hib)));
        let q = min_int(taker.residual(), maker.residual());
        let taker2 = taker.filled_by(q);
        let maker2 = maker.filled_by(q);
        if maker2.residual() > 0 {
            assert(m.2.len() == 1);
        } else {
            lemma_front_drop_wf(levels, hib);
            let rest = l0.orders.drop_first();
            let levels2 = if rest.len() == 0 {
                levels.drop_first()
            } else {
                levels.update(0, with_orders(l0, rest))
            };
            lemma_match_time_order(levels2, hib, taker2, next_id + 1, ts);
            lemma_match_prices(levels2, hib, taker2, next_id + 1, ts);
            let r = match_levels(levels2, taker2, next_id + 1, ts);
            assert(forall|k: int| 0 < k < m.2.len() ==> #[trigger] m.2[k] == r.2[k - 1]);
            assert(m.2[0].maker_order_id == maker.id);
            if rest.len() > 0 {
                assert(l0.orders[0].id < l0.orders[1].id);
                assert(levels2[0].orders[0] == l0.orders[1]);
            } else if levels2.len() > 0 {
                assert(better(hib, l0.price_tick, levels2[0].price_tick));
                assert forall|k: int| 0 <= k < r.2.len() implies (#[trigger] r.2[k]).price_tick != l0.price_tick by {
                    assert(r.2[k].price_tick == levels2[0].price_tick || better(hib, levels2[0].price_tick, r.2[k].price_tick));
                }
            }
            assert forall|k: int, l: int|
                0 <= k < l < m.2.len() && (#[trigger] m.2[k]).price_tick == (#[trigger] m.2[l]).price_tick
                implies m.2[k].maker_order_id < m.2[l].maker_order_id by {
                if k == 0 {
                    assert(m.2[l] == r.2[l - 1]);
                } else {
                    assert(m.2[k] == r.2[k - 1] && m.2[l] == r.2[l - 1]);
                }
            }
        }
    }
}

/// Time priority: among the trades of one incoming order at one price, the
/// resting orders are used in order of arrival (order ids are given out in
/// arrival order, and every queue keeps them increasing).
pub proof fn law_time_priority(
    book: BookView,
    user_id: u64,
    price_tick: u64,
    quantity: u64,
    side: OrderSide,
    tif: TimeInForce,
    ts: u64,
)
    requires
        book.wf(),
    ensures
        ({
            let t = add_order_spec(book, user_id, price_tick, quantity, side, tif, ts).1;
            forall|k: int, l: int|
                0 <= k < l < t.len() && (#[trigger] t[k]).price_tick == (#[trigger] t[l]).price_tick
                    ==> t[k].maker_order_id < t[l].maker_order_id
        }),
{
    let opp = book.side(opposite(side));
    let o0 = Order {
        id: book.next_order_id,
        user_id,
        price_tick,
        quantity,
        quantity_filled: 0,
        side,
        time_in_force: tif,
        timestamp: ts,
        is_cancelled: false,
    };
    lemma_match_time_order(opp, side == OrderSide::Ask, o0, book.next_trade_id as int, ts);
}


/// The sum of one balance over all users.
pub open spec fn total_holding(users: Seq<crate::ledger::User>, h: crate::funds::Holding) -> int
    decreases users.len(),
{
    if users.len() == 0 {
        0
    } else {
        crate::funds::balance(users[0].funds, h) + total_holding(users.drop_first(), h)
    }
}

/// Changing one user's funds changes each total by the change in its balance.
pub proof fn lemma_total_set_funds(
    users: Seq<crate::ledger::User>,
    i: int,
    f: crate::funds::UserFunds,
    h: crate::funds::Holding,
)
    requires
        0 <= i < users.len(),
    ensures
        total_holding(crate::ledger::set_funds(users, i, f), h) == total_holding(users, h)
            - crate::funds::balance(users[i].funds, h) + crate::funds::balance(f, h),
    decreases i,
{
    let u2 = crate::ledger::set_funds(users, i, f);
    if i == 0 {
        assert(u2.drop_first() =~= users.drop_first());
    } else {
        assert(u2.drop_first() =~= crate::ledger::set_funds(users.drop_first(), i - 1, f));
        lemma_total_set_funds(users.drop_first(), i - 1, f, h);
    }
}

/// A balance written and read back, and the others untouched.
pub proof fn lemma_with_balance(f: crate::funds::UserFunds, h: crate::funds::Holding, v: int, g: crate::funds::Holding)
    requires
        0 <= v <= u128::MAX,
    ensures
        crate::funds::balance(crate::funds::with_balance(f, h, v), g) == if g == h {
            v
        } else {
            crate::funds::balance(f, g)
        },
{
}

/// One user's credit of `amt` raises the total of `h` by `amt`.
pub proof fn lemma_credit_total(
    users: Seq<crate::ledger::User>,
    i: int,
    h: crate::funds::Holding,
    amt: int,
    g: crate::funds::Holding,
)
    requires
        0 <= i < users.len(),
        crate::funds::credit(users[i].funds, h, amt) is Ok,
        amt >= 0,
    ensures
        total_holding(crate::ledger::set_funds(users, i, crate::funds::credit(users[i].funds, h, amt)->Ok_0), g)
            == total_holding(users, g) + if g == h { amt } else { 0 },
{
    let f = users[i].funds;
    let v = crate::funds::balance(f, h) + amt;
    lemma_with_balance(f, h, v, g);
    lemma_total_set_funds(users, i, crate::funds::credit(f, h, amt)->Ok_0, g);
}

/// One user's debit of `amt` lowers the total of `h` by `amt`.
pub proof fn lemma_debit_total(
    users: Seq<crate::ledger::User>,
    i: int,
    h: crate::funds::Holding,
    amt: int,
    g: crate::funds::Holding,
)
    requires
        0 <= i < users.len(),
        crate::funds::debit(users[i].funds, h, amt) is Ok,
        amt >= 0,
    ensures
        total_holding(crate::ledger::set_funds(users, i, crate::funds::debit(users[i].funds, h, amt)->Ok_0), g)
            == total_holding(users, g) - if g == h { amt } else { 0 },
{
    let f = users[i].funds;
    let v = crate::funds::balance(f, h) - amt;
    lemma_with_balance(f, h, v, g);
    lemma_total_set_funds(users, i, crate::funds::debit(f, h, amt)->Ok_0, g);
}

/// Locking an order's collateral takes exactly that collateral out of the
/// users' balances, from the balance it is held in and no other.
pub proof fn law_debit_locks_collateral(
    users: Seq<crate::ledger::User>,
    uid: u64,
    symbol: Seq<char>,
    side: OrderSide,
    q: u64,
    p: u64,
    m: u64,
    g: crate::funds::Holding,
)
    requires
        m > 0,
        crate::ledger::debit_spec(users, uid, symbol, side, q, p, m) is Ok,
    ensures
        total_holding(crate::ledger::debit_spec(users, uid, symbol, side, q, p, m)->Ok_0, g) == total_holding(users, g)
            - if g == crate::funds::collateral_holding(side, crate::funds::base_asset_of(symbol)->0) {
            crate::funds::collateral(side, q, p, m)
        } else {
            0
        },
{
    let i = crate::ledger::user_index(users, uid);
    let h = crate::funds::collateral_holding(side, crate::funds::base_asset_of(symbol)->0);
    lemma_collateral_nonneg(side, q, p, m);
    assert(crate::ledger::is_first_id(users, uid, i));
    lemma_debit_total(users, i, h, crate::funds::collateral(side, q, p, m), g);
}

/// Releasing collateral adds exactly that collateral back to the users'
/// balances, to the balance it is held in and no other.
pub proof fn law_credit_releases_collateral(
    users: Seq<crate::ledger::User>,
    uid: u64,
    symbol: Seq<char>,
    side: OrderSide,
    q: u64,
    p: u64,
    m: u64,
    g: crate::funds::Holding,
)
    requires
        m > 0,
        crate::ledger::credit_spec(users, uid, symbol, side, q, p, m) is Ok,
    ensures
        total_holding(crate::ledger::credit_spec(users, uid, symbol, side, q, p, m)->Ok_0, g) == total_holding(users, g)
            + if g == crate::funds::collateral_holding(side, crate::funds::base_asset_of(symbol)->0) {
            crate::funds::collateral(side, q, p, m)
        } else {
            0
        },
{
    let i = crate::ledger::user_index(users, uid);
    let h = crate::funds::collateral_holding(side, crate::funds::base_asset_of(symbol)->0);
    lemma_collateral_nonneg(side, q, p, m);
    assert(crate::ledger::is_first_id(users, uid, i));
    lemma_credit_total(users, i, h, crate::funds::collateral(side, q, p, m), g);
}

/// `q` ticks at `a + b` are worth those at `a` plus those at `b`.
pub proof fn lemma_quote_split(q: u64, a: u64, b: u64, m: u64)
    requires
        a + b <= u64::MAX,
        crate::funds::exact_multiplier(m),
    ensures
        crate::funds::quote_amount(q, (a + b) as u64, m) == crate::funds::quote_amount(q, a, m)
            + crate::funds::quote_amount(q, b, m),
{
    let s = crate::funds::usd_scale(m);
    crate::funds::lemma_exact_amounts(q, (a + b) as u64, m);
    crate::funds::lemma_exact_amounts(q, a, m);
    crate::funds::lemma_exact_amounts(q, b, m);
    assert(q * (a + b) * s == q * a * s + q * b * s) by (nonlinear_arith);
}

/// Settling a trade moves value between its two parties and releases
/// exactly the collateral that the traded quantity held: USD at the taker's
/// limit for an incoming bid (nothing was locked for a market bid, which
/// pays here) or at the trade price for a resting bid, and the base
/// quantity of the ask. Adding what stays locked in the book, no value
/// appears or vanishes. Exact for a multiplier that divides the minor
/// units; with another, each amount is rounded down on its own.
pub proof fn law_settlement_conserves(
    users: Seq<crate::ledger::User>,
    t: Trade,
    symbol: Seq<char>,
    taker_uid: u64,
    maker_uid: u64,
    taker_side: OrderSide,
    limit: u64,
    m: u64,
)
    requires
        crate::funds::exact_multiplier(m),
        crate::ledger::settle_spec(users, t, symbol, taker_uid, maker_uid, taker_side, limit, m) is Ok,
    ensures
        ({
            let after = crate::ledger::settle_spec(users, t, symbol, taker_uid, maker_uid, taker_side, limit, m)->Ok_0;
            let a = crate::funds::base_asset_of(symbol)->0;
            let usd_released = match taker_side {
                OrderSide::Bid => crate::funds::quote_amount(t.quantity, limit, m),
                OrderSide::Ask => crate::funds::quote_amount(t.quantity, t.price_tick, m),
            };
            &&& total_holding(after, crate::funds::Holding::Usd) == total_holding(users, crate::funds::Holding::Usd)
                + usd_released
            &&& total_holding(after, crate::funds::Holding::Base(a)) == total_holding(
                users,
                crate::funds::Holding::Base(a),
            ) + crate::funds::base_amount(t.quantity, m)
        }),
{
    let a = crate::funds::base_asset_of(symbol)->0;
    let ti = crate::ledger::user_index(users, taker_uid);
    let mi = crate::ledger::user_index(users, maker_uid);
    assert(crate::ledger::is_first_id(users, taker_uid, ti));
    assert(crate::ledger::is_first_id(users, maker_uid, mi));
    let q = t.quantity;
    let x = t.price_tick;
    lemma_collateral_nonneg(OrderSide::Bid, q, x, m);
    lemma_collateral_nonneg(OrderSide::Ask, q, x, m);
    lemma_collateral_nonneg(OrderSide::Bid, q, limit, m);
    let f = users[ti].funds;
    match taker_side {
        OrderSide::Bid => {
            let f1 = credit(f, Holding::Base(a), base_amount(q, m))->Ok_0;
            let u1 = crate::ledger::set_funds(users, ti, f1);
            lemma_credit_total(users, ti, Holding::Base(a), base_amount(q, m), Holding::Usd);
            lemma_credit_total(users, ti, Holding::Base(a), base_amount(q, m), Holding::Base(a));
            assert(u1[ti].funds == f1);
            let tf = crate::ledger::taker_receives(f, a, t, taker_side, limit, m)->Ok_0;
            let u2 = crate::ledger::set_funds(users, ti, tf);
            assert(crate::ledger::set_funds(u1, ti, tf) =~= u2);
            if limit >= x {
                let d = (limit - x) as u64;
                lemma_collateral_nonneg(OrderSide::Bid, q, d, m);
                lemma_credit_total(u1, ti, Holding::Usd, quote_amount(q, d, m), Holding::Usd);
                lemma_credit_total(u1, ti, Holding::Usd, quote_amount(q, d, m), Holding::Base(a));
                lemma_quote_split(q, d, x, m);
            } else {
                let d = (x - limit) as u64;
                lemma_collateral_nonneg(OrderSide::Bid, q, d, m);
                lemma_debit_total(u1, ti, Holding::Usd, quote_amount(q, d, m), Holding::Usd);
                lemma_debit_total(u1, ti, Holding::Usd, quote_amount(q, d, m), Holding::Base(a));
                lemma_quote_split(q, d, limit, m);
            }
            lemma_credit_total(u2, mi, Holding::Usd, quote_amount(q, x, m), Holding::Usd);
            lemma_credit_total(u2, mi, Holding::Usd, quote_amount(q, x, m), Holding::Base(a));
        },
        OrderSide::Ask => {
            let tf = crate::ledger::taker_receives(f, a, t, taker_side, limit, m)->Ok_0;
            let u2 = crate::ledger::set_funds(users, ti, tf);
            lemma_credit_total(users, ti, Holding::Usd, quote_amount(q, x, m), Holding::Usd);
            lemma_credit_total(users, ti, Holding::Usd, quote_amount(q, x, m), Holding::Base(a));
            lemma_credit_total(u2, mi, Holding::Base(a), base_amount(q, m), Holding::Usd);
            lemma_credit_total(u2, mi, Holding::Base(a), base_amount(q, m), Holding::Base(a));
        },
    }
}


/// Where position (`i`, `j`) of `side` stands among the book's orders: bids
/// first, then asks, each in priority order.
pub open spec fn global_index(book: BookView, side: OrderSide, i: int, j: int) -> int {
    match side {
        OrderSide::Bid => crate::ids::offset(book.bids, i) + j,
        OrderSide::Ask => crate::ids::flatten(book.bids).len() + crate::ids::offset(book.asks, i) + j,
    }
}

/// Order ids are unique in a well-formed book: two positions that hold
/// orders with the same id are one position, on one side. So the order
/// that `get_order_by_id` returns is the one resting order with that id.
pub proof fn law_ids_unique(book: BookView, s1: OrderSide, i1: int, j1: int, s2: OrderSide, i2: int, j2: int)
    requires
        book.wf(),
        holds_at(book.side(s1), i1, j1),
        holds_at(book.side(s2), i2, j2),
        book.side(s1)[i1].orders[j1].id == book.side(s2)[i2].orders[j2].id,
    ensures
        s1 == s2 && i1 == i2 && j1 == j2,
{
    let a = crate::ids::ids(crate::ids::flatten(book.bids));
    let b = crate::ids::ids(crate::ids::flatten(book.asks));
    let all = a + b;
    crate::ids::lemma_flatten_at(book.side(s1), i1, j1);
    crate::ids::lemma_flatten_at(book.side(s2), i2, j2);
    let k1 = global_index(book, s1, i1, j1);
    let k2 = global_index(book, s2, i2, j2);
    assert(0 <= k1 < all.len() && all[k1] == book.side(s1)[i1].orders[j1].id);
    assert(0 <= k2 < all.len() && all[k2] == book.side(s2)[i2].orders[j2].id);
    if k1 != k2 {
        if k1 < k2 {
            assert(all[k1] != all[k2]);
        } else {
            assert(all[k2] != all[k1]);
        }
    }
    assert(k1 == k2);
    let levels = book.side(s1);
    if s1 == s2 {
        if i1 < i2 {
            crate::ids::lemma_offset_order(levels, i1, i2);
        } else if i2 < i1 {
            crate::ids::lemma_offset_order(levels, i2, i1);
        }
    }
}

} // verus!
