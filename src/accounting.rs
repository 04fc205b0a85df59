//! What the book holds as collateral, and how matching, resting and the
//! ledger move it: the value in users' balances plus the value locked in
//! resting orders is kept.
use vstd::prelude::*;
use crate::laws::{lemma_front_drop_wf, traded_quantity};
use crate::model::{
    crosses, insert_resting, level_wf, levels_wf, make_trade, match_levels, min_int, resting_ok,
    side_of, sum_residuals, with_orders, LevelView,
};
use crate::types::{opposite, Order, OrderSide, TimeInForce, Trade};
use crate::funds::{
    base_amount, base_asset_of, collateral, collateral_holding, credit, quote_amount, exact_multiplier, lemma_exact_amounts, usd_scale, base_scale, Holding,
};
use crate::gateway::{refund_quantity, rests, settle_all};
use crate::laws::{
    law_credit_releases_collateral, law_debit_locks_collateral, law_settlement_conserves, lemma_match_fills,
    total_holding,
};
use crate::ledger::{credit_spec, debit_spec, settle_spec, User};
use crate::orderbook::{add_order_spec, cancel_spec, has_order_at, higher_is_better, is_at, position_of, BookView};
use crate::side::{holds_at, without_order};

verus! {

/// Open quantity resting in the levels.
pub open spec fn open_quantity(levels: Seq<LevelView>) -> int
    decreases levels.len(),
{
    if levels.len() == 0 {
        0
    } else {
        sum_residuals(levels[0].orders) + open_quantity(levels.drop_first())
    }
}

/// Open quantity times price, summed over the levels, in ticks squared.
pub open spec fn open_value(levels: Seq<LevelView>) -> int
    decreases levels.len(),
{
    if levels.len() == 0 {
        0
    } else {
        levels[0].price_tick * sum_residuals(levels[0].orders) + open_value(levels.drop_first())
    }
}

/// Quantity times price, summed over the trades, in ticks squared.
pub open spec fn traded_value(trades: Seq<Trade>) -> int
    decreases trades.len(),
{
    if trades.len() == 0 {
        0
    } else {
        trades[0].quantity * trades[0].price_tick + traded_value(trades.drop_first())
    }
}

/// Matching takes out of the levels exactly the quantity, and the value,
/// of the trades it makes.
pub proof fn lemma_match_moves_open(levels: Seq<LevelView>, hib: bool, taker: Order, next_id: int, ts: u64)
    requires
        levels_wf(levels, hib),
    ensures
        ({
            let m = match_levels(levels, taker, next_id, ts);
            &&& open_quantity(m.0) == open_quantity(levels) - traded_quantity(m.2)
            &&& open_value(m.0) == open_value(levels) - traded_value(m.2)
        }),
    decreases levels.len(), levels[0].orders.len(),
{
    let m = match_levels(levels, taker, next_id, ts);
    if levels.len() == 0 || taker.residual() <= 0 || !crosses(taker, levels[0].price_tick) {
        assert(traded_quantity(m.2) == 0);
        assert(traded_value(m.2) == 0);
    } else {
        let l0 = levels[0];
        assert(level_wf(l0, side_of(hib)));
        let maker = l0.orders[0];
        assert(resting_ok(maker, l0.price_tick, side_of(hib)));
        let q = min_int(taker.residual(), maker.residual());
        let trade = make_trade(taker, maker, q, next_id, ts);
        let taker2 = taker.filled_by(q);
        let maker2 = maker.filled_by(q);
        let d = levels.drop_first();
        let tick = l0.price_tick as int;
        assert(sum_residuals(l0.orders) == maker.residual() + sum_residuals(l0.orders.drop_first()));
        if maker2.residual() > 0 {
            let o1 = l0.orders.update(0, maker2);
            let n = levels.update(0, with_orders(l0, o1));
            assert(o1.drop_first() =~= l0.orders.drop_first());
            assert(n.drop_first() =~= d);
            assert(sum_residuals(o1) == sum_residuals(l0.orders) - q);
            assert(tick * sum_residuals(o1) == tick * sum_residuals(l0.orders) - tick * q) by (nonlinear_arith)
                requires
                    sum_residuals(o1) == sum_residuals(l0.orders) - q,
            ;
            assert(m.2 =~= seq![trade]);
            assert(seq![trade].drop_first() =~= Seq::<Trade>::empty());
            assert(traded_quantity(Seq::<Trade>::empty()) == 0);
            assert(traded_value(Seq::<Trade>::empty()) == 0);
            assert(traded_quantity(m.2) == q);
            assert(traded_value(m.2) == q * tick);
        } else {
            lemma_front_drop_wf(levels, hib);
            let rest = l0.orders.drop_first();
            let levels2 = if rest.len() == 0 {
                d
            } else {
                levels.update(0, with_orders(l0, rest))
            };
            if rest.len() == 0 {
                assert(sum_residuals(rest) == 0);
            } else {
                assert(levels2.drop_first() =~= d);
            }
            assert(open_quantity(levels2) == open_quantity(levels) - q);
            assert(tick * sum_residuals(l0.orders) == tick * q + tick * sum_residuals(rest)) by (nonlinear_arith)
                requires
                    sum_residuals(l0.orders) == q + sum_residuals(rest),
            ;
            assert(open_value(levels2) == open_value(levels) - tick * q);
            lemma_match_moves_open(levels2, hib, taker2, next_id + 1, ts);
            let r = match_levels(levels2, taker2, next_id + 1, ts);
            assert((seq![trade] + r.2).drop_first() =~= r.2);
            assert(q * tick == tick * q) by (nonlinear_arith);
        }
    }
}

/// A resting order adds its open quantity, and its value at its price.
pub proof fn lemma_insert_adds_open(levels: Seq<LevelView>, o: Order, hib: bool)
    ensures
        open_quantity(insert_resting(levels, o, hib)) == open_quantity(levels) + o.residual(),
        open_value(insert_resting(levels, o, hib)) == open_value(levels) + o.price_tick * o.residual(),
    decreases levels.len(),
{
    let r = insert_resting(levels, o, hib);
    let single = LevelView { price_tick: o.price_tick, orders: seq![o] };
    assert(seq![o].drop_first() =~= Seq::<Order>::empty());
    assert(sum_residuals(Seq::<Order>::empty()) == 0);
    assert(sum_residuals(seq![o]) == o.residual());
    if levels.len() == 0 {
        assert(r.drop_first() =~= Seq::<LevelView>::empty());
        assert(open_quantity(Seq::<LevelView>::empty()) == 0);
        assert(open_value(Seq::<LevelView>::empty()) == 0);
    } else if levels[0].price_tick == o.price_tick {
        assert(r.drop_first() =~= levels.drop_first());
        crate::side::lemma_sum_residuals_push(levels[0].orders, o);
        let t = o.price_tick as int;
        let s0 = sum_residuals(levels[0].orders);
        assert(t * (s0 + o.residual()) == t * s0 + t * o.residual()) by (nonlinear_arith);
    } else if crate::model::better(hib, o.price_tick, levels[0].price_tick) {
        assert(r.drop_first() =~= levels);
    } else {
        assert(r.drop_first() =~= insert_resting(levels.drop_first(), o, hib));
        lemma_insert_adds_open(levels.drop_first(), o, hib);
    }
}


/// The USD that resting bids keep locked.
pub open spec fn locked_usd(book: BookView) -> int {
    open_value(book.bids) * usd_scale(book.tick_multiplier)
}

/// The base asset that resting asks keep locked.
pub open spec fn locked_base(book: BookView) -> int {
    open_quantity(book.asks) * base_scale(book.tick_multiplier)
}

/// USD that settling the trades releases: at the taker's limit for an
/// incoming bid, at each trade's price for an incoming ask.
pub open spec fn released_usd(trades: Seq<Trade>, side: OrderSide, limit: u64, m: u64) -> int
    decreases trades.len(),
{
    if trades.len() == 0 {
        0
    } else {
        (match side {
            OrderSide::Bid => quote_amount(trades[0].quantity, limit, m),
            OrderSide::Ask => quote_amount(trades[0].quantity, trades[0].price_tick, m),
        }) + released_usd(trades.drop_first(), side, limit, m)
    }
}

/// The base asset that settling the trades releases.
pub open spec fn released_base(trades: Seq<Trade>, m: u64) -> int
    decreases trades.len(),
{
    if trades.len() == 0 {
        0
    } else {
        base_amount(trades[0].quantity, m) + released_base(trades.drop_first(), m)
    }
}

/// Settling trades without a failure raises the users' totals by what the
/// trades release.
pub proof fn lemma_settle_all_totals(
    users: Seq<User>,
    trades: Seq<Trade>,
    symbol: Seq<char>,
    side: OrderSide,
    limit: u64,
    m: u64,
    a: crate::funds::Asset,
)
    requires
        exact_multiplier(m),
        settle_all(users, trades, symbol, side, limit, m).1.len() == 0,
        base_asset_of(symbol) == Some(a),
    ensures
        ({
            let after = settle_all(users, trades, symbol, side, limit, m).0;
            &&& total_holding(after, Holding::Usd) == total_holding(users, Holding::Usd) + released_usd(
                trades,
                side,
                limit,
                m,
            )
            &&& total_holding(after, Holding::Base(a)) == total_holding(users, Holding::Base(a))
                + released_base(trades, m)
        }),
    decreases trades.len(),
{
    if trades.len() > 0 {
        let t = trades[0];
        let st = settle_spec(users, t, symbol, t.taker_user_id, t.maker_user_id, side, limit, m);
        if st is Err {
            let rest = settle_all(users, trades.drop_first(), symbol, side, limit, m);
            assert((seq![(t.id, st->Err_0)] + rest.1).len() > 0);
        } else {
            law_settlement_conserves(users, t, symbol, t.taker_user_id, t.maker_user_id, side, limit, m);
            let u1 = st->Ok_0;
            let rest = settle_all(u1, trades.drop_first(), symbol, side, limit, m);
            assert(Seq::<(u64, crate::funds::LedgerError)>::empty() + rest.1 =~= rest.1);
            lemma_settle_all_totals(u1, trades.drop_first(), symbol, side, limit, m, a);
        }
    }
}

/// What the trades release, in terms of their total quantity and value.
pub proof fn lemma_released_sums(trades: Seq<Trade>, limit: u64, m: u64)
    requires
        exact_multiplier(m),
    ensures
        released_base(trades, m) == traded_quantity(trades) * base_scale(m),
        released_usd(trades, OrderSide::Bid, limit, m) == traded_quantity(trades) * limit * usd_scale(m),
        released_usd(trades, OrderSide::Ask, limit, m) == traded_value(trades) * usd_scale(m),
    decreases trades.len(),
{
    if trades.len() == 0 {
        let l = limit as int;
        let us = usd_scale(m);
        let bs = base_scale(m);
        assert(0 * l * us == 0 && 0 * bs == 0 && 0 * us == 0) by (nonlinear_arith);
    } else {
        lemma_released_sums(trades.drop_first(), limit, m);
        lemma_exact_amounts(trades[0].quantity, limit, m);
        lemma_exact_amounts(trades[0].quantity, trades[0].price_tick, m);
        let q = trades[0].quantity as int;
        let x = trades[0].price_tick as int;
        let tq = traded_quantity(trades.drop_first());
        let tv = traded_value(trades.drop_first());
        let bs = base_scale(m);
        let us = usd_scale(m);
        let l = limit as int;
        assert(q * bs + tq * bs == (q + tq) * bs) by (nonlinear_arith);
        assert(q * l * us + tq * l * us == (q + tq) * l * us) by (nonlinear_arith);
        assert(q * x * us + tv * us == (q * x + tv) * us) by (nonlinear_arith);
    }
}

/// Conservation: an order placed through the gateway, with every trade
/// settled and the unused collateral released, leaves the users' USD plus
/// the USD locked in resting bids as it was, and likewise the users' base
/// asset plus the base asset locked in resting asks. This is exact for a
/// multiplier that divides the minor units; with another, each conversion
/// rounds down to a whole minor unit and the sums may drift by those
/// fractions.
pub proof fn law_conservation(
    book: BookView,
    users: Seq<User>,
    uid: u64,
    price_tick: u64,
    quantity: u64,
    side: OrderSide,
    tif: TimeInForce,
    ts: u64,
)
    requires
        book.wf(),
        exact_multiplier(book.tick_multiplier),
        base_asset_of(book.symbol) is Some,
        debit_spec(users, uid, book.symbol, side, quantity, price_tick, book.tick_multiplier) is Ok,
        ({
            let m = book.tick_multiplier;
            let s = add_order_spec(book, uid, price_tick, quantity, side, tif, ts);
            let debited = debit_spec(users, uid, book.symbol, side, quantity, price_tick, m)->Ok_0;
            let settled = settle_all(debited, s.1, book.symbol, side, price_tick, m);
            let rq = refund_quantity(s.0, s.1, quantity);
            &&& settled.1.len() == 0
            &&& rq > 0 ==> credit_spec(settled.0, uid, book.symbol, side, rq as u64, price_tick, m) is Ok
        }),
    ensures
        ({
            let m = book.tick_multiplier;
            let a = base_asset_of(book.symbol)->0;
            let s = add_order_spec(book, uid, price_tick, quantity, side, tif, ts);
            let debited = debit_spec(users, uid, book.symbol, side, quantity, price_tick, m)->Ok_0;
            let settled = settle_all(debited, s.1, book.symbol, side, price_tick, m);
            let rq = refund_quantity(s.0, s.1, quantity);
            let after = if rq > 0 {
                credit_spec(settled.0, uid, book.symbol, side, rq as u64, price_tick, m)->Ok_0
            } else {
                settled.0
            };
            &&& total_holding(after, Holding::Usd) + locked_usd(s.2) == total_holding(users, Holding::Usd)
                + locked_usd(book)
            &&& total_holding(after, Holding::Base(a)) + locked_base(s.2) == total_holding(users, Holding::Base(a))
                + locked_base(book)
        }),
{
    let m = book.tick_multiplier;
    let sym = book.symbol;
    let a = base_asset_of(sym)->0;
    let s = add_order_spec(book, uid, price_tick, quantity, side, tif, ts);
    let debited = debit_spec(users, uid, sym, side, quantity, price_tick, m)->Ok_0;
    let settled = settle_all(debited, s.1, sym, side, price_tick, m);
    let rq = refund_quantity(s.0, s.1, quantity);
    let after = if rq > 0 {
        credit_spec(settled.0, uid, sym, side, rq as u64, price_tick, m)->Ok_0
    } else {
        settled.0
    };
    let hc = collateral_holding(side, a);
    let bs = base_scale(m);
    let us = usd_scale(m);
    let p = price_tick as int;
    let q = quantity as int;
    law_debit_locks_collateral(users, uid, sym, side, quantity, price_tick, m, Holding::Usd);
    law_debit_locks_collateral(users, uid, sym, side, quantity, price_tick, m, Holding::Base(a));
    lemma_settle_all_totals(debited, s.1, sym, side, price_tick, m, a);
    lemma_released_sums(s.1, price_tick, m);
    if rq > 0 {
        law_credit_releases_collateral(settled.0, uid, sym, side, rq as u64, price_tick, m, Holding::Usd);
        law_credit_releases_collateral(settled.0, uid, sym, side, rq as u64, price_tick, m, Holding::Base(a));
    }
    lemma_exact_amounts(quantity, price_tick, m);
    if rq > 0 {
        lemma_exact_amounts(rq as u64, price_tick, m);
    }
    let opp = book.side(opposite(side));
    let o0 = Order {
        id: book.next_order_id,
        user_id: uid,
        price_tick,
        quantity,
        quantity_filled: 0,
        side,
        time_in_force: tif,
        timestamp: ts,
        is_cancelled: false,
    };
    let hib_opp = side == OrderSide::Ask;
    lemma_match_fills(opp, hib_opp, o0, book.next_trade_id as int, ts);
    lemma_match_moves_open(opp, hib_opp, o0, book.next_trade_id as int, ts);
    let mm = match_levels(opp, o0, book.next_trade_id as int, ts);
    let taker = mm.1;
    let tq = traded_quantity(mm.2);
    let tv = traded_value(mm.2);
    if (opp.len() == 0 && tif != TimeInForce::GTC) || (tif == TimeInForce::FOK
        && crate::model::crossing_quantity(opp, o0) < quantity) {
        assert(s.1.len() == 0);
        assert(traded_quantity(s.1) == 0);
        assert(traded_value(s.1) == 0);
        assert(rq == q);
        assert(s.2.bids == book.bids && s.2.asks == book.asks && s.2.tick_multiplier == m);
    } else {
        assert(s.1 == mm.2);
        let r: int = if s.0 is Some && rests(s.0->0) {
            taker.residual()
        } else {
            0
        };
        assert(q == tq + rq + r);
        let own = book.side(side);
        let rested = s.0 is Some && rests(s.0->0);
        if rested {
            lemma_insert_adds_open(own, taker, higher_is_better(side));
            assert(s.2.side(side) == insert_resting(own, taker, higher_is_better(side)));
        } else {
            assert(s.2.side(side) == own);
        }
        assert(s.2.side(opposite(side)) == mm.0);
        assert(s.2.tick_multiplier == m);
        assert(taker.price_tick == price_tick);
        if side == OrderSide::Bid {
            assert(hc == Holding::Usd);
            assert(open_value(s.2.bids) == open_value(book.bids) + p * r);
            assert(open_quantity(s.2.asks) == open_quantity(book.asks) - tq);
            assert((open_value(book.bids) + p * r) * us == open_value(book.bids) * us + p * r * us) by (nonlinear_arith);
            assert((open_quantity(book.asks) - tq) * bs == open_quantity(book.asks) * bs - tq * bs) by (nonlinear_arith);
            assert(q * p * us == tq * p * us + rq * p * us + r * p * us) by (nonlinear_arith)
                requires
                    q == tq + rq + r,
            ;
            assert(p * r * us == r * p * us) by (nonlinear_arith);
            assert(total_holding(debited, Holding::Usd) == total_holding(users, Holding::Usd) - q * p * us);
            assert(total_holding(settled.0, Holding::Usd) == total_holding(debited, Holding::Usd) + tq * p * us);
            assert(rq > 0 ==> total_holding(after, Holding::Usd) == total_holding(settled.0, Holding::Usd) + rq * p * us);
            assert(locked_usd(s.2) == locked_usd(book) + p * r * us);
            assert(total_holding(after, Holding::Base(a)) == total_holding(users, Holding::Base(a)) + tq * bs);
            assert(locked_base(s.2) == locked_base(book) - tq * bs);
        } else {
            assert(hc == Holding::Base(a));
            assert(open_quantity(s.2.asks) == open_quantity(book.asks) + r);
            assert(open_value(s.2.bids) == open_value(book.bids) - tv);
            assert((open_quantity(book.asks) + r) * bs == open_quantity(book.asks) * bs + r * bs) by (nonlinear_arith);
            assert((open_value(book.bids) - tv) * us == open_value(book.bids) * us - tv * us) by (nonlinear_arith);
            assert(q * bs == tq * bs + rq * bs + r * bs) by (nonlinear_arith)
                requires
                    q == tq + rq + r,
            ;
        }
    }
}


/// Taking one order out of the levels takes out its open quantity, and its
/// value at its level's price.
pub proof fn lemma_without_order_open(levels: Seq<LevelView>, i: int, j: int)
    requires
        holds_at(levels, i, j),
    ensures
        open_quantity(without_order(levels, i, j)) == open_quantity(levels) - levels[i].orders[j].residual(),
        open_value(without_order(levels, i, j)) == open_value(levels) - levels[i].price_tick
            * levels[i].orders[j].residual(),
    decreases i,
{
    let l = levels[i];
    let rest = l.orders.remove(j);
    crate::side::lemma_sum_residuals_remove(l.orders, j);
    let t = l.price_tick as int;
    let s0 = sum_residuals(l.orders);
    let res = l.orders[j].residual();
    assert(t * (s0 - res) == t * s0 - t * res) by (nonlinear_arith);
    if i == 0 {
        if rest.len() == 0 {
            assert(levels.remove(0) =~= levels.drop_first());
            assert(sum_residuals(rest) == 0);
        } else {
            assert(levels.update(0, with_orders(l, rest)).drop_first() =~= levels.drop_first());
        }
    } else {
        let d = levels.drop_first();
        lemma_without_order_open(d, i - 1, j);
        if rest.len() == 0 {
            assert(levels.remove(i).drop_first() =~= d.remove(i - 1));
            assert(levels.remove(i)[0] == levels[0]);
        } else {
            assert(levels.update(i, with_orders(l, rest)).drop_first() =~= d.update(i - 1, with_orders(l, rest)));
        }
    }
}

/// Conservation on cancel: cancelling a resting order and releasing its
/// collateral to its owner leaves the users' USD plus the USD locked in
/// resting bids as it was, and likewise for the base asset.
pub proof fn law_cancel_conserves(
    book: BookView,
    users: Seq<User>,
    order_id: u64,
    price_tick: u64,
    side: OrderSide,
)
    requires
        book.wf(),
        exact_multiplier(book.tick_multiplier),
        base_asset_of(book.symbol) is Some,
        cancel_spec(book, order_id, price_tick, side).0,
        ({
            let ij = position_of(book.side(side), price_tick, order_id);
            let o = book.side(side)[ij.0].orders[ij.1];
            credit_spec(users, o.user_id, book.symbol, side, o.residual() as u64, price_tick, book.tick_multiplier) is Ok
        }),
    ensures
        ({
            let a = base_asset_of(book.symbol)->0;
            let ij = position_of(book.side(side), price_tick, order_id);
            let o = book.side(side)[ij.0].orders[ij.1];
            let after = credit_spec(
                users,
                o.user_id,
                book.symbol,
                side,
                o.residual() as u64,
                price_tick,
                book.tick_multiplier,
            )->Ok_0;
            let b2 = cancel_spec(book, order_id, price_tick, side).1;
            &&& total_holding(after, Holding::Usd) + locked_usd(b2) == total_holding(users, Holding::Usd)
                + locked_usd(book)
            &&& total_holding(after, Holding::Base(a)) + locked_base(b2) == total_holding(users, Holding::Base(a))
                + locked_base(book)
        }),
{
    let m = book.tick_multiplier;
    let a = base_asset_of(book.symbol)->0;
    let levels = book.side(side);
    let ij = position_of(levels, price_tick, order_id);
    assert(has_order_at(levels, price_tick, order_id));
    assert(is_at(levels, price_tick, order_id, ij.0, ij.1));
    let o = levels[ij.0].orders[ij.1];
    let hib = side == OrderSide::Bid;
    assert(levels_wf(levels, hib));
    assert(level_wf(levels[ij.0], side_of(hib)));
    assert(resting_ok(o, levels[ij.0].price_tick, side_of(hib)));
    let res = o.residual();
    let b2 = cancel_spec(book, order_id, price_tick, side).1;
    lemma_without_order_open(levels, ij.0, ij.1);
    law_credit_releases_collateral(users, o.user_id, book.symbol, side, res as u64, price_tick, m, Holding::Usd);
    law_credit_releases_collateral(users, o.user_id, book.symbol, side, res as u64, price_tick, m, Holding::Base(a));
    let bs = base_scale(m);
    let us = usd_scale(m);
    let p = price_tick as int;
    lemma_exact_amounts(res as u64, price_tick, m);
    assert(b2.side(side) == without_order(levels, ij.0, ij.1));
    assert(b2.side(opposite(side)) == book.side(opposite(side)));
    assert(b2.tick_multiplier == m);
    if side == OrderSide::Bid {
        assert((open_value(book.bids) - p * res) * us == open_value(book.bids) * us - res * p * us) by (nonlinear_arith);
    } else {
        assert((open_quantity(book.asks) - res) * bs == open_quantity(book.asks) * bs - res * bs) by (nonlinear_arith);
    }
}

} // verus!
