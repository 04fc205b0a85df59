//! The order flow around a book and the ledger: validate, lock collateral,
//! match, settle every trade, then release what neither traded nor rests.
//!
//! Accounting policy. Placing an order locks its collateral: `quantity *
//! price` of USD for a bid (nothing for a market bid, which pays as it
//! trades), `quantity` of the base asset for an ask. Each trade consumes the
//! collateral of the quantity traded and credits each party what it
//! receives; a limit bid that trades below its limit gets the difference
//! back at once. After matching, the collateral of the quantity that
//! neither traded nor rests is released; a resting order keeps its
//! collateral locked until it trades or is cancelled, and cancelling
//! releases it to the order's owner. A self-trade is settled by the same
//! rules, which give the user back both sides of the traded quantity.
use vstd::prelude::*;
use crate::funds::LedgerError;
use crate::laws::{lemma_match_fills, traded_quantity};
use crate::ledger::{credit_spec, debit_spec, settle_spec, InMemoryStorage, User};
use crate::orderbook::{add_order_spec, cancel_spec, position_of, OrderBook, OrderBookDepth};
use crate::side::depth_lines;
use crate::types::{opposite, Order, OrderSide, TimeInForce, Trade};

verus! {

/// Why a request was refused.
#[derive(Debug, Copy, Clone, PartialEq, Eq, Structural)]
pub enum GatewayError {
    /// An order of quantity 0.
    ZeroQuantity,
    /// No book trades the symbol.
    UnknownSymbol,
    /// The book's counters or the level's open quantity would overflow.
    BookFull,
    /// The ledger refused to lock the collateral.
    Funds(LedgerError),
    /// No such order rests in the book.
    OrderNotFound,
    /// A depth request outside 1 to 1000 levels.
    InvalidDepthLevels,
}

impl GatewayError {
    /// A short description for people.
    pub open spec fn text(self) -> Seq<char> {
        match self {
            GatewayError::ZeroQuantity => "Quantity must be greater than 0"@,
            GatewayError::UnknownSymbol => "Symbol not supported"@,
            GatewayError::BookFull => "Order book is full"@,
            GatewayError::Funds(e) => e.text(),
            GatewayError::OrderNotFound => "Order not found"@,
            GatewayError::InvalidDepthLevels => "Levels must be between 1 and 1000"@,
        }
    }

    pub fn message(&self) -> (r: String)
        ensures
            r@ == self.text(),
    {
        match self {
            GatewayError::ZeroQuantity => "Quantity must be greater than 0".to_owned(),
            GatewayError::UnknownSymbol => "Symbol not supported".to_owned(),
            GatewayError::BookFull => "Order book is full".to_owned(),
            GatewayError::Funds(e) => e.message(),
            GatewayError::OrderNotFound => "Order not found".to_owned(),
            GatewayError::InvalidDepthLevels => "Levels must be between 1 and 1000".to_owned(),
        }
    }
}

/// The outcome of a placed order: what the book reported, the trades, the
/// trades whose settlement failed (with why), and a failed release.
pub struct Placement {
    pub order: Option<Order>,
    pub trades: Vec<Trade>,
    pub settlement_failures: Vec<(u64, LedgerError)>,
    pub refund_error: Option<LedgerError>,
}

/// Settling trades one after the other; a failed one changes nothing and is
/// recorded with its error, and the rest go on.
pub open spec fn settle_all(
    users: Seq<User>,
    trades: Seq<Trade>,
    symbol: Seq<char>,
    taker_side: OrderSide,
    limit: u64,
    m: u64,
) -> (Seq<User>, Seq<(u64, LedgerError)>)
    decreases trades.len(),
{
    if trades.len() == 0 {
        (users, Seq::empty())
    } else {
        let t = trades[0];
        let (u1, f1) = match settle_spec(users, t, symbol, t.taker_user_id, t.maker_user_id, taker_side, limit, m) {
            Ok(u) => (u, Seq::<(u64, LedgerError)>::empty()),
            Err(e) => (users, seq![(t.id, e)]),
        };
        let rest = settle_all(u1, trades.drop_first(), symbol, taker_side, limit, m);
        (rest.0, f1 + rest.1)
    }
}

/// Whether the book reported `o` as an order now resting.
pub open spec fn rests(o: Order) -> bool {
    o.time_in_force == TimeInForce::GTC && o.price_tick > 0 && o.residual() > 0
}

/// The quantity whose collateral goes back to the taker after matching:
/// all that did not trade, unless it rests in the book.
pub open spec fn refund_quantity(order: Option<Order>, trades: Seq<Trade>, quantity: u64) -> int {
    match order {
        None => quantity - traded_quantity(trades),
        Some(o) => if rests(o) {
            0
        } else {
            o.residual()
        },
    }
}

/// Trade quantities are never negative.
pub proof fn lemma_traded_nonneg(trades: Seq<Trade>)
    ensures
        traded_quantity(trades) >= 0,
    decreases trades.len(),
{
    if trades.len() > 0 {
        lemma_traded_nonneg(trades.drop_first());
    }
}

/// Places an order of `user_id` on `book`: refuses a zero quantity, a book
/// without room, or collateral the user lacks; otherwise locks the
/// collateral, matches, settles each trade, and releases the collateral of
/// what neither traded nor rests.
#[verifier::rlimit(40)]
pub fn place_order(
    book: &mut OrderBook,
    storage: &mut InMemoryStorage,
    user_id: u64,
    price_tick: u64,
    quantity: u64,
    side: OrderSide,
    time_in_force: TimeInForce,
) -> (r: Result<Placement, GatewayError>)
    requires
        old(book).wf(),
    ensures
        final(book).wf(),
        final(book)@.symbol == old(book)@.symbol,
        final(book)@.tick_multiplier == old(book)@.tick_multiplier,
        ({
            let m = old(book)@.tick_multiplier;
            let sym = old(book)@.symbol;
            let debited = debit_spec(old(storage)@, user_id, sym, side, quantity, price_tick, m);
            if quantity == 0 {
                r == Err::<Placement, GatewayError>(GatewayError::ZeroQuantity) && final(book)@ == old(book)@
                    && final(storage)@ == old(storage)@
            } else if !old(book)@.has_room(side, price_tick, quantity) {
                r == Err::<Placement, GatewayError>(GatewayError::BookFull) && final(book)@ == old(book)@
                    && final(storage)@ == old(storage)@
            } else if debited is Err {
                r == Err::<Placement, GatewayError>(GatewayError::Funds(debited->Err_0)) && final(book)@
                    == old(book)@ && final(storage)@ == old(storage)@
            } else {
                &&& r is Ok
                &&& exists|ts: u64|
                    {
                        let s = #[trigger] add_order_spec(
                            old(book)@,
                            user_id,
                            price_tick,
                            quantity,
                            side,
                            time_in_force,
                            ts,
                        );
                        r->Ok_0.order == s.0 && r->Ok_0.trades@ == s.1 && final(book)@ == s.2
                    }
                &&& ({
                    let settled = settle_all(debited->Ok_0, r->Ok_0.trades@, sym, side, price_tick, m);
                    let rq = refund_quantity(r->Ok_0.order, r->Ok_0.trades@, quantity);
                    &&& r->Ok_0.settlement_failures@ == settled.1
                    &&& rq <= 0 ==> final(storage)@ == settled.0 && r->Ok_0.refund_error is None
                    &&& rq > 0 ==> match credit_spec(settled.0, user_id, sym, side, rq as u64, price_tick, m) {
                        Ok(u) => final(storage)@ == u && r->Ok_0.refund_error is None,
                        Err(e) => final(storage)@ == settled.0 && r->Ok_0.refund_error == Some(e),
                    }
                })
            }
        }),
{
    if quantity == 0 {
        return Err(GatewayError::ZeroQuantity);
    }
    if !book.has_room(side, price_tick, quantity) {
        return Err(GatewayError::BookFull);
    }
    let m = book.tick_multiplier();
    proof {
        book.lemma_view_wf();
    }
    let symbol = book.symbol().to_owned();
    match storage.debit_funds_for_order(user_id, symbol.as_str(), side, quantity, price_tick, m) {
        Err(e) => {
            return Err(GatewayError::Funds(e));
        },
        Ok(_) => {},
    }
    let ghost debited = storage@;
    let ghost b0 = book@;
    proof {
        book.lemma_view_wf();
    }
    let (order, trades) = book.add_order(user_id, price_tick, quantity, side, time_in_force);
    proof {
        let ts = choose|ts: u64|
            {
                let s = #[trigger] add_order_spec(b0, user_id, price_tick, quantity, side, time_in_force, ts);
                order == s.0 && trades@ == s.1 && book@ == s.2
            };
        let opp = b0.side(opposite(side));
        let o0 = Order {
            id: b0.next_order_id,
            user_id,
            price_tick,
            quantity,
            quantity_filled: 0,
            side,
            time_in_force,
            timestamp: ts,
            is_cancelled: false,
        };
        lemma_match_fills(opp, side == OrderSide::Ask, o0, b0.next_trade_id as int, ts);
        assert(traded_quantity(trades@) <= quantity);
        assert(order is Some ==> order->0.quantity_filled <= order->0.quantity);
    }
    let mut failures: Vec<(u64, LedgerError)> = Vec::new();
    let mut filled: u64 = 0;
    let mut i: usize = 0;
    assert(trades@.skip(0) =~= trades@);
    assert(failures@ + settle_all(storage@, trades@, symbol@, side, price_tick, m).1 =~= settle_all(
        storage@,
        trades@,
        symbol@,
        side,
        price_tick,
        m,
    ).1);
    while i < trades.len()
        invariant
            m > 0,
            i <= trades@.len(),
            traded_quantity(trades@) <= quantity,
            filled + traded_quantity(trades@.skip(i as int)) == traded_quantity(trades@),
            ({
                let all = settle_all(debited, trades@, symbol@, side, price_tick, m);
                let rest = settle_all(storage@, trades@.skip(i as int), symbol@, side, price_tick, m);
                all.0 == rest.0 && all.1 == failures@ + rest.1
            }),
        decreases trades@.len() - i,
    {
        let t = trades[i];
        let ghost tail = trades@.skip(i as int);
        assert(tail.drop_first() =~= trades@.skip(i as int + 1));
        assert(tail[0] == t);
        proof {
            lemma_traded_nonneg(tail.drop_first());
        }
        filled = filled + t.quantity;
        let ghost before = failures@;
        match storage.settle_trade(&t, symbol.as_str(), t.taker_user_id, t.maker_user_id, side, price_tick, m) {
            Ok(_) => {
                assert(before + Seq::<(u64, LedgerError)>::empty() =~= before);
            },
            Err(e) => {
                failures.push((t.id, e));
            },
        }
        proof {
            let rest = settle_all(storage@, trades@.skip(i as int + 1), symbol@, side, price_tick, m);
            assert(before + (settle_all(storage@, tail.drop_first(), symbol@, side, price_tick, m).1)
                == before + rest.1);
            if failures@.len() > before.len() {
                assert(failures@ =~= before + seq![(t.id, e_of(failures@))]);
                assert(before + (seq![(t.id, e_of(failures@))] + rest.1) =~= failures@ + rest.1);
            } else {
                assert(before + (Seq::<(u64, LedgerError)>::empty() + rest.1) =~= failures@ + rest.1);
            }
        }
        i = i + 1;
    }
    proof {
        assert(trades@.skip(i as int) =~= Seq::<Trade>::empty());
        assert(failures@ + Seq::<(u64, LedgerError)>::empty() =~= failures@);
    }
    let refund: u64 = match &order {
        None => quantity - filled,
        Some(o) => if o.time_in_force == TimeInForce::GTC && o.price_tick > 0 && o.quantity > o.quantity_filled {
            0
        } else {
            o.quantity - o.quantity_filled
        },
    };
    let mut refund_error: Option<LedgerError> = None;
    if refund > 0 {
        let res = if trades.len() == 0 {
            storage.credit_funds_back(user_id, symbol.as_str(), side, refund, price_tick, m)
        } else {
            storage.handle_partial_fill_refund(user_id, symbol.as_str(), side, refund, price_tick, m)
        };
        match res {
            Ok(_) => {},
            Err(e) => {
                refund_error = Some(e);
            },
        }
    }
    Ok(Placement { order, trades, settlement_failures: failures, refund_error })
}

/// The error of the last recorded failure.
pub open spec fn e_of(f: Seq<(u64, LedgerError)>) -> LedgerError {
    f.last().1
}


/// Cancels order `order_id` resting at `price_tick` on `side` of `book` and
/// releases its open quantity's collateral to its owner. Returns the
/// ledger's error when that release fails; the cancel stands either way.
pub fn cancel_user_order(
    book: &mut OrderBook,
    storage: &mut InMemoryStorage,
    order_id: u64,
    price_tick: u64,
    side: OrderSide,
) -> (r: Result<Option<LedgerError>, GatewayError>)
    requires
        old(book).wf(),
    ensures
        final(book).wf(),
        ({
            let c = cancel_spec(old(book)@, order_id, price_tick, side);
            let ij = position_of(old(book)@.side(side), price_tick, order_id);
            let o = old(book)@.side(side)[ij.0].orders[ij.1];
            &&& final(book)@ == c.1
            &&& !c.0 ==> r == Err::<Option<LedgerError>, GatewayError>(GatewayError::OrderNotFound)
                && final(storage)@ == old(storage)@
            &&& c.0 ==> match credit_spec(
                old(storage)@,
                o.user_id,
                old(book)@.symbol,
                side,
                o.residual() as u64,
                price_tick,
                old(book)@.tick_multiplier,
            ) {
                Ok(u) => r == Ok::<Option<LedgerError>, GatewayError>(None) && final(storage)@ == u,
                Err(e) => r == Ok::<Option<LedgerError>, GatewayError>(Some(e)) && final(storage)@ == old(storage)@,
            }
        }),
{
    let m = book.tick_multiplier();
    proof {
        book.lemma_view_wf();
    }
    let symbol = book.symbol().to_owned();
    match book.take_order(order_id, price_tick, side) {
        None => Err(GatewayError::OrderNotFound),
        Some(o) => {
            proof {
                let levels = old(book)@.side(side);
                let ij = position_of(levels, price_tick, order_id);
                assert(crate::model::levels_wf(levels, side == OrderSide::Bid)) by {
                    old(book).lemma_view_wf();
                }
                assert(crate::orderbook::has_order_at(levels, price_tick, order_id));
                assert(crate::orderbook::is_at(levels, price_tick, order_id, ij.0, ij.1));
                assert(crate::model::level_wf(levels[ij.0], crate::model::side_of(side == OrderSide::Bid)));
                assert(crate::model::resting_ok(levels[ij.0].orders[ij.1], levels[ij.0].price_tick, side));
            }
            let unfilled = o.quantity - o.quantity_filled;
            match storage.credit_funds_back(o.user_id, symbol.as_str(), side, unfilled, price_tick, m) {
                Ok(_) => Ok(None),
                Err(e) => Ok(Some(e)),
            }
        },
    }
}

/// The number of depth levels a request gets when it names none.
pub fn default_levels() -> (r: Option<usize>)
    ensures
        r == Some(100usize),
{
    Some(100)
}

/// The depth of `book` for a request of `levels` (100 when none is named);
/// refused outside 1 to 1000.
pub fn depth_for(book: &OrderBook, levels: Option<usize>) -> (r: Result<OrderBookDepth, GatewayError>)
    requires
        book.wf(),
    ensures
        ({
            let k: int = match levels {
                Some(k) => k as int,
                None => 100,
            };
            &&& (k < 1 || k > 1000) ==> r is Err && r->Err_0 == GatewayError::InvalidDepthLevels
            &&& (1 <= k <= 1000) ==> r is Ok && r->Ok_0.bids@ == depth_lines(book@.bids, k) && r->Ok_0.asks@
                == depth_lines(book@.asks, k)
        }),
{
    let k = match levels {
        Some(k) => k,
        None => 100,
    };
    if k == 0 || k > 1000 {
        return Err(GatewayError::InvalidDepthLevels);
    }
    Ok(book.get_depth(k))
}

/// The position of the first book trading `symbol`; `UnknownSymbol` when
/// none does.
pub fn find_book(books: &Vec<OrderBook>, symbol: &str) -> (r: Result<usize, GatewayError>)
    ensures
        match r {
            Ok(i) => i < books@.len() && books@[i as int]@.symbol == symbol@ && forall|k: int|
                0 <= k < i ==> (#[trigger] books@[k])@.symbol != symbol@,
            Err(e) => e == GatewayError::UnknownSymbol && forall|k: int|
                0 <= k < books@.len() ==> (#[trigger] books@[k])@.symbol != symbol@,
        },
{
    let s = symbol.to_owned();
    let mut i: usize = 0;
    while i < books.len()
        invariant
            i <= books@.len(),
            s@ == symbol@,
            forall|k: int| 0 <= k < i ==> (#[trigger] books@[k])@.symbol != symbol@,
        decreases books@.len() - i,
    {
        let own = books[i].symbol().to_owned();
        if own == s {
            return Ok(i);
        }
        i = i + 1;
    }
    Err(GatewayError::UnknownSymbol)
}

} // verus!
