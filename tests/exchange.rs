use matcher::funds::{Asset, LedgerError, UserFunds};
use matcher::gateway::{
    cancel_user_order, default_levels, depth_for, find_book, place_order, GatewayError,
};
use matcher::ledger::InMemoryStorage;
use matcher::orderbook::OrderBook;
use matcher::types::{OrderSide, TimeInForce};

// With a tick multiplier of 100, one quantity tick is 1_000_000 minor units
// of the base asset and one price tick times one quantity tick is
// 1_000_000_000_000 minor units of USD.
const BASE_TICK: u128 = 1_000_000;
const QUOTE_TICK: u128 = 1_000_000_000_000;

fn btc_book() -> OrderBook {
    OrderBook::new("BTC-USD".to_string(), 100)
}

fn user(storage: &mut InMemoryStorage, name: &str) -> u64 {
    storage.get_or_create_account_with_session(name, name).user_id
}

fn funds(storage: &InMemoryStorage, id: u64) -> UserFunds {
    storage.get_user_by_id(id).unwrap().funds
}

#[test]
fn scenario_simple_match() {
    let mut book = btc_book();
    let mut storage = InMemoryStorage::new();
    let a = user(&mut storage, "a");
    let b = user(&mut storage, "b");
    let start = funds(&storage, a);
    place_order(&mut book, &mut storage, a, 101, 10, OrderSide::Ask, TimeInForce::GTC).unwrap();
    let p = place_order(&mut book, &mut storage, b, 101, 5, OrderSide::Bid, TimeInForce::GTC).unwrap();
    assert_eq!(p.trades.len(), 1);
    assert_eq!(p.trades[0].quantity, 5);
    assert_eq!(p.trades[0].price_tick, 101);
    assert_eq!(book.ask_side().get_level(101).unwrap().total_quantity, 5);
    assert!(book.best_bid_tick().is_none());
    assert!(p.settlement_failures.is_empty());
    let fa = funds(&storage, a);
    let fb = funds(&storage, b);
    assert_eq!(fa.btc, start.btc - 10 * BASE_TICK);
    assert_eq!(fa.usd, start.usd + 5 * 101 * QUOTE_TICK);
    assert_eq!(fb.btc, start.btc + 5 * BASE_TICK);
    assert_eq!(fb.usd, start.usd - 5 * 101 * QUOTE_TICK);
}

#[test]
fn scenario_fok_reject() {
    let mut book = btc_book();
    let mut storage = InMemoryStorage::new();
    let a = user(&mut storage, "a");
    let b = user(&mut storage, "b");
    place_order(&mut book, &mut storage, a, 101, 5, OrderSide::Ask, TimeInForce::GTC).unwrap();
    let fa = funds(&storage, a);
    let fb = funds(&storage, b);
    let p = place_order(&mut book, &mut storage, b, 101, 10, OrderSide::Bid, TimeInForce::FOK).unwrap();
    assert!(p.order.is_none());
    assert!(p.trades.is_empty());
    assert_eq!(book.ask_side().get_level(101).unwrap().total_quantity, 5);
    assert_eq!(funds(&storage, a), fa);
    assert_eq!(funds(&storage, b), fb);
}

#[test]
fn scenario_market_sweep() {
    let mut book = btc_book();
    let mut storage = InMemoryStorage::new();
    let a = user(&mut storage, "a");
    let b = user(&mut storage, "b");
    let start = funds(&storage, b);
    place_order(&mut book, &mut storage, a, 101, 10, OrderSide::Ask, TimeInForce::GTC).unwrap();
    place_order(&mut book, &mut storage, a, 102, 10, OrderSide::Ask, TimeInForce::GTC).unwrap();
    let p = place_order(&mut book, &mut storage, b, 0, 15, OrderSide::Bid, TimeInForce::GTC).unwrap();
    assert_eq!(p.trades.len(), 2);
    assert_eq!((p.trades[0].quantity, p.trades[0].price_tick), (10, 101));
    assert_eq!((p.trades[1].quantity, p.trades[1].price_tick), (5, 102));
    assert_eq!(book.best_ask_tick(), Some(102));
    assert_eq!(book.ask_side().get_level(102).unwrap().total_quantity, 5);
    let fb = funds(&storage, b);
    assert_eq!(fb.btc, start.btc + 15 * BASE_TICK);
    assert_eq!(fb.usd, start.usd - (10 * 101 + 5 * 102) * QUOTE_TICK);
}

#[test]
fn scenario_cross_and_rest() {
    let mut book = btc_book();
    let mut storage = InMemoryStorage::new();
    let a = user(&mut storage, "a");
    let b = user(&mut storage, "b");
    let start = funds(&storage, b);
    place_order(&mut book, &mut storage, a, 100, 10, OrderSide::Ask, TimeInForce::GTC).unwrap();
    let p = place_order(&mut book, &mut storage, b, 103, 8, OrderSide::Bid, TimeInForce::GTC).unwrap();
    assert_eq!(p.trades.len(), 1);
    assert_eq!((p.trades[0].quantity, p.trades[0].price_tick), (8, 100));
    let order = p.order.unwrap();
    assert_eq!(order.quantity_filled, 8);
    assert!(book.get_order_by_id(order.id).is_none());
    assert_eq!(book.best_ask_tick(), Some(100));
    assert_eq!(book.ask_side().get_level(100).unwrap().total_quantity, 2);
    assert_eq!(book.best_bid_tick(), None);
    // The bid locked 8 at 103 and paid 8 at 100: the difference came back.
    assert_eq!(funds(&storage, b).usd, start.usd - 8 * 100 * QUOTE_TICK);
}

#[test]
fn scenario_cancel_updates_best() {
    let mut book = btc_book();
    let mut storage = InMemoryStorage::new();
    let a = user(&mut storage, "a");
    let start = funds(&storage, a);
    let p = place_order(&mut book, &mut storage, a, 101, 10, OrderSide::Bid, TimeInForce::GTC).unwrap();
    place_order(&mut book, &mut storage, a, 100, 10, OrderSide::Bid, TimeInForce::GTC).unwrap();
    let id = p.order.unwrap().id;
    assert_eq!(cancel_user_order(&mut book, &mut storage, id, 101, OrderSide::Bid), Ok(None));
    assert_eq!(book.best_bid_tick(), Some(100));
    assert!(book.bid_side().get_level(101).is_none());
    assert_eq!(funds(&storage, a).usd, start.usd - 10 * 100 * QUOTE_TICK);
}

#[test]
fn scenario_self_trade_wash() {
    let mut book = btc_book();
    let mut storage = InMemoryStorage::new();
    let a = user(&mut storage, "a");
    let start = funds(&storage, a);
    place_order(&mut book, &mut storage, a, 100, 5, OrderSide::Ask, TimeInForce::GTC).unwrap();
    let p = place_order(&mut book, &mut storage, a, 100, 5, OrderSide::Bid, TimeInForce::GTC).unwrap();
    assert_eq!(p.trades.len(), 1);
    assert_eq!(funds(&storage, a), start);
}

#[test]
fn scenario_ioc_partial() {
    let mut book = btc_book();
    let mut storage = InMemoryStorage::new();
    let a = user(&mut storage, "a");
    let b = user(&mut storage, "b");
    let start = funds(&storage, b);
    place_order(&mut book, &mut storage, a, 101, 5, OrderSide::Ask, TimeInForce::GTC).unwrap();
    let p = place_order(&mut book, &mut storage, b, 102, 10, OrderSide::Bid, TimeInForce::IOC).unwrap();
    assert!(p.order.is_none());
    assert_eq!(p.trades.len(), 1);
    assert_eq!((p.trades[0].quantity, p.trades[0].price_tick), (5, 101));
    assert!(p.refund_error.is_none());
    // Paid 5 at 101; the 5 unfilled ticks locked at 102 came back.
    assert_eq!(funds(&storage, b).usd, start.usd - 5 * 101 * QUOTE_TICK);
}

#[test]
fn round_trip_restores_balance() {
    let mut book = btc_book();
    let mut storage = InMemoryStorage::new();
    let a = user(&mut storage, "a");
    let start = funds(&storage, a);
    let p = place_order(&mut book, &mut storage, a, 99, 7, OrderSide::Bid, TimeInForce::GTC).unwrap();
    assert_ne!(funds(&storage, a), start);
    let id = p.order.unwrap().id;
    assert_eq!(cancel_user_order(&mut book, &mut storage, id, 99, OrderSide::Bid), Ok(None));
    assert_eq!(funds(&storage, a), start);
    let p = place_order(&mut book, &mut storage, a, 120, 3, OrderSide::Ask, TimeInForce::GTC).unwrap();
    let id = p.order.unwrap().id;
    assert_eq!(cancel_user_order(&mut book, &mut storage, id, 120, OrderSide::Ask), Ok(None));
    assert_eq!(funds(&storage, a), start);
}

#[test]
fn conservation_over_a_session() {
    let mut book = btc_book();
    let mut storage = InMemoryStorage::new();
    let users = [user(&mut storage, "a"), user(&mut storage, "b"), user(&mut storage, "c")];
    let total = |s: &InMemoryStorage| {
        let mut usd = 0u128;
        let mut btc = 0u128;
        for u in users.iter() {
            let f = s.get_user_by_id(*u).unwrap().funds;
            usd += f.usd;
            btc += f.btc;
        }
        (usd, btc)
    };
    let locked = |b: &OrderBook| {
        let d = b.get_depth(1000);
        let usd: u128 = d.bids.iter().map(|l| l.price_tick as u128 * l.quantity as u128 * QUOTE_TICK).sum();
        let btc: u128 = d.asks.iter().map(|l| l.quantity as u128 * BASE_TICK).sum();
        (usd, btc)
    };
    let start = total(&storage);
    place_order(&mut book, &mut storage, users[0], 101, 10, OrderSide::Ask, TimeInForce::GTC).unwrap();
    place_order(&mut book, &mut storage, users[1], 99, 4, OrderSide::Bid, TimeInForce::GTC).unwrap();
    place_order(&mut book, &mut storage, users[2], 102, 6, OrderSide::Bid, TimeInForce::GTC).unwrap();
    place_order(&mut book, &mut storage, users[1], 98, 3, OrderSide::Ask, TimeInForce::IOC).unwrap();
    place_order(&mut book, &mut storage, users[2], 103, 8, OrderSide::Bid, TimeInForce::IOC).unwrap();
    let (usd, btc) = total(&storage);
    let (lusd, lbtc) = locked(&book);
    assert_eq!(usd + lusd, start.0);
    assert_eq!(btc + lbtc, start.1);
}

#[test]
fn gateway_rejects_zero_quantity() {
    let mut book = btc_book();
    let mut storage = InMemoryStorage::new();
    let a = user(&mut storage, "a");
    let r = place_order(&mut book, &mut storage, a, 100, 0, OrderSide::Bid, TimeInForce::GTC);
    assert_eq!(r.err(), Some(GatewayError::ZeroQuantity));
}

#[test]
fn gateway_rejects_insufficient_funds() {
    let mut book = btc_book();
    let mut storage = InMemoryStorage::new();
    let a = user(&mut storage, "a");
    let start = funds(&storage, a);
    let r = place_order(&mut book, &mut storage, a, 100, 200_000, OrderSide::Ask, TimeInForce::GTC);
    assert_eq!(r.err(), Some(GatewayError::Funds(LedgerError::InsufficientFunds)));
    assert_eq!(funds(&storage, a), start);
    assert_eq!(book.total_orders(), 0);
}

#[test]
fn gateway_rejects_full_level() {
    let mut book = btc_book();
    let mut storage = InMemoryStorage::new();
    let a = user(&mut storage, "a");
    let rich = UserFunds { btc: u128::MAX, sol: 0, usd: 0 };
    storage.update_user_funds("a", &rich).unwrap();
    place_order(&mut book, &mut storage, a, 100, u64::MAX, OrderSide::Ask, TimeInForce::GTC).unwrap();
    let r = place_order(&mut book, &mut storage, a, 100, 1, OrderSide::Ask, TimeInForce::GTC);
    assert_eq!(r.err(), Some(GatewayError::BookFull));
}

#[test]
fn gateway_cancel_unknown_order() {
    let mut book = btc_book();
    let mut storage = InMemoryStorage::new();
    let a = user(&mut storage, "a");
    let p = place_order(&mut book, &mut storage, a, 100, 1, OrderSide::Bid, TimeInForce::GTC).unwrap();
    let id = p.order.unwrap().id;
    assert_eq!(cancel_user_order(&mut book, &mut storage, 999, 100, OrderSide::Bid), Err(GatewayError::OrderNotFound));
    assert_eq!(cancel_user_order(&mut book, &mut storage, id, 100, OrderSide::Bid), Ok(None));
    assert_eq!(cancel_user_order(&mut book, &mut storage, id, 100, OrderSide::Bid), Err(GatewayError::OrderNotFound));
}

#[test]
fn gateway_depth_levels() {
    let mut book = btc_book();
    let mut storage = InMemoryStorage::new();
    let a = user(&mut storage, "a");
    for t in 1..=5u64 {
        place_order(&mut book, &mut storage, a, 100 + t, 1, OrderSide::Ask, TimeInForce::GTC).unwrap();
    }
    assert_eq!(default_levels(), Some(100));
    assert_eq!(depth_for(&book, None).unwrap().asks.len(), 5);
    assert_eq!(depth_for(&book, Some(2)).unwrap().asks.len(), 2);
    assert_eq!(depth_for(&book, Some(1000)).unwrap().asks.len(), 5);
    assert_eq!(depth_for(&book, Some(0)).err(), Some(GatewayError::InvalidDepthLevels));
    assert_eq!(depth_for(&book, Some(1001)).err(), Some(GatewayError::InvalidDepthLevels));
}

#[test]
fn gateway_finds_books() {
    let books = vec![btc_book(), OrderBook::new("SOL-USD".to_string(), 100_000_000)];
    assert_eq!(find_book(&books, "SOL-USD"), Ok(1));
    assert_eq!(find_book(&books, "BTC-USD"), Ok(0));
    assert_eq!(find_book(&books, "ETH-USD"), Err(GatewayError::UnknownSymbol));
}

#[test]
fn gateway_sells_sol() {
    let mut book = OrderBook::new("SOL-USD".to_string(), 100_000_000);
    let mut storage = InMemoryStorage::new();
    let a = user(&mut storage, "a");
    let start = funds(&storage, a);
    // 2.5 SOL at 246.64 USD
    place_order(&mut book, &mut storage, a, 24_664_000_000, 250_000_000, OrderSide::Ask, TimeInForce::GTC).unwrap();
    assert_eq!(funds(&storage, a).sol, start.sol - 250_000_000);
    assert_eq!(funds(&storage, a).btc, start.btc);
    let _ = Asset::Sol;
}
