use matcher::funds::{
    base_asset, base_units, quote_units, Asset, LedgerError, UserFunds,
};
use matcher::ledger::InMemoryStorage;
use matcher::responses::{login_user, trade_notifications, NotificationType, OrderResponse, TradeResponse};
use matcher::session::{hash_email, session_id_for};
use matcher::types::{Order, OrderSide, TimeInForce, Trade};

fn trade(taker: u64, maker: u64, quantity: u64, price_tick: u64) -> Trade {
    Trade {
        id: 7,
        taker_order_id: 1,
        maker_order_id: 2,
        taker_user_id: taker,
        maker_user_id: maker,
        quantity,
        price_tick,
        timestamp: 1234,
    }
}

#[test]
fn unit_conversions() {
    assert_eq!(base_units(10, 100), 10_000_000);
    assert_eq!(base_units(1, 100_000_000), 1);
    assert_eq!(quote_units(5, 101, 100), Some(505_000_000_000_000));
    assert_eq!(quote_units(3, 7, 10_000), Some(2_100_000_000));
    assert_eq!(quote_units(u64::MAX, u64::MAX, 1), None);
    // Multipliers that do not divide the minor units round down.
    assert_eq!(base_units(1, 3), 33_333_333);
    assert_eq!(quote_units(1, 1, 3), Some(1_111_111_111_111_111));
    assert_eq!(quote_units(2, 5, 3), Some(11_111_111_111_111_111));
    assert_eq!(quote_units(u64::MAX, u64::MAX, u64::MAX), Some(10_000_000_000_000_000));
    assert_eq!(quote_units(u64::MAX, 1_000_000_000_000, 1_000_000_007), Some(184_467_438_154_551_372_947_376_309_163));
    assert_eq!(base_asset("BTC-USD"), Some(Asset::Btc));
    assert_eq!(base_asset("SOL-USD"), Some(Asset::Sol));
    assert_eq!(base_asset("ETH-USD"), None);
}

#[test]
fn seed_funds() {
    let f = UserFunds::default();
    assert_eq!(f.btc, 100 * 100_000_000);
    assert_eq!(f.sol, 10_000 * 100_000_000);
    assert_eq!(f.usd, 100_000 * 10_000_000_000_000_000);
}

#[test]
fn ledger_errors() {
    let mut s = InMemoryStorage::new();
    assert_eq!(s.debit_funds_for_order(5, "BTC-USD", OrderSide::Bid, 1, 1, 100), Err(LedgerError::UserNotFound));
    let u = s.get_or_create_account_with_session("a@x", "sa");
    let id = u.user_id;
    assert_eq!(s.debit_funds_for_order(id, "ETH-USD", OrderSide::Ask, 1, 1, 100), Err(LedgerError::UnsupportedSymbol));
    assert_eq!(
        s.debit_funds_for_order(id, "BTC-USD", OrderSide::Bid, 1_000_000, 1_000_000, 100),
        Err(LedgerError::InsufficientFunds)
    );
    assert_eq!(s.get_user_by_id(id).unwrap().funds, UserFunds::default());
    let full = UserFunds { btc: u128::MAX, sol: 0, usd: 0 };
    assert_eq!(s.update_user_funds("sa", &full), Ok(()));
    assert_eq!(s.credit_funds_back(id, "BTC-USD", OrderSide::Ask, 1, 1, 100), Err(LedgerError::BalanceOverflow));
    assert_eq!(s.update_user_funds("nobody", &full), Err(LedgerError::UserNotFound));
    assert_eq!(LedgerError::InsufficientFunds.message(), "Insufficient funds");
}

#[test]
fn ledger_takes_any_multiplier() {
    let mut s = InMemoryStorage::new();
    let id = s.get_or_create_account_with_session("a@x", "sa").user_id;
    let start = UserFunds::default();
    s.debit_funds_for_order(id, "BTC-USD", OrderSide::Ask, 1, 1, 3).unwrap();
    assert_eq!(s.get_user_by_id(id).unwrap().funds.btc, start.btc - 33_333_333);
    s.debit_funds_for_order(id, "BTC-USD", OrderSide::Bid, 2, 5, 3).unwrap();
    assert_eq!(s.get_user_by_id(id).unwrap().funds.usd, start.usd - 11_111_111_111_111_111);
    s.handle_partial_fill_refund(id, "BTC-USD", OrderSide::Bid, 2, 5, 3).unwrap();
    s.credit_funds_back(id, "BTC-USD", OrderSide::Ask, 1, 1, 3).unwrap();
    assert_eq!(s.get_user_by_id(id).unwrap().funds, start);
}

#[test]
fn ledger_debit_and_refund() {
    let mut s = InMemoryStorage::new();
    let id = s.get_or_create_account_with_session("a@x", "sa").user_id;
    let start = s.get_user_by_id(id).unwrap().funds;
    s.debit_funds_for_order(id, "BTC-USD", OrderSide::Bid, 10, 150, 100).unwrap();
    assert_eq!(s.get_user_by_id(id).unwrap().funds.usd, start.usd - 10 * 150 * 1_000_000_000_000);
    s.handle_partial_fill_refund(id, "BTC-USD", OrderSide::Bid, 4, 150, 100).unwrap();
    assert_eq!(s.get_user_by_id(id).unwrap().funds.usd, start.usd - 6 * 150 * 1_000_000_000_000);
    s.debit_funds_for_order(id, "SOL-USD", OrderSide::Ask, 3, 150, 100).unwrap();
    assert_eq!(s.get_user_by_id(id).unwrap().funds.sol, start.sol - 3_000_000);
    assert_eq!(s.get_user_by_id(id).unwrap().funds.btc, start.btc);
}

#[test]
fn ledger_settles_between_users() {
    let mut s = InMemoryStorage::new();
    let a = s.get_or_create_account_with_session("a", "a").user_id;
    let b = s.get_or_create_account_with_session("b", "b").user_id;
    let start = UserFunds::default();
    // b bought 2 at 100 with a limit of 105; a's ask was resting.
    s.settle_trade(&trade(b, a, 2, 100), "BTC-USD", b, a, OrderSide::Bid, 105, 100).unwrap();
    let fa = s.get_user_by_id(a).unwrap().funds;
    let fb = s.get_user_by_id(b).unwrap().funds;
    assert_eq!(fa.usd, start.usd + 200 * 1_000_000_000_000);
    assert_eq!(fa.btc, start.btc);
    assert_eq!(fb.btc, start.btc + 2_000_000);
    assert_eq!(fb.usd, start.usd + 10 * 1_000_000_000_000);
    // a sold 1 at 100 into b's resting bid.
    s.settle_trade(&trade(a, b, 1, 100), "BTC-USD", a, b, OrderSide::Ask, 100, 100).unwrap();
    assert_eq!(s.get_user_by_id(a).unwrap().funds.usd, fa.usd + 100 * 1_000_000_000_000);
    assert_eq!(s.get_user_by_id(b).unwrap().funds.btc, fb.btc + 1_000_000);
    assert_eq!(
        s.settle_trade(&trade(a, 99, 1, 100), "BTC-USD", a, 99, OrderSide::Ask, 100, 100),
        Err(LedgerError::UserNotFound)
    );
}

#[test]
fn ledger_self_trade_credits_both_legs() {
    let mut s = InMemoryStorage::new();
    let a = s.get_or_create_account_with_session("a", "a").user_id;
    let start = UserFunds::default();
    s.settle_trade(&trade(a, a, 5, 100), "BTC-USD", a, a, OrderSide::Ask, 100, 100).unwrap();
    let f = s.get_user_by_id(a).unwrap().funds;
    assert_eq!(f.btc, start.btc + 5_000_000);
    assert_eq!(f.usd, start.usd + 500 * 1_000_000_000_000);
}

#[test]
fn market_bid_pays_at_settlement() {
    let mut s = InMemoryStorage::new();
    let a = s.get_or_create_account_with_session("a", "a").user_id;
    let b = s.get_or_create_account_with_session("b", "b").user_id;
    let poor = UserFunds { btc: 0, sol: 0, usd: 0 };
    s.update_user_funds("b", &poor).unwrap();
    assert_eq!(
        s.settle_trade(&trade(b, a, 1, 100), "BTC-USD", b, a, OrderSide::Bid, 0, 100),
        Err(LedgerError::InsufficientFunds)
    );
    assert_eq!(s.get_user_by_id(b).unwrap().funds, poor);
    assert_eq!(s.get_user_by_id(a).unwrap().funds, UserFunds::default());
}

#[test]
fn accounts_by_session() {
    let mut s = InMemoryStorage::new();
    let u1 = s.get_or_create_account("alice@example.com");
    assert_eq!(u1.session_id, "ff8d9819fc0e12bf0d24892e45987e249a28dce836a85cad60e28eaaa8c6d976");
    let u2 = s.get_or_create_account("alice@example.com");
    assert_eq!(u1.user_id, u2.user_id);
    let found = s.get_user_by_session_id("ff8d9819fc0e12bf0d24892e45987e249a28dce836a85cad60e28eaaa8c6d976").unwrap();
    assert_eq!(found.email, "alice@example.com");
    assert!(s.get_user_by_session_id("missing").is_none());
    assert!(s.get_user_by_id(u1.user_id.wrapping_add(1)).map_or(true, |u| u.user_id != u1.user_id));
}

#[test]
fn session_ids() {
    assert_eq!(
        session_id_for("alice@example.com", "secret"),
        "6f9715a38d6967f07ac4f0111cb0ba73f27963787c098607f449951bcb77246a"
    );
    assert_eq!(hash_email(""), "e3b0c44298fc1c149afbf4c8996fb92427ae41e4649b934ca495991b7852b855");
}

#[test]
fn login_requires_both_fields() {
    let mut s = InMemoryStorage::new();
    assert!(login_user(&mut s, "", "pw").is_none());
    assert!(login_user(&mut s, "alice@example.com", "").is_none());
    let u = login_user(&mut s, "alice@example.com", "secret").unwrap();
    assert_eq!(u.session_id, "6f9715a38d6967f07ac4f0111cb0ba73f27963787c098607f449951bcb77246a");
    assert_eq!(u.funds, UserFunds::default());
    let again = login_user(&mut s, "alice@example.com", "secret").unwrap();
    assert_eq!(again.user_id, u.user_id);
}

#[test]
fn notifications_for_trades() {
    let n = trade_notifications(&trade(1, 2, 5, 101), "BTC-USD");
    assert_eq!(n.len(), 2);
    assert_eq!(n[0].0, 1);
    assert_eq!(n[1].0, 2);
    match &n[0].1 {
        NotificationType::TradeFill { trade, symbol } => {
            assert!(trade.is_taker);
            assert_eq!(trade.quantity, 5);
            assert_eq!(symbol, "BTC-USD");
        }
        _ => panic!("expected a fill"),
    }
    match &n[1].1 {
        NotificationType::TradeFill { trade, .. } => assert!(!trade.is_taker),
        _ => panic!("expected a fill"),
    }
    assert_eq!(trade_notifications(&trade(3, 3, 5, 101), "BTC-USD").len(), 1);
}

#[test]
fn response_conversions() {
    let o = Order {
        id: 4,
        user_id: 9,
        price_tick: 101,
        quantity: 10,
        quantity_filled: 3,
        side: OrderSide::Ask,
        time_in_force: TimeInForce::GTC,
        timestamp: 55,
        is_cancelled: false,
    };
    let r = OrderResponse::from_order_with_symbol(&o, "BTC-USD");
    assert_eq!((r.id, r.price_tick, r.quantity, r.quantity_filled), (4, 101, 10, 3));
    assert_eq!(r.symbol, "BTC-USD");
    assert_eq!(r.side, OrderSide::Ask);
    let t = TradeResponse::from_trade_with_symbol(&trade(1, 2, 5, 101), "SOL-USD");
    assert_eq!((t.id, t.quantity, t.price_tick, t.taker_user_id, t.maker_user_id), (7, 5, 101, 1, 2));
    assert_eq!(t.symbol, "SOL-USD");
}
