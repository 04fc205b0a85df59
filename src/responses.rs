//! The values that requests carry in and responses and notifications carry
//! out, and the conversions from the engine's records.
use vstd::prelude::*;
use crate::funds::UserFunds;
use crate::ledger::{session_index, InMemoryStorage, User};
use crate::session::{hex_lower, session_id_for, sha256_of};
use crate::types::{Order, OrderSide, TimeInForce, Trade};
use vstd::string::StringSliceAdditionalSpecFns;

verus! {

pub struct AddOrderRequest {
    pub symbol: String,
    pub price_tick: u64,
    pub quantity: u64,
    pub side: OrderSide,
    pub time_in_force: TimeInForce,
}

pub struct AddOrderResponse {
    pub order: Option<OrderResponse>,
    pub trades: Vec<TradeResponse>,
    pub success: bool,
    pub message: String,
}

pub struct CancelOrderRequest {
    pub symbol: String,
    pub price_tick: u64,
    pub side: OrderSide,
}

pub struct CancelOrderResponse {
    pub success: bool,
    pub message: String,
}

pub struct DepthRequest {
    pub symbol: String,
    pub levels: Option<usize>,
}

pub struct DepthResponse {
    pub symbol: String,
    pub bids: Vec<DepthLevelResponse>,
    pub asks: Vec<DepthLevelResponse>,
}

pub struct DepthLevelResponse {
    pub price_tick: u64,
    pub quantity: u64,
}

pub struct OrderResponse {
    pub id: u64,
    pub symbol: String,
    pub price_tick: u64,
    pub quantity: u64,
    pub quantity_filled: u64,
    pub side: OrderSide,
    pub time_in_force: TimeInForce,
    pub timestamp: u64,
    pub is_cancelled: bool,
}

impl OrderResponse {
    pub fn from_order_with_symbol(order: &Order, symbol: &str) -> (r: OrderResponse)
        ensures
            r.id == order.id,
            r.symbol@ == symbol@,
            r.price_tick == order.price_tick,
            r.quantity == order.quantity,
            r.quantity_filled == order.quantity_filled,
            r.side == order.side,
            r.time_in_force == order.time_in_force,
            r.timestamp == order.timestamp,
            r.is_cancelled == order.is_cancelled,
    {
        OrderResponse {
            id: order.id,
            symbol: symbol.to_owned(),
            price_tick: order.price_tick,
            quantity: order.quantity,
            quantity_filled: order.quantity_filled,
            side: order.side,
            time_in_force: order.time_in_force,
            timestamp: order.timestamp,
            is_cancelled: order.is_cancelled,
        }
    }
}

pub struct TradeResponse {
    pub id: u64,
    pub symbol: String,
    pub taker_order_id: u64,
    pub maker_order_id: u64,
    pub taker_user_id: u64,
    pub maker_user_id: u64,
    pub quantity: u64,
    pub price_tick: u64,
    pub timestamp: u64,
}

impl TradeResponse {
    pub fn from_trade_with_symbol(trade: &Trade, symbol: &str) -> (r: TradeResponse)
        ensures
            r.id == trade.id,
            r.symbol@ == symbol@,
            r.taker_order_id == trade.taker_order_id,
            r.maker_order_id == trade.maker_order_id,
            r.taker_user_id == trade.taker_user_id,
            r.maker_user_id == trade.maker_user_id,
            r.quantity == trade.quantity,
            r.price_tick == trade.price_tick,
            r.timestamp == trade.timestamp,
    {
        TradeResponse {
            id: trade.id,
            symbol: symbol.to_owned(),
            taker_order_id: trade.taker_order_id,
            maker_order_id: trade.maker_order_id,
            taker_user_id: trade.taker_user_id,
            maker_user_id: trade.maker_user_id,
            quantity: trade.quantity,
            price_tick: trade.price_tick,
            timestamp: trade.timestamp,
        }
    }
}

/// What a client learns of its own account.
pub struct AuthenticatedUser {
    pub user_id: u64,
    pub email: String,
    pub funds: UserFunds,
}

impl AuthenticatedUser {
    pub fn from_user(user: &User) -> (r: AuthenticatedUser)
        ensures
            r.user_id == user.user_id,
            r.email@ == user.email@,
            r.funds == user.funds,
    {
        AuthenticatedUser { user_id: user.user_id, email: user.email.clone(), funds: user.funds }
    }
}

pub struct LoginRequest {
    pub email: String,
    pub password: String,
}

pub struct LoginResponse {
    pub success: bool,
    pub message: String,
    pub session_id: Option<String>,
    pub user: Option<AuthenticatedUser>,
}

pub struct UserProfileResponse {
    pub success: bool,
    pub user: Option<AuthenticatedUser>,
    pub message: String,
}

/// Logs a user in: refuses an empty email or password, and otherwise
/// returns the account of the session derived from the two, created with
/// the seed balances on first login.
pub fn login_user(storage: &mut InMemoryStorage, email: &str, password: &str) -> (r: Option<User>)
    ensures
        (email@.len() == 0 || password@.len() == 0) ==> r is None && final(storage)@ == old(storage)@,
        (email@.len() > 0 && password@.len() > 0) ==> r is Some && ({
            let sid = hex_lower(sha256_of(email.spec_bytes() + password.spec_bytes()));
            let si = session_index(old(storage)@, sid);
            let u = r->0;
            &&& si >= 0 ==> final(storage)@ == old(storage)@ && u == old(storage)@[si]
            &&& si < 0 ==> final(storage)@ == old(storage)@.push(u) && u.session_id@ == sid && u.email@
                == email@ && u.funds == crate::funds::seed_funds()
        }),
{
    if email.is_empty() || password.is_empty() {
        return None;
    }
    let session_id = session_id_for(email, password);
    Some(storage.get_or_create_account_with_session(email, session_id.as_str()))
}

/// A trade as one of its two parties is told of it.
pub struct TradeNotification {
    pub id: u64,
    pub taker_order_id: u64,
    pub maker_order_id: u64,
    pub taker_user_id: u64,
    pub maker_user_id: u64,
    pub quantity: u64,
    pub price_tick: u64,
    pub timestamp: u64,
    /// Whether the party told was the taker.
    pub is_taker: bool,
}

impl TradeNotification {
    pub fn from_trade(trade: &Trade, user_id: u64) -> (r: TradeNotification)
        ensures
            r.id == trade.id,
            r.taker_order_id == trade.taker_order_id,
            r.maker_order_id == trade.maker_order_id,
            r.taker_user_id == trade.taker_user_id,
            r.maker_user_id == trade.maker_user_id,
            r.quantity == trade.quantity,
            r.price_tick == trade.price_tick,
            r.timestamp == trade.timestamp,
            r.is_taker == (user_id == trade.taker_user_id),
    {
        TradeNotification {
            id: trade.id,
            taker_order_id: trade.taker_order_id,
            maker_order_id: trade.maker_order_id,
            taker_user_id: trade.taker_user_id,
            maker_user_id: trade.maker_user_id,
            quantity: trade.quantity,
            price_tick: trade.price_tick,
            timestamp: trade.timestamp,
            is_taker: user_id == trade.taker_user_id,
        }
    }
}

/// The messages a client's notification stream carries.
pub enum NotificationType {
    TradeFill { trade: TradeNotification, symbol: String },
    OrderCancelled { order_id: u64, symbol: String, reason: String },
    ConnectionEstablished { user_id: u64, message: String },
}

/// Who is told of a trade, and what: the taker, then the maker when the
/// maker is another user.
pub fn trade_notifications(trade: &Trade, symbol: &str) -> (r: Vec<(u64, NotificationType)>)
    ensures
        r@.len() == if trade.maker_user_id == trade.taker_user_id { 1int } else { 2int },
        r@[0].0 == trade.taker_user_id,
        notifies(r@[0].1, trade, symbol@, true),
        r@.len() == 2 ==> r@[1].0 == trade.maker_user_id && notifies(r@[1].1, trade, symbol@, false),
{
    let mut r: Vec<(u64, NotificationType)> = Vec::new();
    r.push(
        (
            trade.taker_user_id,
            NotificationType::TradeFill {
                trade: TradeNotification::from_trade(trade, trade.taker_user_id),
                symbol: symbol.to_owned(),
            },
        ),
    );
    if trade.maker_user_id != trade.taker_user_id {
        r.push(
            (
                trade.maker_user_id,
                NotificationType::TradeFill {
                    trade: TradeNotification::from_trade(trade, trade.maker_user_id),
                    symbol: symbol.to_owned(),
                },
            ),
        );
    }
    r
}

/// `n` tells of `trade` on `symbol`, to its taker or to its maker.
pub open spec fn notifies(n: NotificationType, trade: &Trade, symbol: Seq<char>, is_taker: bool) -> bool {
    match n {
        NotificationType::TradeFill { trade: t, symbol: s } => {
            &&& s@ == symbol
            &&& t.id == trade.id
            &&& t.taker_order_id == trade.taker_order_id
            &&& t.maker_order_id == trade.maker_order_id
            &&& t.taker_user_id == trade.taker_user_id
            &&& t.maker_user_id == trade.maker_user_id
            &&& t.quantity == trade.quantity
            &&& t.price_tick == trade.price_tick
            &&& t.timestamp == trade.timestamp
            &&& t.is_taker == is_taker
        },
        _ => false,
    }
}

} // verus!
