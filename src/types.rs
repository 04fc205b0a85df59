//! Value types shared by the book, the ledger and the gateway.
use vstd::prelude::*;

verus! {

/// The side of the book an order belongs to.
#[derive(Debug, Copy, Clone, PartialEq, Eq, Structural)]
pub enum OrderSide {
    Bid,
    Ask,
}

/// How long an order may stay in the book.
#[derive(Debug, Copy, Clone, PartialEq, Eq, Structural)]
pub enum TimeInForce {
    /// Good till cancelled: rests until filled or cancelled.
    GTC,
    /// Fill or kill: filled completely at once, or not at all.
    FOK,
    /// Immediate or cancel: fills what it can at once, the rest is dropped.
    IOC,
}

#[derive(Debug, Copy, Clone, PartialEq, Eq, Structural)]
pub struct Order {
    pub id: u64,
    pub user_id: u64,
    /// Price in integer ticks; 0 marks a market order.
    pub price_tick: u64,
    pub quantity: u64,
    pub quantity_filled: u64,
    pub side: OrderSide,
    pub time_in_force: TimeInForce,
    pub timestamp: u64,
    pub is_cancelled: bool,
}

#[derive(Debug, Copy, Clone, PartialEq, Eq, Structural)]
pub struct Trade {
    pub id: u64,
    pub taker_order_id: u64,
    pub maker_order_id: u64,
    pub taker_user_id: u64,
    pub maker_user_id: u64,
    pub quantity: u64,
    pub price_tick: u64,
    pub timestamp: u64,
}

/// The side facing `side`.
pub open spec fn opposite(side: OrderSide) -> OrderSide {
    match side {
        OrderSide::Bid => OrderSide::Ask,
        OrderSide::Ask => OrderSide::Bid,
    }
}

impl Order {
    /// What is still open of the order.
    pub open spec fn residual(self) -> int {
        self.quantity - self.quantity_filled
    }

    /// The order with `q` more filled.
    pub open spec fn filled_by(self, q: int) -> Order {
        Order { quantity_filled: (self.quantity_filled + q) as u64, ..self }
    }
}

} // verus!
