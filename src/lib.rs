//! A limit-order matching engine: per-symbol order books with price-time
//! priority, three time-in-force policies, and a fund ledger that
//! collateralises orders and settles every fill.
pub mod types;
pub mod model;
pub mod ids;
pub mod side;
pub mod orderbook;
pub mod funds;
pub mod session;
pub mod ledger;
pub mod laws;
pub mod gateway;
pub mod responses;
pub mod accounting;
