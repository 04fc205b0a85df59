//! Balances in integer minor units, and the amounts that orders lock.
//! Any positive tick multiplier is accepted: an amount in ticks is converted
//! to minor units exactly and rounded down to a whole minor unit.
use vstd::prelude::*;
use crate::types::OrderSide;

verus! {

/// Minor units in one unit of a base asset.
pub const BASE_SCALE: u128 = 100_000_000;

/// Minor units in one USD.
pub const USD_SCALE: u128 = 10_000_000_000_000_000;

/// The base assets that the exchange lists.
#[derive(Debug, Copy, Clone, PartialEq, Eq, Structural)]
pub enum Asset {
    Btc,
    Sol,
}

/// One balance of a user: USD or a base asset.
#[derive(Debug, Copy, Clone, PartialEq, Eq, Structural)]
pub enum Holding {
    Usd,
    Base(Asset),
}

/// Why a ledger operation was refused.
#[derive(Debug, Copy, Clone, PartialEq, Eq, Structural)]
pub enum LedgerError {
    UserNotFound,
    UnsupportedSymbol,
    InsufficientFunds,
    /// The balance would not fit its integer.
    BalanceOverflow,
}

impl LedgerError {
    /// A short description for people.
    pub open spec fn text(self) -> Seq<char> {
        match self {
            LedgerError::UserNotFound => "User not found"@,
            LedgerError::UnsupportedSymbol => "Unsupported symbol"@,
            LedgerError::InsufficientFunds => "Insufficient funds"@,
            LedgerError::BalanceOverflow => "Balance overflow"@,
        }
    }

    pub fn message(&self) -> (r: String)
        ensures
            r@ == self.text(),
    {
        match self {
            LedgerError::UserNotFound => "User not found".to_owned(),
            LedgerError::UnsupportedSymbol => "Unsupported symbol".to_owned(),
            LedgerError::InsufficientFunds => "Insufficient funds".to_owned(),
            LedgerError::BalanceOverflow => "Balance overflow".to_owned(),
        }
    }
}

/// The balances of one user, in minor units.
#[derive(Debug, Copy, Clone, PartialEq, Eq, Structural)]
pub struct UserFunds {
    pub btc: u128,
    pub sol: u128,
    pub usd: u128,
}

impl Default for UserFunds {
    /// The seed balances of a new user: 100 BTC, 10 000 SOL, 100 000 USD.
    fn default() -> (r: UserFunds)
        ensures
            r == seed_funds(),
    {
        UserFunds { btc: 100 * BASE_SCALE, sol: 10_000 * BASE_SCALE, usd: 100_000 * USD_SCALE }
    }
}

pub open spec fn seed_funds() -> UserFunds {
    UserFunds {
        btc: 10_000_000_000,
        sol: 1_000_000_000_000,
        usd: 1_000_000_000_000_000_000_000,
    }
}

/// A tick multiplier `m` that splits the ledger's minor units evenly: then
/// a quantity tick is exactly `BASE_SCALE / m` minor units and a price tick
/// times a quantity tick exactly `USD_SCALE / (m * m)` minor units of USD,
/// and no amount is rounded.
pub open spec fn exact_multiplier(m: u64) -> bool {
    m > 0 && (BASE_SCALE as int) % (m as int) == 0 && (USD_SCALE as int) % (m * m) == 0
}

/// `q` quantity ticks of multiplier `m`, in minor units of the base asset,
/// rounded down to a whole minor unit.
pub open spec fn base_amount(q: u64, m: u64) -> int {
    (q * (BASE_SCALE as int)) / (m as int)
}

/// `q` quantity ticks at `p` price ticks of multiplier `m`, in minor units
/// of USD, rounded down to a whole minor unit.
pub open spec fn quote_amount(q: u64, p: u64, m: u64) -> int {
    (q * p * (USD_SCALE as int)) / (m * m)
}

/// Minor units of USD in one price tick times one quantity tick, when
/// that is whole.
pub open spec fn usd_scale(m: u64) -> int {
    (USD_SCALE as int) / (m * m)
}

/// Minor units of the base asset in one quantity tick, when that is whole.
pub open spec fn base_scale(m: u64) -> int {
    (BASE_SCALE as int) / (m as int)
}

/// With an exact multiplier, amounts are the tick counts times the scales.
pub proof fn lemma_exact_amounts(q: u64, p: u64, m: u64)
    requires
        exact_multiplier(m),
    ensures
        quote_amount(q, p, m) == q * p * usd_scale(m),
        base_amount(q, m) == q * base_scale(m),
{
    let mm = m * m;
    assert(mm > 0) by (nonlinear_arith)
        requires
            m > 0,
            mm == m * m,
    ;
    let k = (USD_SCALE as int) / mm;
    vstd::arithmetic::div_mod::lemma_fundamental_div_mod(USD_SCALE as int, mm);
    assert(q * p * (USD_SCALE as int) == (q * p * k) * mm) by (nonlinear_arith)
        requires
            USD_SCALE as int == mm * k,
    ;
    assert(q * p * k >= 0) by (nonlinear_arith)
        requires
            k >= 0,
            q >= 0,
            p >= 0,
    ;
    vstd::arithmetic::div_mod::lemma_div_by_multiple(q * p * k, mm);
    let j = (BASE_SCALE as int) / (m as int);
    vstd::arithmetic::div_mod::lemma_fundamental_div_mod(BASE_SCALE as int, m as int);
    assert(q * (BASE_SCALE as int) == (q * j) * m) by (nonlinear_arith)
        requires
            BASE_SCALE as int == m * j,
    ;
    assert(q * j >= 0) by (nonlinear_arith)
        requires
            j >= 0,
            q >= 0,
    ;
    vstd::arithmetic::div_mod::lemma_div_by_multiple(q * j, m as int);
}

/// The base asset that `symbol` trades against USD.
pub open spec fn base_asset_of(symbol: Seq<char>) -> Option<Asset> {
    if symbol == "BTC-USD"@ {
        Some(Asset::Btc)
    } else if symbol == "SOL-USD"@ {
        Some(Asset::Sol)
    } else {
        None
    }
}

/// The balance that an order on `side` locks: USD for a bid, the base asset
/// for an ask.
pub open spec fn collateral_holding(side: OrderSide, asset: Asset) -> Holding {
    match side {
        OrderSide::Bid => Holding::Usd,
        OrderSide::Ask => Holding::Base(asset),
    }
}

/// What an order of `q` at `p` on `side` locks, in minor units.
pub open spec fn collateral(side: OrderSide, q: u64, p: u64, m: u64) -> int {
    match side {
        OrderSide::Bid => quote_amount(q, p, m),
        OrderSide::Ask => base_amount(q, m),
    }
}

pub open spec fn balance(f: UserFunds, h: Holding) -> int {
    match h {
        Holding::Usd => f.usd as int,
        Holding::Base(Asset::Btc) => f.btc as int,
        Holding::Base(Asset::Sol) => f.sol as int,
    }
}

pub open spec fn with_balance(f: UserFunds, h: Holding, v: int) -> UserFunds {
    match h {
        Holding::Usd => UserFunds { usd: v as u128, ..f },
        Holding::Base(Asset::Btc) => UserFunds { btc: v as u128, ..f },
        Holding::Base(Asset::Sol) => UserFunds { sol: v as u128, ..f },
    }
}

/// `amt` more on one balance, unless it would not fit.
pub open spec fn credit(f: UserFunds, h: Holding, amt: int) -> Result<UserFunds, LedgerError> {
    if balance(f, h) + amt <= u128::MAX {
        Ok(with_balance(f, h, balance(f, h) + amt))
    } else {
        Err(LedgerError::BalanceOverflow)
    }
}

/// `amt` less on one balance, unless it holds less than that.
pub open spec fn debit(f: UserFunds, h: Holding, amt: int) -> Result<UserFunds, LedgerError> {
    if amt <= balance(f, h) {
        Ok(with_balance(f, h, balance(f, h) - amt))
    } else {
        Err(LedgerError::InsufficientFunds)
    }
}

/// `q` quantity ticks in minor units of the base asset, rounded down.
pub fn base_units(q: u64, m: u64) -> (r: u128)
    requires
        m > 0,
    ensures
        r == base_amount(q, m),
{
    assert((q as u128) * BASE_SCALE <= u128::MAX) by (nonlinear_arith)
        requires
            q <= u64::MAX,
    ;
    (q as u128) * BASE_SCALE / (m as u128)
}

/// `q` quantity ticks at `p` price ticks in minor units of USD, rounded
/// down; `None` when that does not fit a `u128`. No intermediate value
/// exceeds a `u128`.
pub fn quote_units(q: u64, p: u64, m: u64) -> (r: Option<u128>)
    requires
        m > 0,
    ensures
        match r {
            Some(v) => v == quote_amount(q, p, m),
            None => quote_amount(q, p, m) > u128::MAX,
        },
{
    let mw = m as u128;
    assert((q as u128) * (p as u128) <= u128::MAX) by (nonlinear_arith)
        requires
            q <= u64::MAX,
            p <= u64::MAX,
    ;
    let qp: u128 = q as u128 * p as u128;
    // qp = m * c + d, and qp * U / m = c * U + e with e = d * U / m.
    let c = qp / mw;
    let d = qp % mw;
    assert(d * USD_SCALE <= u128::MAX) by (nonlinear_arith)
        requires
            d < mw,
            mw <= u64::MAX,
    ;
    let du = d * USD_SCALE;
    let e = du / mw;
    // c = m * c1 + c2, and (c * U + e) / m = c1 * U + t with t = (c2 * U + e) / m.
    let c1 = c / mw;
    let c2 = c % mw;
    assert(e <= du) by {
        vstd::arithmetic::div_mod::lemma_div_is_ordered_by_denominator(du as int, 1, mw as int);
    }
    assert(c2 * USD_SCALE + e <= u128::MAX) by (nonlinear_arith)
        requires
            c2 < mw,
            mw <= u64::MAX,
            e <= du,
            du == d * USD_SCALE,
            d < mw,
    ;
    let w = c2 * USD_SCALE + e;
    let t = w / mw;
    proof {
        let uu = USD_SCALE as int;
        let mi = mw as int;
        let x = qp as int * uu;
        vstd::arithmetic::div_mod::lemma_fundamental_div_mod(qp as int, mi);
        vstd::arithmetic::div_mod::lemma_fundamental_div_mod(du as int, mi);
        vstd::arithmetic::div_mod::lemma_fundamental_div_mod(c as int, mi);
        vstd::arithmetic::div_mod::lemma_fundamental_div_mod(w as int, mi);
        let r1 = (du as int) % mi;
        let r2 = (w as int) % mi;
        vstd::arithmetic::div_mod::lemma_mod_bound(du as int, mi);
        vstd::arithmetic::div_mod::lemma_mod_bound(w as int, mi);
        assert(x == mi * (c * uu + e) + r1) by (nonlinear_arith)
            requires
                qp == mi * c + d,
                du == d * uu,
                du == mi * e + r1,
                x == qp * uu,
        ;
        vstd::arithmetic::div_mod::lemma_div_multiples_vanish_fancy(c * uu + e, r1, mi);
        assert(x / mi == c * uu + e);
        assert(c * uu + e == mi * (c1 * uu + t) + r2) by (nonlinear_arith)
            requires
                c == mi * c1 + c2,
                w == c2 * uu + e,
                w == mi * t + r2,
        ;
        assert(c1 * uu + t >= 0) by (nonlinear_arith)
            requires
                c1 >= 0,
                t >= 0,
                uu >= 0,
        ;
        vstd::arithmetic::div_mod::lemma_div_multiples_vanish_fancy(c1 * uu + t, r2, mi);
        assert(x >= 0) by (nonlinear_arith)
            requires
                qp >= 0,
                uu >= 0,
                x == qp * uu,
        ;
        vstd::arithmetic::div_mod::lemma_div_denominator(x, mi, mi);
        assert(q * p * uu == x);
        assert(quote_amount(q, p, m) == c1 * uu + t);
    }
    let room = (u128::MAX - t) / USD_SCALE;
    if c1 > room {
        assert(c1 * USD_SCALE > u128::MAX - t) by (nonlinear_arith)
            requires
                c1 > room,
                room == (u128::MAX - t) / (USD_SCALE as int),
                t <= u128::MAX,
        ;
        None
    } else {
        assert(c1 * USD_SCALE <= u128::MAX - t) by (nonlinear_arith)
            requires
                c1 <= room,
                room == (u128::MAX - t) / (USD_SCALE as int),
                t <= u128::MAX,
        ;
        Some(c1 * USD_SCALE + t)
    }
}

/// The base asset of `symbol`.
pub fn base_asset(symbol: &str) -> (r: Option<Asset>)
    ensures
        r == base_asset_of(symbol@),
{
    let s = symbol.to_owned();
    if s == "BTC-USD".to_owned() {
        Some(Asset::Btc)
    } else if s == "SOL-USD".to_owned() {
        Some(Asset::Sol)
    } else {
        None
    }
}

pub fn get_balance(f: &UserFunds, h: Holding) -> (r: u128)
    ensures
        r == balance(*f, h),
{
    match h {
        Holding::Usd => f.usd,
        Holding::Base(Asset::Btc) => f.btc,
        Holding::Base(Asset::Sol) => f.sol,
    }
}

fn set_balance(f: &UserFunds, h: Holding, v: u128) -> (r: UserFunds)
    ensures
        r == with_balance(*f, h, v as int),
{
    match h {
        Holding::Usd => UserFunds { usd: v, ..*f },
        Holding::Base(Asset::Btc) => UserFunds { btc: v, ..*f },
        Holding::Base(Asset::Sol) => UserFunds { sol: v, ..*f },
    }
}

/// Adds `amt` to one balance; `amt` of `None` stands for an amount beyond
/// `u128`, given as `big`.
pub fn credit_funds(f: &UserFunds, h: Holding, amt: Option<u128>, Ghost(big): Ghost<int>) -> (r: Result<
    UserFunds,
    LedgerError,
>)
    requires
        amt is None ==> big > u128::MAX,
    ensures
        r == credit(*f, h, if amt is Some { amt->0 as int } else { big }),
{
    let b = get_balance(f, h);
    match amt {
        None => Err(LedgerError::BalanceOverflow),
        Some(a) => {
            if a > u128::MAX - b {
                Err(LedgerError::BalanceOverflow)
            } else {
                Ok(set_balance(f, h, b + a))
            }
        },
    }
}

/// Takes `amt` from one balance; `amt` of `None` stands for an amount beyond
/// `u128`, given as `big`.
pub fn debit_funds(f: &UserFunds, h: Holding, amt: Option<u128>, Ghost(big): Ghost<int>) -> (r: Result<
    UserFunds,
    LedgerError,
>)
    requires
        amt is None ==> big > u128::MAX,
    ensures
        r == debit(*f, h, if amt is Some { amt->0 as int } else { big }),
{
    let b = get_balance(f, h);
    match amt {
        None => Err(LedgerError::InsufficientFunds),
        Some(a) => {
            if a > b {
                Err(LedgerError::InsufficientFunds)
            } else {
                Ok(set_balance(f, h, b - a))
            }
        },
    }
}

} // verus!
