//! The fund ledger: users with balances; collateral is locked when an order
//! is placed, and every fill moves what the two orders locked.
use vstd::prelude::*;
use crate::funds::{
    base_amount, base_asset, base_asset_of, base_units, collateral, collateral_holding,
    credit, credit_funds, debit, debit_funds, quote_amount, quote_units, seed_funds, Holding,
    LedgerError, UserFunds,
};
use crate::session::{hash_email, hex_lower, sha256_of};
use crate::types::{OrderSide, Trade};
use vstd::string::StringSliceAdditionalSpecFns;

verus! {

pub struct User {
    pub user_id: u64,
    pub session_id: String,
    pub email: String,
    pub funds: UserFunds,
}

/// A copy of `u`.
pub fn copy_user(u: &User) -> (r: User)
    ensures
        r == *u,
{
    User { user_id: u.user_id, session_id: u.session_id.clone(), email: u.email.clone(), funds: u.funds }
}

/// Relies on `rand::random`: a random `u64`. Nothing is assumed of it.
#[verifier::external_body]
fn random_user_id() -> u64 {
    rand::random::<u64>()
}

/// `i` is the first position of a user with id `uid`.
pub open spec fn is_first_id(users: Seq<User>, uid: u64, i: int) -> bool {
    &&& 0 <= i < users.len()
    &&& users[i].user_id == uid
    &&& forall|k: int| 0 <= k < i ==> (#[trigger] users[k]).user_id != uid
}

/// The first position of a user with id `uid`, or -1.
pub open spec fn user_index(users: Seq<User>, uid: u64) -> int {
    if exists|i: int| is_first_id(users, uid, i) {
        choose|i: int| is_first_id(users, uid, i)
    } else {
        -1
    }
}

/// `i` is the first position of a user with session `sid`.
pub open spec fn is_first_session(users: Seq<User>, sid: Seq<char>, i: int) -> bool {
    &&& 0 <= i < users.len()
    &&& users[i].session_id@ == sid
    &&& forall|k: int| 0 <= k < i ==> (#[trigger] users[k]).session_id@ != sid
}

/// The first position of a user with session `sid`, or -1.
pub open spec fn session_index(users: Seq<User>, sid: Seq<char>) -> int {
    if exists|i: int| is_first_session(users, sid, i) {
        choose|i: int| is_first_session(users, sid, i)
    } else {
        -1
    }
}

/// The users with the funds of position `i` replaced.
pub open spec fn set_funds(users: Seq<User>, i: int, f: UserFunds) -> Seq<User> {
    users.update(
        i,
        User {
            user_id: users[i].user_id,
            session_id: users[i].session_id,
            email: users[i].email,
            funds: f,
        },
    )
}

/// The users after changing the funds of the first user `uid` by `step`,
/// once the user, the symbol and the multiplier are checked.
pub open spec fn funds_step(
    users: Seq<User>,
    uid: u64,
    symbol: Seq<char>,
    m: u64,
    step: spec_fn(UserFunds, crate::funds::Asset) -> Result<UserFunds, LedgerError>,
) -> Result<Seq<User>, LedgerError> {
    let i = user_index(users, uid);
    if i < 0 {
        Err(LedgerError::UserNotFound)
    } else {
        match base_asset_of(symbol) {
            None => Err(LedgerError::UnsupportedSymbol),
            Some(a) => match step(users[i].funds, a) {
                Ok(f) => Ok(set_funds(users, i, f)),
                Err(e) => Err(e),
            },
        }
    }
}

/// Locking the collateral of an order: `quantity * price` of USD for a bid,
/// `quantity` of the base asset for an ask (amounts in ticks of multiplier
/// `m`, converted to minor units and rounded down; see `funds`).
pub open spec fn debit_spec(
    users: Seq<User>,
    uid: u64,
    symbol: Seq<char>,
    side: OrderSide,
    q: u64,
    p: u64,
    m: u64,
) -> Result<Seq<User>, LedgerError> {
    funds_step(users, uid, symbol, m, |f: UserFunds, a: crate::funds::Asset| debit(f, collateral_holding(side, a), collateral(side, q, p, m)))
}

/// Releasing the collateral of `q` at `p`: the inverse of `debit_spec`.
pub open spec fn credit_spec(
    users: Seq<User>,
    uid: u64,
    symbol: Seq<char>,
    side: OrderSide,
    q: u64,
    p: u64,
    m: u64,
) -> Result<Seq<User>, LedgerError> {
    funds_step(users, uid, symbol, m, |f: UserFunds, a: crate::funds::Asset| credit(f, collateral_holding(side, a), collateral(side, q, p, m)))
}

/// What the taker of a trade receives. A bid taker gets the base quantity,
/// and the part of the USD it locked at `limit` that the trade price did not
/// use (a market bid locked nothing and pays the whole price here). An ask
/// taker gets the USD price; its base asset was locked at entry.
pub open spec fn taker_receives(
    f: UserFunds,
    a: crate::funds::Asset,
    t: Trade,
    side: OrderSide,
    limit: u64,
    m: u64,
) -> Result<UserFunds, LedgerError> {
    match side {
        OrderSide::Bid => match credit(f, Holding::Base(a), base_amount(t.quantity, m)) {
            Err(e) => Err(e),
            Ok(f1) => if limit >= t.price_tick {
                credit(f1, Holding::Usd, quote_amount(t.quantity, (limit - t.price_tick) as u64, m))
            } else {
                debit(f1, Holding::Usd, quote_amount(t.quantity, (t.price_tick - limit) as u64, m))
            },
        },
        OrderSide::Ask => credit(f, Holding::Usd, quote_amount(t.quantity, t.price_tick, m)),
    }
}

/// What the maker of a trade receives: the USD price for a resting ask, the
/// base quantity for a resting bid. What it gives was locked at entry.
pub open spec fn maker_receives(
    f: UserFunds,
    a: crate::funds::Asset,
    t: Trade,
    taker_side: OrderSide,
    m: u64,
) -> Result<UserFunds, LedgerError> {
    match taker_side {
        OrderSide::Bid => credit(f, Holding::Usd, quote_amount(t.quantity, t.price_tick, m)),
        OrderSide::Ask => credit(f, Holding::Base(a), base_amount(t.quantity, m)),
    }
}

/// Settling a trade: the taker's part first, then the maker's (on the same
/// record when the two are one user).
pub open spec fn settle_spec(
    users: Seq<User>,
    t: Trade,
    symbol: Seq<char>,
    taker_uid: u64,
    maker_uid: u64,
    taker_side: OrderSide,
    limit: u64,
    m: u64,
) -> Result<Seq<User>, LedgerError> {
    let ti = user_index(users, taker_uid);
    let mi = user_index(users, maker_uid);
    if ti < 0 || mi < 0 {
        Err(LedgerError::UserNotFound)
    } else {
        match base_asset_of(symbol) {
            None => Err(LedgerError::UnsupportedSymbol),
            Some(a) => match taker_receives(users[ti].funds, a, t, taker_side, limit, m) {
                Err(e) => Err(e),
                Ok(tf) => {
                    let users1 = set_funds(users, ti, tf);
                    match maker_receives(users1[mi].funds, a, t, taker_side, m) {
                        Err(e) => Err(e),
                        Ok(mf) => Ok(set_funds(users1, mi, mf)),
                    }
                },
            },
        }
    }
}

/// Some user has id `x`.
pub open spec fn id_taken(users: Seq<User>, x: int) -> bool {
    exists|k: int| 0 <= k < users.len() && #[trigger] users[k].user_id == x
}

/// Among `n` users some id in `0..=n` is free.
proof fn lemma_some_id_free(users: Seq<User>)
    ensures
        exists|x: int| 0 <= x <= users.len() && !#[trigger] id_taken(users, x),
{
    if forall|x: int| 0 <= x <= users.len() ==> #[trigger] id_taken(users, x) {
        let uids = users.map_values(|u: User| u.user_id as int);
        uids.lemma_cardinality_of_set();
        vstd::seq_lib::seq_to_set_is_finite(uids);
        let range = vstd::set_lib::set_int_range(0, users.len() as int + 1);
        vstd::set_lib::lemma_int_range(0, users.len() as int + 1);
        assert forall|x: int| range.contains(x) implies uids.to_set().contains(x) by {
            assert(id_taken(users, x));
            let k = choose|k: int| 0 <= k < users.len() && #[trigger] users[k].user_id == x;
            assert(uids[k] == x);
        }
        vstd::set_lib::lemma_len_subset(range, uids.to_set());
    }
}

/// The users; each is found by its first record.
pub struct InMemoryStorage {
    accounts: Vec<User>,
}

impl View for InMemoryStorage {
    type V = Seq<User>;

    closed spec fn view(&self) -> Seq<User> {
        self.accounts@
    }
}

impl InMemoryStorage {
    pub fn new() -> (r: InMemoryStorage)
        ensures
            r@ == Seq::<User>::empty(),
    {
        InMemoryStorage { accounts: Vec::new() }
    }

    /// The first position of user `uid`.
    fn find_user(&self, uid: u64) -> (r: Option<usize>)
        ensures
            match r {
                Some(i) => is_first_id(self@, uid, i as int) && user_index(self@, uid) == i,
                None => user_index(self@, uid) == -1 && forall|k: int|
                    0 <= k < self@.len() ==> (#[trigger] self@[k]).user_id != uid,
            },
    {
        let mut i: usize = 0;
        while i < self.accounts.len()
            invariant
                i <= self.accounts@.len(),
                forall|k: int| 0 <= k < i ==> (#[trigger] self@[k]).user_id != uid,
            decreases self.accounts@.len() - i,
        {
            if self.accounts[i].user_id == uid {
                proof {
                    assert(is_first_id(self@, uid, i as int));
                    let c = choose|c: int| is_first_id(self@, uid, c);
                    if c < i {
                    } else if c > i {
                        assert(self@[i as int].user_id != uid);
                    }
                }
                return Some(i);
            }
            i = i + 1;
        }
        None
    }

    /// The first position of the user with session `sid`.
    fn find_session(&self, sid: &String) -> (r: Option<usize>)
        ensures
            match r {
                Some(i) => is_first_session(self@, sid@, i as int) && session_index(self@, sid@) == i,
                None => session_index(self@, sid@) == -1,
            },
    {
        let mut i: usize = 0;
        while i < self.accounts.len()
            invariant
                i <= self.accounts@.len(),
                forall|k: int| 0 <= k < i ==> (#[trigger] self@[k]).session_id@ != sid@,
            decreases self.accounts@.len() - i,
        {
            if self.accounts[i].session_id == *sid {
                proof {
                    assert(is_first_session(self@, sid@, i as int));
                    let c = choose|c: int| is_first_session(self@, sid@, c);
                    if c > i {
                        assert(self@[i as int].session_id@ != sid@);
                    }
                }
                return Some(i);
            }
            i = i + 1;
        }
        None
    }

    /// An id that no user has: a random one, drawn again if taken, and if
    /// that one is taken too, the smallest unused id (there is one among the
    /// first `n + 1`, for `n` users).
    fn fresh_user_id(&self) -> (r: u64)
        ensures
            forall|k: int| 0 <= k < self@.len() ==> (#[trigger] self@[k]).user_id != r,
    {
        let first = random_user_id();
        if self.find_user(first).is_none() {
            return first;
        }
        let second = random_user_id();
        if self.find_user(second).is_none() {
            return second;
        }
        let n = self.accounts.len();
        let mut c: usize = 0;
        loop
            invariant
                c <= n,
                n == self@.len(),
                forall|x: int| 0 <= x < c ==> #[trigger] id_taken(self@, x),
            decreases n - c,
        {
            if self.find_user(c as u64).is_none() {
                return c as u64;
            }
            proof {
                assert(user_index(self@, c as u64) >= 0);
                let k = user_index(self@, c as u64);
                assert(is_first_id(self@, c as u64, k));
                assert(self@[k].user_id == c);
                assert(id_taken(self@, c as int));
            }
            if c == n {
                proof {
                    lemma_some_id_free(self@);
                    let x = choose|x: int| 0 <= x <= self@.len() && !#[trigger] id_taken(self@, x);
                    assert(x == c);
                }
                return c as u64;
            }
            c = c + 1;
        }
    }

    /// Replaces the funds of the user at position `i`.
    fn put_funds(&mut self, i: usize, f: UserFunds)
        requires
            i < old(self)@.len(),
        ensures
            final(self)@ == set_funds(old(self)@, i as int, f),
    {
        let old_user = self.accounts.remove(i);
        let u = User { user_id: old_user.user_id, session_id: old_user.session_id, email: old_user.email, funds: f };
        self.accounts.insert(i, u);
        assert(self@ =~= set_funds(old(self)@, i as int, f));
    }

    /// The user with session `session_id`, created with the seed balances
    /// and a random id that no other user has, if there is none.
    pub fn get_or_create_account_with_session(&mut self, email: &str, session_id: &str) -> (r: User)
        ensures
            ({
                let si = session_index(old(self)@, session_id@);
                &&& si >= 0 ==> final(self)@ == old(self)@ && r == old(self)@[si]
                &&& si < 0 ==> final(self)@ == old(self)@.push(r) && r.session_id@ == session_id@
                    && r.email@ == email@ && r.funds == seed_funds()
                &&& si < 0 ==> forall|k: int| 0 <= k < old(self)@.len() ==> (#[trigger] old(self)@[k]).user_id != r.user_id
            }),
    {
        let sid = session_id.to_owned();
        match self.find_session(&sid) {
            Some(i) => copy_user(&self.accounts[i]),
            None => {
                let user_id = self.fresh_user_id();
                let user = User { user_id, session_id: sid, email: email.to_owned(), funds: UserFunds::default() };
                let r = copy_user(&user);
                self.accounts.push(user);
                r
            },
        }
    }

    /// The user whose session is derived from `email`, created if missing.
    pub fn get_or_create_account(&mut self, email: &str) -> (r: User)
        ensures
            ({
                let sid = hex_lower(sha256_of(email.spec_bytes()));
                let si = session_index(old(self)@, sid);
                &&& si >= 0 ==> final(self)@ == old(self)@ && r == old(self)@[si]
                &&& si < 0 ==> final(self)@ == old(self)@.push(r) && r.session_id@ == sid && r.email@
                    == email@ && r.funds == seed_funds()
            }),
    {
        let session_id = hash_email(email);
        self.get_or_create_account_with_session(email, session_id.as_str())
    }

    /// The user with session `session_id`.
    pub fn get_user_by_session_id(&self, session_id: &str) -> (r: Option<User>)
        ensures
            ({
                let si = session_index(self@, session_id@);
                r == if si >= 0 { Some(self@[si]) } else { None::<User> }
            }),
    {
        let sid = session_id.to_owned();
        match self.find_session(&sid) {
            Some(i) => Some(copy_user(&self.accounts[i])),
            None => None,
        }
    }

    /// Replaces the funds of the user with session `session_id`.
    pub fn update_user_funds(&mut self, session_id: &str, funds: &UserFunds) -> (r: Result<(), LedgerError>)
        ensures
            ({
                let si = session_index(old(self)@, session_id@);
                &&& si >= 0 ==> r is Ok && final(self)@ == set_funds(old(self)@, si, *funds)
                &&& si < 0 ==> r == Err::<(), LedgerError>(LedgerError::UserNotFound) && final(self)@ == old(self)@
            }),
    {
        let sid = session_id.to_owned();
        match self.find_session(&sid) {
            Some(i) => {
                self.put_funds(i, *funds);
                Ok(())
            },
            None => Err(LedgerError::UserNotFound),
        }
    }

    /// The user with id `user_id`.
    pub fn get_user_by_id(&self, user_id: u64) -> (r: Option<User>)
        ensures
            ({
                let i = user_index(self@, user_id);
                r == if i >= 0 { Some(self@[i]) } else { None::<User> }
            }),
    {
        match self.find_user(user_id) {
            Some(i) => Some(copy_user(&self.accounts[i])),
            None => None,
        }
    }
}


/// `r` and `after` are what applying `s` to `before` gives: its users on
/// success, the old users and its error otherwise.
pub open spec fn applied(
    r: Result<(), LedgerError>,
    before: Seq<User>,
    after: Seq<User>,
    s: Result<Seq<User>, LedgerError>,
) -> bool {
    match s {
        Ok(u) => r is Ok && after == u,
        Err(e) => r == Err::<(), LedgerError>(e) && after == before,
    }
}

/// The collateral of an order in minor units; `None` beyond `u128`.
fn collateral_units(side: OrderSide, q: u64, p: u64, m: u64) -> (r: Option<u128>)
    requires
        m > 0,
    ensures
        match r {
            Some(v) => v == collateral(side, q, p, m),
            None => collateral(side, q, p, m) > u128::MAX,
        },
{
    match side {
        OrderSide::Bid => quote_units(q, p, m),
        OrderSide::Ask => Some(base_units(q, m)),
    }
}

fn holding_for(side: OrderSide, a: crate::funds::Asset) -> (r: Holding)
    ensures
        r == collateral_holding(side, a),
{
    match side {
        OrderSide::Bid => Holding::Usd,
        OrderSide::Ask => Holding::Base(a),
    }
}

/// The taker's funds after a trade, as `taker_receives` says.
fn taker_receives_exec(
    f: &UserFunds,
    a: crate::funds::Asset,
    t: &Trade,
    side: OrderSide,
    limit: u64,
    m: u64,
) -> (r: Result<UserFunds, LedgerError>)
    requires
        m > 0,
    ensures
        r == taker_receives(*f, a, *t, side, limit, m),
{
    match side {
        OrderSide::Bid => {
            let f1 = match credit_funds(f, Holding::Base(a), Some(base_units(t.quantity, m)), Ghost(0)) {
                Err(e) => return Err(e),
                Ok(f1) => f1,
            };
            if limit >= t.price_tick {
                let d = (limit - t.price_tick) as u64;
                credit_funds(&f1, Holding::Usd, quote_units(t.quantity, d, m), Ghost(quote_amount(t.quantity, d, m)))
            } else {
                let d = (t.price_tick - limit) as u64;
                debit_funds(&f1, Holding::Usd, quote_units(t.quantity, d, m), Ghost(quote_amount(t.quantity, d, m)))
            }
        },
        OrderSide::Ask => credit_funds(
            f,
            Holding::Usd,
            quote_units(t.quantity, t.price_tick, m),
            Ghost(quote_amount(t.quantity, t.price_tick, m)),
        ),
    }
}

/// The maker's funds after a trade, as `maker_receives` says.
fn maker_receives_exec(f: &UserFunds, a: crate::funds::Asset, t: &Trade, taker_side: OrderSide, m: u64) -> (r:
    Result<UserFunds, LedgerError>)
    requires
        m > 0,
    ensures
        r == maker_receives(*f, a, *t, taker_side, m),
{
    match taker_side {
        OrderSide::Bid => credit_funds(
            f,
            Holding::Usd,
            quote_units(t.quantity, t.price_tick, m),
            Ghost(quote_amount(t.quantity, t.price_tick, m)),
        ),
        OrderSide::Ask => credit_funds(f, Holding::Base(a), Some(base_units(t.quantity, m)), Ghost(0)),
    }
}

impl InMemoryStorage {
    /// Locks the collateral of an order of `user_id`: see `debit_spec`.
    pub fn debit_funds_for_order(
        &mut self,
        user_id: u64,
        symbol: &str,
        side: OrderSide,
        quantity: u64,
        price_tick: u64,
        tick_multiplier: u64,
    ) -> (r: Result<(), LedgerError>)
        requires
            tick_multiplier > 0,
        ensures
            applied(
                r,
                old(self)@,
                final(self)@,
                debit_spec(old(self)@, user_id, symbol@, side, quantity, price_tick, tick_multiplier),
            ),
    {
        let i = match self.find_user(user_id) {
            None => return Err(LedgerError::UserNotFound),
            Some(i) => i,
        };
        let a = match base_asset(symbol) {
            None => return Err(LedgerError::UnsupportedSymbol),
            Some(a) => a,
        };
        let amt = collateral_units(side, quantity, price_tick, tick_multiplier);
        match debit_funds(
            &self.accounts[i].funds,
            holding_for(side, a),
            amt,
            Ghost(collateral(side, quantity, price_tick, tick_multiplier)),
        ) {
            Err(e) => Err(e),
            Ok(f) => {
                self.put_funds(i, f);
                Ok(())
            },
        }
    }

    /// Releases the collateral of `quantity` at `price_tick` back to
    /// `user_id`: see `credit_spec`. For orders the book rejected, and for
    /// cancelled orders.
    pub fn credit_funds_back(
        &mut self,
        user_id: u64,
        symbol: &str,
        side: OrderSide,
        quantity: u64,
        price_tick: u64,
        tick_multiplier: u64,
    ) -> (r: Result<(), LedgerError>)
        requires
            tick_multiplier > 0,
        ensures
            applied(
                r,
                old(self)@,
                final(self)@,
                credit_spec(old(self)@, user_id, symbol@, side, quantity, price_tick, tick_multiplier),
            ),
    {
        let i = match self.find_user(user_id) {
            None => return Err(LedgerError::UserNotFound),
            Some(i) => i,
        };
        let a = match base_asset(symbol) {
            None => return Err(LedgerError::UnsupportedSymbol),
            Some(a) => a,
        };
        let amt = collateral_units(side, quantity, price_tick, tick_multiplier);
        match credit_funds(
            &self.accounts[i].funds,
            holding_for(side, a),
            amt,
            Ghost(collateral(side, quantity, price_tick, tick_multiplier)),
        ) {
            Err(e) => Err(e),
            Ok(f) => {
                self.put_funds(i, f);
                Ok(())
            },
        }
    }

    /// Releases the collateral of the `unfilled_quantity` of an order that
    /// left the book without resting: see `credit_spec`.
    pub fn handle_partial_fill_refund(
        &mut self,
        user_id: u64,
        symbol: &str,
        side: OrderSide,
        unfilled_quantity: u64,
        price_tick: u64,
        tick_multiplier: u64,
    ) -> (r: Result<(), LedgerError>)
        requires
            tick_multiplier > 0,
        ensures
            applied(
                r,
                old(self)@,
                final(self)@,
                credit_spec(old(self)@, user_id, symbol@, side, unfilled_quantity, price_tick, tick_multiplier),
            ),
    {
        self.credit_funds_back(user_id, symbol, side, unfilled_quantity, price_tick, tick_multiplier)
    }

    /// Settles a trade between `taker_user_id`, whose order was on
    /// `taker_side` with limit `taker_price_tick` (0 for a market order),
    /// and `maker_user_id`: see `settle_spec`. Nothing changes on error.
    ///
    /// Both orders locked their collateral when they were placed (USD for a
    /// bid, the base asset for an ask), so settling does not take the traded
    /// quantity or its price from either party a second time: each party is
    /// credited what it receives (the base quantity to the bid, the price to
    /// the ask), and a bid taker also gets back what its limit locked beyond
    /// the trade price; a market bid, which locked nothing, pays the price
    /// here. A self-trade follows the same rules, which give the user back
    /// both sides of the traded quantity.
    pub fn settle_trade(
        &mut self,
        trade: &Trade,
        symbol: &str,
        taker_user_id: u64,
        maker_user_id: u64,
        taker_side: OrderSide,
        taker_price_tick: u64,
        tick_multiplier: u64,
    ) -> (r: Result<(), LedgerError>)
        requires
            tick_multiplier > 0,
        ensures
            applied(
                r,
                old(self)@,
                final(self)@,
                settle_spec(
                    old(self)@,
                    *trade,
                    symbol@,
                    taker_user_id,
                    maker_user_id,
                    taker_side,
                    taker_price_tick,
                    tick_multiplier,
                ),
            ),
    {
        let ti = self.find_user(taker_user_id);
        let mi = self.find_user(maker_user_id);
        if ti.is_none() || mi.is_none() {
            return Err(LedgerError::UserNotFound);
        }
        let ti = ti.unwrap();
        let mi = mi.unwrap();
        let a = match base_asset(symbol) {
            None => return Err(LedgerError::UnsupportedSymbol),
            Some(a) => a,
        };
        let tf = match taker_receives_exec(&self.accounts[ti].funds, a, trade, taker_side, taker_price_tick, tick_multiplier) {
            Err(e) => return Err(e),
            Ok(tf) => tf,
        };
        let ghost users1 = set_funds(self@, ti as int, tf);
        let mf0 = if mi == ti {
            tf
        } else {
            self.accounts[mi].funds
        };
        assert(mf0 == users1[mi as int].funds);
        let mf = match maker_receives_exec(&mf0, a, trade, taker_side, tick_multiplier) {
            Err(e) => return Err(e),
            Ok(mf) => mf,
        };
        self.put_funds(ti, tf);
        self.put_funds(mi, mf);
        Ok(())
    }
}

} // verus!
