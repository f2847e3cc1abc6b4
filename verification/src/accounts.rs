//! Gateway-side accounts: buying power, positions and limits per symbol, and
//! tentative reservations of buying power that keep concurrent orders of one
//! account from spending the same money twice.
use std::collections::HashMap;

use dashmap::DashMap;
use vstd::prelude::*;

use crate::types::{AccountId, Command, Event, Fill, NewOrder, Position, Replace, RiskLimits, Side, SymbolId};

verus! {

broadcast use vstd::std_specs::hash::group_hash_axioms;

// ------------------------------------------------------------------
// Types.
// ------------------------------------------------------------------

/// A change of account state that is journaled: only account creation is.
#[derive(Clone, Copy, Debug, PartialEq, Eq, Structural)]
pub enum AccountUpdate {
    CreateAccount { account_id: AccountId, buying_power: i64 },
}

/// State of one account.
#[derive(Debug)]
pub struct AccountState {
    pub account_id: AccountId,
    pub buying_power: i64,
    /// Buying power locked for pending orders.
    pub tentative_reserved: i64,
    /// Positions by symbol.
    pub positions: HashMap<SymbolId, Position>,
    /// Risk limits by symbol.
    pub risk_limits: HashMap<SymbolId, RiskLimits>,
}

/// Abstract state of one account.
pub struct AccountModel {
    pub account_id: AccountId,
    pub buying_power: i64,
    pub tentative_reserved: i64,
    pub positions: Map<SymbolId, Position>,
    pub risk_limits: Map<SymbolId, RiskLimits>,
}

impl View for AccountState {
    type V = AccountModel;

    open spec fn view(&self) -> AccountModel {
        AccountModel {
            account_id: self.account_id,
            buying_power: self.buying_power,
            tentative_reserved: self.tentative_reserved,
            positions: self.positions@,
            risk_limits: self.risk_limits@,
        }
    }
}

impl Clone for AccountState {
    fn clone(&self) -> (r: Self)
        ensures
            r@ == self@,
    {
        AccountState {
            account_id: self.account_id,
            buying_power: self.buying_power,
            tentative_reserved: self.tentative_reserved,
            positions: self.positions.clone(),
            risk_limits: self.risk_limits.clone(),
        }
    }
}

/// A fresh account: its buying power, nothing reserved, no position, no limit of its own.
pub open spec fn new_account(account_id: AccountId, buying_power: i64) -> AccountModel {
    AccountModel {
        account_id,
        buying_power,
        tentative_reserved: 0,
        positions: Map::empty(),
        risk_limits: Map::empty(),
    }
}

/// The limits of `a` for symbol `s` (the defaults when it has none of its own).
pub open spec fn limits_for(a: AccountModel, s: SymbolId) -> RiskLimits {
    if a.risk_limits.contains_key(s) {
        a.risk_limits[s]
    } else {
        crate::types::default_risk_limits()
    }
}

/// The position of `a` in symbol `s` (flat when it has none).
pub open spec fn position_for(a: AccountModel, s: SymbolId) -> Position {
    if a.positions.contains_key(s) {
        a.positions[s]
    } else {
        crate::types::zero_position()
    }
}

impl AccountState {
    pub fn new(account_id: AccountId, initial_buying_power: i64) -> (r: Self)
        ensures
            r@ == new_account(account_id, initial_buying_power),
    {
        AccountState {
            account_id,
            buying_power: initial_buying_power,
            tentative_reserved: 0,
            positions: HashMap::new(),
            risk_limits: HashMap::new(),
        }
    }

    /// The limits for a symbol (the defaults when the account has none of its own).
    pub fn get_risk_limits(&self, symbol_id: SymbolId) -> (r: RiskLimits)
        ensures
            r == limits_for(self@, symbol_id),
    {
        match self.risk_limits.get(&symbol_id) {
            Some(l) => *l,
            None => RiskLimits::default(),
        }
    }

    /// The position in a symbol (flat when there is none).
    pub fn get_position(&self, symbol_id: SymbolId) -> (r: Position)
        ensures
            r == position_for(self@, symbol_id),
    {
        match self.positions.get(&symbol_id) {
            Some(p) => *p,
            None => Position::default(),
        }
    }
}

/// Buying power set aside for one order.
#[derive(Clone, Copy, Debug, PartialEq, Eq, Structural)]
pub struct ReservationToken {
    pub account_id: AccountId,
    pub symbol_id: SymbolId,
    pub amount: i64,
    pub order_id: u64,
}

/// Why the gateway refused an order.
#[derive(Clone, Copy, Debug, PartialEq, Eq, Structural)]
pub enum RiskViolation {
    InsufficientFunds,
    PositionLimitExceeded,
    OrderSizeTooLarge,
    AccountNotFound,
}

/// The state of every account, as a snapshot holds it.
#[derive(Clone, Debug)]
pub struct AccountSnapshot {
    pub sequence: u64,
    pub accounts: Vec<AccountStateSnapshot>,
}

/// One account in a snapshot.
#[derive(Clone, Debug)]
pub struct AccountStateSnapshot {
    pub account_id: AccountId,
    pub buying_power: i64,
    pub positions: Vec<(SymbolId, Position)>,
    pub risk_limits: Vec<(SymbolId, RiskLimits)>,
}

// ------------------------------------------------------------------
// The accounts map of the `dashmap` crate, behind trusted items.
// ------------------------------------------------------------------

#[verifier::external_type_specification]
#[verifier::external_body]
#[verifier::reject_recursive_types(K)]
#[verifier::reject_recursive_types(V)]
#[verifier::reject_recursive_types(S)]
pub struct ExDashMap<K, V, S>(DashMap<K, V, S>);

/// The accounts a `DashMap` of account states holds, each by its model.
pub uninterp spec fn dash_accounts(m: DashMap<AccountId, AccountState>) -> Map<AccountId, AccountModel>;

/// `DashMap::new`: a map with no entry.
#[verifier::external_body]
fn dash_new() -> (m: DashMap<AccountId, AccountState>)
    ensures
        dash_accounts(m).dom().is_empty(),
{
    DashMap::new()
}

/// `DashMap::insert`: the key now maps to the value (any previous value is dropped).
#[verifier::external_body]
fn dash_insert(m: &mut DashMap<AccountId, AccountState>, k: AccountId, v: AccountState)
    ensures
        dash_accounts(*final(m)) == dash_accounts(*old(m)).insert(k, v@),
{
    m.insert(k, v);
}

/// `DashMap::get`: a copy of the value under the key, if any.
#[verifier::external_body]
fn dash_get(m: &DashMap<AccountId, AccountState>, k: AccountId) -> (r: Option<AccountState>)
    ensures
        match r {
            Some(s) => dash_accounts(*m).contains_key(k) && s@ == dash_accounts(*m)[k],
            None => !dash_accounts(*m).contains_key(k),
        },
{
    m.get(&k).map(|e| e.value().clone())
}

/// `DashMap::iter`: every entry once, as a key and a copy of its value, in no set order.
#[verifier::external_body]
fn dash_entries(m: &DashMap<AccountId, AccountState>) -> (r: Vec<(AccountId, AccountState)>)
    ensures
        r@.len() == dash_accounts(*m).dom().len(),
        forall|i: int| 0 <= i < r@.len() ==> dash_accounts(*m).contains_key(#[trigger] r@[i].0) && r@[i].1@
            == dash_accounts(*m)[r@[i].0],
        forall|i: int, j: int| 0 <= i < j < r@.len() ==> r@[i].0 != r@[j].0,
        forall|k: AccountId| dash_accounts(*m).contains_key(k) ==> exists|i: int| 0 <= i < r@.len() && #[trigger] r@[i].0 == k,
{
    m.iter().map(|e| (*e.key(), e.value().clone())).collect()
}

// ------------------------------------------------------------------
// Risk checks and reservations, on the model.
// ------------------------------------------------------------------

pub open spec fn in_i64(x: int) -> bool {
    i64::MIN <= x <= i64::MAX
}

pub open spec fn abs(x: int) -> int {
    if x < 0 {
        -x
    } else {
        x
    }
}

/// The check of a new order against account `a`: the amount to reserve, or the
/// violation; `None` where the arithmetic of the check would overflow `i64`.
pub open spec fn order_check(a: AccountModel, o: NewOrder) -> Option<Result<i64, RiskViolation>> {
    let l = limits_for(a, o.symbol_id);
    let net = position_for(a, o.symbol_id).net_position as int;
    let np = match o.side {
        Side::Buy => net + o.qty,
        Side::Sell => net - o.qty,
    };
    let required = match o.side {
        Side::Buy => o.price * o.qty,
        Side::Sell => 0,
    };
    let available = a.buying_power - a.tentative_reserved;
    if !in_i64(abs(o.qty as int)) {
        None
    } else if abs(o.qty as int) > l.max_order_size {
        Some(Err(RiskViolation::OrderSizeTooLarge))
    } else if !in_i64(np) {
        None
    } else if np > l.max_long_position {
        Some(Err(RiskViolation::PositionLimitExceeded))
    } else if !in_i64(-l.max_short_position) {
        None
    } else if np < -l.max_short_position {
        Some(Err(RiskViolation::PositionLimitExceeded))
    } else if !in_i64(required) || !in_i64(available) {
        None
    } else if required > available {
        Some(Err(RiskViolation::InsufficientFunds))
    } else if !in_i64(a.tentative_reserved + required) {
        None
    } else {
        Some(Ok(required as i64))
    }
}

/// The check of a replace on its own (worst case: a buy of the new size at the
/// new price, on top of what is reserved).
pub open spec fn replace_check(a: AccountModel, r: Replace) -> Option<Result<i64, RiskViolation>> {
    let l = limits_for(a, r.symbol_id);
    let amount = r.new_price * r.new_qty;
    let available = a.buying_power - a.tentative_reserved;
    if !in_i64(abs(r.new_qty as int)) {
        None
    } else if abs(r.new_qty as int) > l.max_order_size {
        Some(Err(RiskViolation::OrderSizeTooLarge))
    } else if !in_i64(amount) || !in_i64(available) {
        None
    } else if amount > available {
        Some(Err(RiskViolation::InsufficientFunds))
    } else if !in_i64(a.tentative_reserved + amount) {
        None
    } else {
        Some(Ok(amount as i64))
    }
}

/// The check of a replace whose old reservation `old_amount` is released as
/// the new one is taken.
pub open spec fn adjust_check(a: AccountModel, old_amount: i64, r: Replace) -> Option<Result<i64, RiskViolation>> {
    let l = limits_for(a, r.symbol_id);
    let amount = r.new_price * r.new_qty;
    let available = a.buying_power - a.tentative_reserved + old_amount;
    if !in_i64(abs(r.new_qty as int)) {
        None
    } else if abs(r.new_qty as int) > l.max_order_size {
        Some(Err(RiskViolation::OrderSizeTooLarge))
    } else if !in_i64(amount) || !in_i64(a.buying_power - a.tentative_reserved) || !in_i64(available) {
        None
    } else if amount > available {
        Some(Err(RiskViolation::InsufficientFunds))
    } else if !in_i64(a.tentative_reserved - old_amount) || !in_i64(a.tentative_reserved - old_amount + amount) {
        None
    } else {
        Some(Ok(amount as i64))
    }
}

/// The account of a command (zero for authentication).
pub open spec fn command_account(cmd: Command) -> AccountId {
    match crate::protocol::spec_command_account_id(cmd) {
        Some(a) => a,
        None => 0,
    }
}

/// The symbol of a command (zero for authentication).
pub open spec fn command_symbol(cmd: Command) -> SymbolId {
    match crate::protocol::spec_command_symbol_id(cmd) {
        Some(s) => s,
        None => 0,
    }
}

/// The result of `check_and_reserve(cmd)` on accounts `m` (`None` on overflow),
/// with the accounts after it.
pub open spec fn reserve_result(m: Map<AccountId, AccountModel>, cmd: Command) -> Option<
    (Result<ReservationToken, RiskViolation>, Map<AccountId, AccountModel>),
> {
    match cmd {
        Command::NewOrder(o) => {
            if !m.contains_key(o.account_id) {
                Some((Err(RiskViolation::AccountNotFound), m))
            } else {
                let a = m[o.account_id];
                match order_check(a, o) {
                    None => None,
                    Some(Err(v)) => Some((Err(v), m)),
                    Some(Ok(amt)) => Some(
                        (
                            Ok(
                                ReservationToken {
                                    account_id: o.account_id,
                                    symbol_id: o.symbol_id,
                                    amount: amt,
                                    order_id: o.order_id,
                                },
                            ),
                            m.insert(
                                o.account_id,
                                AccountModel { tentative_reserved: (a.tentative_reserved + amt) as i64, ..a },
                            ),
                        ),
                    ),
                }
            }
        },
        Command::Replace(r) => {
            if !m.contains_key(r.account_id) {
                Some((Err(RiskViolation::AccountNotFound), m))
            } else {
                let a = m[r.account_id];
                match replace_check(a, r) {
                    None => None,
                    Some(Err(v)) => Some((Err(v), m)),
                    Some(Ok(amt)) => Some(
                        (
                            Ok(
                                ReservationToken {
                                    account_id: r.account_id,
                                    symbol_id: r.symbol_id,
                                    amount: amt,
                                    order_id: r.order_id,
                                },
                            ),
                            m.insert(
                                r.account_id,
                                AccountModel { tentative_reserved: (a.tentative_reserved + amt) as i64, ..a },
                            ),
                        ),
                    ),
                }
            }
        },
        _ => Some(
            (
                Ok(
                    ReservationToken {
                        account_id: command_account(cmd),
                        symbol_id: command_symbol(cmd),
                        amount: 0,
                        order_id: 0,
                    },
                ),
                m,
            ),
        ),
    }
}

/// The accounts after releasing `t` (`None` on overflow); an unknown account is left alone.
pub open spec fn release_result(m: Map<AccountId, AccountModel>, t: ReservationToken) -> Option<
    Map<AccountId, AccountModel>,
> {
    if !m.contains_key(t.account_id) {
        Some(m)
    } else {
        let a = m[t.account_id];
        if in_i64(a.tentative_reserved - t.amount) {
            Some(
                m.insert(
                    t.account_id,
                    AccountModel { tentative_reserved: (a.tentative_reserved - t.amount) as i64, ..a },
                ),
            )
        } else {
            None
        }
    }
}

/// The account after a fill of `qty` at `price` in symbol `s` that settles the
/// reservation `amount` (`None` on overflow): the reservation is released, the
/// fill's notional leaves (buy) or joins (sell) the buying power, the position
/// moves by the quantity and takes the fill price unless it is flat.
pub open spec fn fill_account(a: AccountModel, amount: i64, s: SymbolId, price: i64, qty: i64, is_buy: bool) -> Option<
    AccountModel,
> {
    let reserved = a.tentative_reserved - amount;
    let cost = price * qty;
    let bp = if is_buy {
        a.buying_power - cost
    } else {
        a.buying_power + cost
    };
    let p = position_for(a, s);
    let net = if is_buy {
        p.net_position + qty
    } else {
        p.net_position - qty
    };
    if in_i64(reserved) && in_i64(cost) && in_i64(bp) && in_i64(net) {
        Some(
            AccountModel {
                tentative_reserved: reserved as i64,
                buying_power: bp as i64,
                positions: a.positions.insert(
                    s,
                    Position {
                        net_position: net as i64,
                        avg_price: if net != 0 {
                            price
                        } else {
                            p.avg_price
                        },
                        realized_pnl: p.realized_pnl,
                    },
                ),
                ..a
            },
        )
    } else {
        None
    }
}

/// The accounts after `apply_fill(ev, t, is_buy)` (`None` on overflow): only a
/// fill of a known account changes anything.
pub open spec fn fill_result(m: Map<AccountId, AccountModel>, ev: Event, t: ReservationToken, is_buy: bool) -> Option<
    Map<AccountId, AccountModel>,
> {
    match ev {
        Event::Fill(f) => {
            if m.contains_key(t.account_id) {
                match fill_account(m[t.account_id], t.amount, f.symbol_id, f.price, f.qty, is_buy) {
                    Some(a) => Some(m.insert(t.account_id, a)),
                    None => None,
                }
            } else {
                Some(m)
            }
        },
        _ => Some(m),
    }
}

/// The accounts a snapshot restores.
pub open spec fn snapshot_accounts(accs: Seq<AccountStateSnapshot>) -> Map<AccountId, AccountModel>
    decreases accs.len(),
{
    if accs.len() == 0 {
        Map::empty()
    } else {
        let last = accs.last();
        snapshot_accounts(accs.drop_last()).insert(
            last.account_id,
            AccountModel {
                account_id: last.account_id,
                buying_power: last.buying_power,
                tentative_reserved: 0,
                positions: pairs_map(last.positions@),
                risk_limits: pairs_map(last.risk_limits@),
            },
        )
    }
}

/// The map a list of pairs builds, a later pair overriding an earlier one.
pub open spec fn pairs_map<V>(ps: Seq<(SymbolId, V)>) -> Map<SymbolId, V>
    decreases ps.len(),
{
    if ps.len() == 0 {
        Map::empty()
    } else {
        pairs_map(ps.drop_last()).insert(ps.last().0, ps.last().1)
    }
}

/// An account as a snapshot holds it: id, buying power, positions and limits.
pub open spec fn snapshot_entry(e: AccountStateSnapshot, a: AccountModel) -> bool {
    &&& e.account_id == a.account_id
    &&& e.buying_power == a.buying_power
    &&& pairs_map(e.positions@) == a.positions
    &&& pairs_map(e.risk_limits@) == a.risk_limits
}

/// `accs` lists every account of `m` once.
pub open spec fn is_snapshot_of(m: Map<AccountId, AccountModel>, accs: Seq<AccountStateSnapshot>) -> bool {
    &&& forall|j: int, l: int| 0 <= j < l < accs.len() ==> accs[j].account_id != accs[l].account_id
    &&& forall|k: AccountId| m.contains_key(k) ==> exists|j: int| 0 <= j < accs.len() && #[trigger] accs[j].account_id == k
    &&& forall|j: int| 0 <= j < accs.len() ==> m.contains_key(#[trigger] accs[j].account_id) && snapshot_entry(
        accs[j],
        m[accs[j].account_id],
    )
}

/// The accounts of `m` with nothing reserved.
pub open spec fn without_reservations(m: Map<AccountId, AccountModel>) -> Map<AccountId, AccountModel> {
    Map::new(|k: AccountId| m.contains_key(k), |k: AccountId| AccountModel { tentative_reserved: 0, ..m[k] })
}

proof fn lemma_snapshot_accounts_entries(accs: Seq<AccountStateSnapshot>)
    requires
        forall|j: int, l: int| 0 <= j < l < accs.len() ==> accs[j].account_id != accs[l].account_id,
    ensures
        forall|k: AccountId| snapshot_accounts(accs).contains_key(k) <==> exists|j: int| 0 <= j < accs.len() && #[trigger] accs[j].account_id == k,
        forall|j: int| 0 <= j < accs.len() ==> snapshot_accounts(accs)[#[trigger] accs[j].account_id] == (AccountModel {
            account_id: accs[j].account_id,
            buying_power: accs[j].buying_power,
            tentative_reserved: 0,
            positions: pairs_map(accs[j].positions@),
            risk_limits: pairs_map(accs[j].risk_limits@),
        }),
    decreases accs.len(),
{
    if accs.len() > 0 {
        let init = accs.drop_last();
        assert forall|j: int, l: int| 0 <= j < l < init.len() implies init[j].account_id != init[l].account_id by {
            assert(init[j] == accs[j] && init[l] == accs[l]);
        }
        lemma_snapshot_accounts_entries(init);
        let last = accs.last();
        assert(snapshot_accounts(accs) == snapshot_accounts(init).insert(
            last.account_id,
            AccountModel {
                account_id: last.account_id,
                buying_power: last.buying_power,
                tentative_reserved: 0,
                positions: pairs_map(last.positions@),
                risk_limits: pairs_map(last.risk_limits@),
            },
        ));
        assert forall|k: AccountId| snapshot_accounts(accs).contains_key(k) implies exists|j: int| 0 <= j < accs.len() && #[trigger] accs[j].account_id == k by {
            if k != accs.last().account_id {
                let j = choose|j: int| 0 <= j < init.len() && #[trigger] init[j].account_id == k;
                assert(accs[j] == init[j]);
            } else {
                assert(accs[accs.len() - 1].account_id == k);
            }
        }
        assert forall|k: AccountId| (exists|j: int| 0 <= j < accs.len() && #[trigger] accs[j].account_id == k) implies snapshot_accounts(accs).contains_key(k) by {
            let j = choose|j: int| 0 <= j < accs.len() && #[trigger] accs[j].account_id == k;
            if j < accs.len() - 1 {
                assert(init[j] == accs[j]);
            }
        }
        assert forall|j: int| 0 <= j < accs.len() implies snapshot_accounts(accs)[#[trigger] accs[j].account_id] == (AccountModel {
            account_id: accs[j].account_id,
            buying_power: accs[j].buying_power,
            tentative_reserved: 0,
            positions: pairs_map(accs[j].positions@),
            risk_limits: pairs_map(accs[j].risk_limits@),
        }) by {
            if j < accs.len() - 1 {
                assert(init[j] == accs[j]);
            }
        }
    }
}

/// A snapshot of the accounts restores them as they were, without their
/// reservations (reservations belong to orders the engines will report again).
pub proof fn lemma_snapshot_restores_accounts(m: Map<AccountId, AccountModel>, accs: Seq<AccountStateSnapshot>)
    requires
        ids_match(m),
        is_snapshot_of(m, accs),
    ensures
        snapshot_accounts(accs) == without_reservations(m),
{
    lemma_snapshot_accounts_entries(accs);
    assert forall|k: AccountId| #[trigger] snapshot_accounts(accs).contains_key(k) == m.contains_key(k) by {
        if m.contains_key(k) {
            let j = choose|j: int| 0 <= j < accs.len() && #[trigger] accs[j].account_id == k;
        }
        if snapshot_accounts(accs).contains_key(k) {
            let j = choose|j: int| 0 <= j < accs.len() && #[trigger] accs[j].account_id == k;
        }
    }
    assert forall|k: AccountId| m.contains_key(k) implies #[trigger] snapshot_accounts(accs)[k] == without_reservations(m)[k] by {
        let j = choose|j: int| 0 <= j < accs.len() && #[trigger] accs[j].account_id == k;
        assert(snapshot_entry(accs[j], m[k]));
    }
    assert(snapshot_accounts(accs) =~= without_reservations(m));
}

/// The accounts a journal of updates recreates on top of `m`.
pub open spec fn replay_updates(m: Map<AccountId, AccountModel>, us: Seq<AccountUpdate>) -> Map<AccountId, AccountModel>
    decreases us.len(),
{
    if us.len() == 0 {
        m
    } else {
        match us.last() {
            AccountUpdate::CreateAccount { account_id, buying_power } => replay_updates(m, us.drop_last()).insert(
                account_id,
                new_account(account_id, buying_power),
            ),
        }
    }
}

/// Releasing the reservation just taken for a new order or a replace gives
/// the accounts back as they were.
pub proof fn lemma_reserve_then_release(m: Map<AccountId, AccountModel>, cmd: Command)
    requires
        reserve_result(m, cmd) matches Some((Ok(_), _)),
    ensures
        release_result(reserve_result(m, cmd).unwrap().1, reserve_result(m, cmd).unwrap().0.unwrap())
            == Some(m),
{
    let (r, m2) = reserve_result(m, cmd).unwrap();
    let t = r.unwrap();
    match cmd {
        Command::NewOrder(o) => {
            if m.contains_key(o.account_id) {
                assert(m2[t.account_id].tentative_reserved - t.amount == m[t.account_id].tentative_reserved);
                assert(m2.insert(t.account_id, AccountModel { tentative_reserved: m[t.account_id].tentative_reserved, ..m2[t.account_id] }) =~= m);
            }
        },
        Command::Replace(rp) => {
            if m.contains_key(rp.account_id) {
                assert(m2.insert(t.account_id, AccountModel { tentative_reserved: m[t.account_id].tentative_reserved, ..m2[t.account_id] }) =~= m);
            }
        },
        _ => {
            if m.contains_key(t.account_id) {
                assert(m.insert(t.account_id, AccountModel { tentative_reserved: m[t.account_id].tentative_reserved, ..m[t.account_id] }) =~= m);
            }
        },
    }
}

/// No double spend: a reservation is granted only while what the account has
/// reserved, this reservation included, stays within its buying power.
pub proof fn lemma_reserve_within_buying_power(m: Map<AccountId, AccountModel>, cmd: Command)
    requires
        reserve_result(m, cmd) matches Some((Ok(t), _)),
        cmd is NewOrder || cmd is Replace,
    ensures
        ({
            let (r, m2) = reserve_result(m, cmd).unwrap();
            let t = r.unwrap();
            &&& m2.contains_key(t.account_id)
            &&& m2[t.account_id].tentative_reserved <= m2[t.account_id].buying_power
            &&& m2[t.account_id].tentative_reserved == m[t.account_id].tentative_reserved + t.amount
        }),
{
}

/// Position limits of a new order: it is approved only if the position it
/// would leave when filled entirely (current net plus the quantity for a buy,
/// minus it for a sell) lies within the account's short and long limits for
/// the symbol; an order within the size limit whose resulting position lies
/// outside them is refused with `PositionLimitExceeded`, and nothing changes.
pub proof fn lemma_new_order_position_limits(m: Map<AccountId, AccountModel>, o: NewOrder)
    requires
        m.contains_key(o.account_id),
    ensures
        ({
            let a = m[o.account_id];
            let l = limits_for(a, o.symbol_id);
            let net = position_for(a, o.symbol_id).net_position as int;
            let after = match o.side {
                Side::Buy => net + o.qty,
                Side::Sell => net - o.qty,
            };
            &&& reserve_result(m, Command::NewOrder(o)) matches Some((Ok(_), _)) ==> {
                &&& -l.max_short_position <= after <= l.max_long_position
                &&& abs(o.qty as int) <= l.max_order_size
            }
            &&& (in_i64(abs(o.qty as int)) && abs(o.qty as int) <= l.max_order_size && in_i64(after) && in_i64(
                -l.max_short_position,
            ) && (after > l.max_long_position || after < -l.max_short_position)) ==> reserve_result(
                m,
                Command::NewOrder(o),
            ) == Some((Err::<ReservationToken, RiskViolation>(RiskViolation::PositionLimitExceeded), m))
        }),
{
}

/// Order size of a replace: a replace is approved (checked on its own, or
/// while adjusting an earlier reservation) only if the absolute new quantity
/// is within the account's largest order size for the symbol; a larger one is
/// refused with `OrderSizeTooLarge`, and nothing changes.
pub proof fn lemma_replace_order_size(m: Map<AccountId, AccountModel>, r: Replace, old_amount: i64)
    requires
        m.contains_key(r.account_id),
    ensures
        ({
            let a = m[r.account_id];
            let l = limits_for(a, r.symbol_id);
            let size = abs(r.new_qty as int);
            &&& reserve_result(m, Command::Replace(r)) matches Some((Ok(_), _)) ==> size <= l.max_order_size
            &&& adjust_check(a, old_amount, r) matches Some(Ok(_)) ==> size <= l.max_order_size
            &&& (in_i64(size) && size > l.max_order_size) ==> {
                &&& reserve_result(m, Command::Replace(r)) == Some(
                    (Err::<ReservationToken, RiskViolation>(RiskViolation::OrderSizeTooLarge), m),
                )
                &&& adjust_check(a, old_amount, r) == Some(Err::<i64, RiskViolation>(RiskViolation::OrderSizeTooLarge))
            }
        }),
{
}

/// What an approved new order reserves, and the other refusals: an approved
/// order reserves its full notional (price times quantity) on a buy and
/// nothing on a sell, adds that to what its account has reserved and changes
/// nothing else; an order of an unknown account is refused with
/// `AccountNotFound`, one larger than the size limit with `OrderSizeTooLarge`,
/// and one within the limits whose notional exceeds what the account has
/// available with `InsufficientFunds`.
pub proof fn lemma_new_order_reservation(m: Map<AccountId, AccountModel>, o: NewOrder)
    ensures
        !m.contains_key(o.account_id) ==> reserve_result(m, Command::NewOrder(o)) == Some(
            (Err::<ReservationToken, RiskViolation>(RiskViolation::AccountNotFound), m),
        ),
        m.contains_key(o.account_id) ==> ({
            let a = m[o.account_id];
            let l = limits_for(a, o.symbol_id);
            let net = position_for(a, o.symbol_id).net_position as int;
            let after = match o.side {
                Side::Buy => net + o.qty,
                Side::Sell => net - o.qty,
            };
            let required = match o.side {
                Side::Buy => o.price * o.qty,
                Side::Sell => 0,
            };
            let available = a.buying_power - a.tentative_reserved;
            &&& reserve_result(m, Command::NewOrder(o)) matches Some((Ok(t), m2)) ==> {
                &&& t.amount == required
                &&& t.account_id == o.account_id
                &&& t.symbol_id == o.symbol_id
                &&& t.order_id == o.order_id
                &&& m2 == m.insert(o.account_id, AccountModel { tentative_reserved: (a.tentative_reserved + required) as i64, ..a })
                &&& a.tentative_reserved + required <= a.buying_power
            }
            &&& (in_i64(abs(o.qty as int)) && abs(o.qty as int) > l.max_order_size) ==> reserve_result(
                m,
                Command::NewOrder(o),
            ) == Some((Err::<ReservationToken, RiskViolation>(RiskViolation::OrderSizeTooLarge), m))
            &&& (in_i64(abs(o.qty as int)) && abs(o.qty as int) <= l.max_order_size && in_i64(after) && in_i64(
                -l.max_short_position,
            ) && -l.max_short_position <= after <= l.max_long_position && in_i64(required) && in_i64(available)
                && required > available) ==> reserve_result(m, Command::NewOrder(o)) == Some(
                (Err::<ReservationToken, RiskViolation>(RiskViolation::InsufficientFunds), m),
            )
        }),
{
}

/// What an approved replace reserves: the new price times the new quantity
/// (a buy being the worst case), added to what the account has reserved; a
/// replace within the size limit whose amount exceeds what the account has
/// available is refused with `InsufficientFunds`.
pub proof fn lemma_replace_reservation(m: Map<AccountId, AccountModel>, r: Replace)
    requires
        m.contains_key(r.account_id),
    ensures
        ({
            let a = m[r.account_id];
            let l = limits_for(a, r.symbol_id);
            let amount = r.new_price * r.new_qty;
            let available = a.buying_power - a.tentative_reserved;
            &&& reserve_result(m, Command::Replace(r)) matches Some((Ok(t), m2)) ==> {
                &&& t.amount == amount
                &&& t.account_id == r.account_id
                &&& t.order_id == r.order_id
                &&& m2 == m.insert(r.account_id, AccountModel { tentative_reserved: (a.tentative_reserved + amount) as i64, ..a })
            }
            &&& (in_i64(abs(r.new_qty as int)) && abs(r.new_qty as int) <= l.max_order_size && in_i64(amount)
                && in_i64(available) && amount > available) ==> reserve_result(m, Command::Replace(r)) == Some(
                (Err::<ReservationToken, RiskViolation>(RiskViolation::InsufficientFunds), m),
            )
        }),
{
}

/// Settling a fill on an account: the reservation it settles is released, the
/// fill's notional leaves the buying power on a buy and joins it on a sell,
/// the position moves by the quantity (up on a buy, down on a sell) and, unless
/// it ends flat, takes the fill price as its entry price, on a sell as on a
/// buy; realized P&L, other symbols and other accounts stay as they were. It
/// succeeds whenever these values fit an `i64`.
pub proof fn lemma_fill_settles(m: Map<AccountId, AccountModel>, f: Fill, t: ReservationToken, is_buy: bool)
    requires
        m.contains_key(t.account_id),
    ensures
        ({
            let a = m[t.account_id];
            let p = position_for(a, f.symbol_id);
            let cost = f.price * f.qty;
            let net = if is_buy {
                p.net_position + f.qty
            } else {
                p.net_position - f.qty
            };
            let bp = if is_buy {
                a.buying_power - cost
            } else {
                a.buying_power + cost
            };
            &&& fill_result(m, Event::Fill(f), t, is_buy) matches Some(m2) ==> {
                let a2 = m2[t.account_id];
                let p2 = position_for(a2, f.symbol_id);
                &&& m2.dom() == m.dom()
                &&& forall|id: AccountId| id != t.account_id && #[trigger] m.contains_key(id) ==> m2[id] == m[id]
                &&& p2.net_position == net
                &&& p2.net_position != 0 ==> p2.avg_price == f.price
                &&& p2.net_position == 0 ==> p2.avg_price == p.avg_price
                &&& p2.realized_pnl == p.realized_pnl
                &&& a2.buying_power == bp
                &&& a2.tentative_reserved == a.tentative_reserved - t.amount
                &&& a2.account_id == a.account_id
                &&& a2.risk_limits == a.risk_limits
                &&& forall|s: SymbolId| s != f.symbol_id ==> #[trigger] position_for(a2, s) == position_for(a, s)
            }
            &&& (in_i64(a.tentative_reserved - t.amount) && in_i64(cost) && in_i64(bp) && in_i64(net))
                ==> fill_result(m, Event::Fill(f), t, is_buy) is Some
        }),
{
    match fill_result(m, Event::Fill(f), t, is_buy) {
        Some(m2) => {
            assert(m2.dom() =~= m.dom());
        },
        None => {},
    }
}

/// A sell order reserves no buying power.
pub proof fn lemma_sell_reserves_nothing(m: Map<AccountId, AccountModel>, o: NewOrder)
    requires
        o.side == Side::Sell,
        reserve_result(m, Command::NewOrder(o)) matches Some((Ok(t), _)),
    ensures
        reserve_result(m, Command::NewOrder(o)).unwrap().0.unwrap().amount == 0,
        reserve_result(m, Command::NewOrder(o)).unwrap().1 == m,
{
    let a = m[o.account_id];
    assert(m.insert(o.account_id, AccountModel { tentative_reserved: (a.tentative_reserved + 0) as i64, ..a }) =~= m);
}

// ------------------------------------------------------------------
// The manager.
// ------------------------------------------------------------------

/// All accounts of the gateway.
pub struct AccountManager {
    accounts: DashMap<AccountId, AccountState>,
    next_gateway_seq: u64,
}

/// Abstract state of the manager.
pub struct AccountsModel {
    pub accounts: Map<AccountId, AccountModel>,
    /// The next gateway sequence number handed out.
    pub next_seq: u64,
}

/// Every account is stored under its own id.
pub open spec fn ids_match(m: Map<AccountId, AccountModel>) -> bool {
    forall|k: AccountId| #[trigger] m.contains_key(k) ==> m[k].account_id == k
}

impl View for AccountManager {
    type V = AccountsModel;

    closed spec fn view(&self) -> AccountsModel {
        AccountsModel { accounts: dash_accounts(self.accounts), next_seq: self.next_gateway_seq }
    }
}

fn fits(x: i128) -> (r: bool)
    ensures
        r == in_i64(x as int),
{
    x >= i64::MIN as i128 && x <= i64::MAX as i128
}

proof fn lemma_mul_bounds(x: i64, y: i64)
    ensures
        -0x4000_0000_0000_0000_0000_0000_0000_0000 <= x * y <= 0x4000_0000_0000_0000_0000_0000_0000_0000,
{
    assert(-0x4000_0000_0000_0000_0000_0000_0000_0000 <= x * y <= 0x4000_0000_0000_0000_0000_0000_0000_0000)
        by (nonlinear_arith)
        requires
            -0x8000_0000_0000_0000 <= x <= 0x7fff_ffff_ffff_ffff,
            -0x8000_0000_0000_0000 <= y <= 0x7fff_ffff_ffff_ffff,
    ;
}

/// The check of a new order, as `order_check` says.
fn check_order(a: &AccountState, o: &NewOrder) -> (r: Option<Result<i64, RiskViolation>>)
    ensures
        r == order_check(a@, *o),
{
    let l = a.get_risk_limits(o.symbol_id);
    let q = o.qty as i128;
    let aq = if q < 0 {
        -q
    } else {
        q
    };
    if !fits(aq) {
        return None;
    }
    if aq > l.max_order_size as i128 {
        return Some(Err(RiskViolation::OrderSizeTooLarge));
    }
    let net = a.get_position(o.symbol_id).net_position as i128;
    let np = match o.side {
        Side::Buy => net + q,
        Side::Sell => net - q,
    };
    if !fits(np) {
        return None;
    }
    if np > l.max_long_position as i128 {
        return Some(Err(RiskViolation::PositionLimitExceeded));
    }
    let ms = -(l.max_short_position as i128);
    if !fits(ms) {
        return None;
    }
    if np < ms {
        return Some(Err(RiskViolation::PositionLimitExceeded));
    }
    proof {
        lemma_mul_bounds(o.price, o.qty);
    }
    let required: i128 = match o.side {
        Side::Buy => o.price as i128 * q,
        Side::Sell => 0,
    };
    let available = a.buying_power as i128 - a.tentative_reserved as i128;
    if !fits(required) || !fits(available) {
        return None;
    }
    if required > available {
        return Some(Err(RiskViolation::InsufficientFunds));
    }
    if !fits(a.tentative_reserved as i128 + required) {
        return None;
    }
    Some(Ok(required as i64))
}

/// The check of a replace on its own, as `replace_check` says.
fn check_replace(a: &AccountState, r: &Replace) -> (res: Option<Result<i64, RiskViolation>>)
    ensures
        res == replace_check(a@, *r),
{
    let l = a.get_risk_limits(r.symbol_id);
    let q = r.new_qty as i128;
    let aq = if q < 0 {
        -q
    } else {
        q
    };
    if !fits(aq) {
        return None;
    }
    if aq > l.max_order_size as i128 {
        return Some(Err(RiskViolation::OrderSizeTooLarge));
    }
    proof {
        lemma_mul_bounds(r.new_price, r.new_qty);
    }
    let amount = r.new_price as i128 * q;
    let available = a.buying_power as i128 - a.tentative_reserved as i128;
    if !fits(amount) || !fits(available) {
        return None;
    }
    if amount > available {
        return Some(Err(RiskViolation::InsufficientFunds));
    }
    if !fits(a.tentative_reserved as i128 + amount) {
        return None;
    }
    Some(Ok(amount as i64))
}

/// The check of a replace that releases `old_amount`, as `adjust_check` says.
fn check_adjust(a: &AccountState, old_amount: i64, r: &Replace) -> (res: Option<Result<i64, RiskViolation>>)
    ensures
        res == adjust_check(a@, old_amount, *r),
{
    let l = a.get_risk_limits(r.symbol_id);
    let q = r.new_qty as i128;
    let aq = if q < 0 {
        -q
    } else {
        q
    };
    if !fits(aq) {
        return None;
    }
    if aq > l.max_order_size as i128 {
        return Some(Err(RiskViolation::OrderSizeTooLarge));
    }
    proof {
        lemma_mul_bounds(r.new_price, r.new_qty);
    }
    let amount = r.new_price as i128 * q;
    let free = a.buying_power as i128 - a.tentative_reserved as i128;
    if !fits(amount) || !fits(free) || !fits(free + old_amount as i128) {
        return None;
    }
    let available = free + old_amount as i128;
    if amount > available {
        return Some(Err(RiskViolation::InsufficientFunds));
    }
    let released = a.tentative_reserved as i128 - old_amount as i128;
    if !fits(released) || !fits(released + amount) {
        return None;
    }
    Some(Ok(amount as i64))
}

impl AccountManager {
    /// A manager with no account; the first gateway sequence number is 1.
    pub fn new() -> (m: Self)
        ensures
            m@.accounts.dom().is_empty(),
            m@.next_seq == 1,
            ids_match(m@.accounts),
    {
        AccountManager { accounts: dash_new(), next_gateway_seq: 1 }
    }

    /// Creates (or re-creates) an account with its buying power; the update to
    /// journal is returned.
    pub fn create_account(&mut self, account_id: AccountId, buying_power: i64) -> (u: AccountUpdate)
        requires
            ids_match(old(self)@.accounts),
        ensures
            ids_match(final(self)@.accounts),
            final(self)@.accounts == old(self)@.accounts.insert(account_id, new_account(account_id, buying_power)),
            final(self)@.next_seq == old(self)@.next_seq,
            u == (AccountUpdate::CreateAccount { account_id, buying_power }),
    {
        dash_insert(&mut self.accounts, account_id, AccountState::new(account_id, buying_power));
        AccountUpdate::CreateAccount { account_id, buying_power }
    }

    /// The next gateway sequence number (numbers wrap around after the largest).
    pub fn next_seq(&mut self) -> (s: u64)
        ensures
            s == old(self)@.next_seq,
            final(self)@.next_seq == old(self)@.next_seq.wrapping_add(1),
            final(self)@.accounts == old(self)@.accounts,
    {
        let s = self.next_gateway_seq;
        self.next_gateway_seq = self.next_gateway_seq.wrapping_add(1);
        s
    }

    /// Whether `check_and_reserve(cmd)` can run without overflowing `i64`.
    pub fn can_reserve(&self, cmd: &Command) -> (r: bool)
        ensures
            r == reserve_result(self@.accounts, *cmd) is Some,
    {
        match cmd {
            Command::NewOrder(o) => match dash_get(&self.accounts, o.account_id) {
                None => true,
                Some(a) => check_order(&a, o).is_some(),
            },
            Command::Replace(r) => match dash_get(&self.accounts, r.account_id) {
                None => true,
                Some(a) => check_replace(&a, r).is_some(),
            },
            _ => true,
        }
    }

    /// Checks a command against its account's limits and funds and reserves the
    /// buying power a buy needs. A new order: size, resulting position, then
    /// funds; a replace: size, then the funds of a buy at its new price and size.
    /// Other commands need no reservation (an empty token).
    pub fn check_and_reserve(&mut self, cmd: &Command) -> (r: Result<ReservationToken, RiskViolation>)
        requires
            ids_match(old(self)@.accounts),
            reserve_result(old(self)@.accounts, *cmd) is Some,
        ensures
            ids_match(final(self)@.accounts),
            (r, final(self)@.accounts) == reserve_result(old(self)@.accounts, *cmd).unwrap(),
            final(self)@.next_seq == old(self)@.next_seq,
    {
        match cmd {
            Command::NewOrder(o) => self.check_and_reserve_order(o),
            Command::Replace(r) => self.check_and_reserve_replace(r),
            _ => {
                let account_id = match crate::protocol::command_account_id(cmd) {
                    Some(a) => a,
                    None => 0,
                };
                let symbol_id = match crate::protocol::command_symbol_id(cmd) {
                    Some(s) => s,
                    None => 0,
                };
                Ok(ReservationToken { account_id, symbol_id, amount: 0, order_id: 0 })
            },
        }
    }

    fn check_and_reserve_order(&mut self, o: &NewOrder) -> (r: Result<ReservationToken, RiskViolation>)
        requires
            ids_match(old(self)@.accounts),
            reserve_result(old(self)@.accounts, Command::NewOrder(*o)) is Some,
        ensures
            ids_match(final(self)@.accounts),
            (r, final(self)@.accounts) == reserve_result(old(self)@.accounts, Command::NewOrder(*o)).unwrap(),
            final(self)@.next_seq == old(self)@.next_seq,
    {
        let mut state = match dash_get(&self.accounts, o.account_id) {
            Some(s) => s,
            None => return Err(RiskViolation::AccountNotFound),
        };
        match check_order(&state, o) {
            Some(Ok(required)) => {
                state.tentative_reserved = state.tentative_reserved + required;
                dash_insert(&mut self.accounts, o.account_id, state);
                Ok(ReservationToken { account_id: o.account_id, symbol_id: o.symbol_id, amount: required, order_id: o.order_id })
            },
            Some(Err(v)) => Err(v),
            None => Err(RiskViolation::InsufficientFunds),
        }
    }

    fn check_and_reserve_replace(&mut self, r: &Replace) -> (res: Result<ReservationToken, RiskViolation>)
        requires
            ids_match(old(self)@.accounts),
            reserve_result(old(self)@.accounts, Command::Replace(*r)) is Some,
        ensures
            ids_match(final(self)@.accounts),
            (res, final(self)@.accounts) == reserve_result(old(self)@.accounts, Command::Replace(*r)).unwrap(),
            final(self)@.next_seq == old(self)@.next_seq,
    {
        let mut state = match dash_get(&self.accounts, r.account_id) {
            Some(s) => s,
            None => return Err(RiskViolation::AccountNotFound),
        };
        match check_replace(&state, r) {
            Some(Ok(amount)) => {
                state.tentative_reserved = state.tentative_reserved + amount;
                dash_insert(&mut self.accounts, r.account_id, state);
                Ok(ReservationToken { account_id: r.account_id, symbol_id: r.symbol_id, amount, order_id: r.order_id })
            },
            Some(Err(v)) => Err(v),
            None => Err(RiskViolation::InsufficientFunds),
        }
    }

    /// Whether `apply_fill(ev, t, is_buy)` can run without overflowing `i64`.
    pub fn can_apply_fill(&self, event: &Event, token: &ReservationToken, is_buy: bool) -> (r: bool)
        ensures
            r == fill_result(self@.accounts, *event, *token, is_buy) is Some,
    {
        match event {
            Event::Fill(f) => match dash_get(&self.accounts, token.account_id) {
                Some(a) => settle_fill(&a, token.amount, f.symbol_id, f.price, f.qty, is_buy).is_some(),
                None => true,
            },
            _ => true,
        }
    }

    /// Settles a fill of the order `token` reserved for: releases the
    /// reservation and moves buying power and position (see `fill_account`).
    pub fn apply_fill(&mut self, event: &Event, token: &ReservationToken, is_buy: bool)
        requires
            ids_match(old(self)@.accounts),
            fill_result(old(self)@.accounts, *event, *token, is_buy) is Some,
        ensures
            ids_match(final(self)@.accounts),
            final(self)@.accounts == fill_result(old(self)@.accounts, *event, *token, is_buy).unwrap(),
            final(self)@.next_seq == old(self)@.next_seq,
    {
        if let Event::Fill(f) = event {
            if let Some(a) = dash_get(&self.accounts, token.account_id) {
                if let Some(s) = settle_fill(&a, token.amount, f.symbol_id, f.price, f.qty, is_buy) {
                    dash_insert(&mut self.accounts, token.account_id, s);
                }
            }
        }
    }

    /// Releases a reservation (order cancelled or rejected); an unknown account is left alone.
    pub fn release_reservation(&mut self, token: &ReservationToken)
        requires
            ids_match(old(self)@.accounts),
            release_result(old(self)@.accounts, *token) is Some,
        ensures
            ids_match(final(self)@.accounts),
            final(self)@.accounts == release_result(old(self)@.accounts, *token).unwrap(),
            final(self)@.next_seq == old(self)@.next_seq,
    {
        if let Some(mut a) = dash_get(&self.accounts, token.account_id) {
            a.tentative_reserved = a.tentative_reserved - token.amount;
            dash_insert(&mut self.accounts, token.account_id, a);
        }
    }

    /// Whether `release_reservation(t)` can run without overflowing `i64`.
    pub fn can_release(&self, token: &ReservationToken) -> (r: bool)
        ensures
            r == release_result(self@.accounts, *token) is Some,
    {
        match dash_get(&self.accounts, token.account_id) {
            Some(a) => fits(a.tentative_reserved as i128 - token.amount as i128),
            None => true,
        }
    }

    /// Whether `adjust_reservation(old, r)` can run without overflowing `i64`.
    pub fn can_adjust(&self, old_token: &ReservationToken, replace: &Replace) -> (r: bool)
        ensures
            r == (self@.accounts.contains_key(replace.account_id) ==> adjust_check(
                self@.accounts[replace.account_id],
                old_token.amount,
                *replace,
            ) is Some),
    {
        match dash_get(&self.accounts, replace.account_id) {
            Some(a) => check_adjust(&a, old_token.amount, replace).is_some(),
            None => true,
        }
    }

    /// A replace, atomically: releases the old reservation and takes the new
    /// one (a buy of the new size at the new price), or changes nothing.
    pub fn adjust_reservation(&mut self, old_token: &ReservationToken, replace: &Replace) -> (r: Result<
        ReservationToken,
        RiskViolation,
    >)
        requires
            ids_match(old(self)@.accounts),
            old(self)@.accounts.contains_key(replace.account_id) ==> adjust_check(
                old(self)@.accounts[replace.account_id],
                old_token.amount,
                *replace,
            ) is Some,
        ensures
            ids_match(final(self)@.accounts),
            final(self)@.next_seq == old(self)@.next_seq,
            !old(self)@.accounts.contains_key(replace.account_id) ==> r == Err::<ReservationToken, RiskViolation>(
                RiskViolation::AccountNotFound,
            ) && final(self)@.accounts == old(self)@.accounts,
            old(self)@.accounts.contains_key(replace.account_id) ==> {
                let a = old(self)@.accounts[replace.account_id];
                match adjust_check(a, old_token.amount, *replace).unwrap() {
                    Ok(amt) => r == Ok::<ReservationToken, RiskViolation>(
                        ReservationToken {
                            account_id: replace.account_id,
                            symbol_id: replace.symbol_id,
                            amount: amt,
                            order_id: replace.order_id,
                        },
                    ) && final(self)@.accounts == old(self)@.accounts.insert(
                        replace.account_id,
                        AccountModel {
                            tentative_reserved: (a.tentative_reserved - old_token.amount + amt) as i64,
                            ..a
                        },
                    ),
                    Err(v) => r == Err::<ReservationToken, RiskViolation>(v) && final(self)@.accounts == old(
                        self,
                    )@.accounts,
                }
            },
    {
        let mut state = match dash_get(&self.accounts, replace.account_id) {
            Some(s) => s,
            None => return Err(RiskViolation::AccountNotFound),
        };
        match check_adjust(&state, old_token.amount, replace) {
            Some(Ok(amount)) => {
                state.tentative_reserved = state.tentative_reserved - old_token.amount + amount;
                dash_insert(&mut self.accounts, replace.account_id, state);
                Ok(
                    ReservationToken {
                        account_id: replace.account_id,
                        symbol_id: replace.symbol_id,
                        amount,
                        order_id: replace.order_id,
                    },
                )
            },
            Some(Err(v)) => Err(v),
            None => Err(RiskViolation::InsufficientFunds),
        }
    }

    /// A copy of an account's state.
    pub fn get_account(&self, account_id: AccountId) -> (r: Option<AccountState>)
        ensures
            match r {
                Some(s) => self@.accounts.contains_key(account_id) && s@ == self@.accounts[account_id],
                None => !self@.accounts.contains_key(account_id),
            },
    {
        dash_get(&self.accounts, account_id)
    }

    /// Sets an account's reservation outright (reconciliation); an unknown account is left alone.
    pub fn set_tentative_reserved(&mut self, account_id: AccountId, amount: i64)
        requires
            ids_match(old(self)@.accounts),
        ensures
            ids_match(final(self)@.accounts),
            final(self)@.next_seq == old(self)@.next_seq,
            final(self)@.accounts == if old(self)@.accounts.contains_key(account_id) {
                old(self)@.accounts.insert(
                    account_id,
                    AccountModel { tentative_reserved: amount, ..old(self)@.accounts[account_id] },
                )
            } else {
                old(self)@.accounts
            },
    {
        if let Some(mut a) = dash_get(&self.accounts, account_id) {
            a.tentative_reserved = amount;
            dash_insert(&mut self.accounts, account_id, a);
        }
    }

    /// An account's reservation (zero for an unknown account).
    pub fn get_tentative_reserved(&self, account_id: AccountId) -> (r: i64)
        ensures
            r == if self@.accounts.contains_key(account_id) {
                self@.accounts[account_id].tentative_reserved
            } else {
                0
            },
    {
        match dash_get(&self.accounts, account_id) {
            Some(a) => a.tentative_reserved,
            None => 0,
        }
    }

    /// The state of every account (buying power, positions, limits; not the
    /// reservations), each account once, in no set order.
    pub fn create_snapshot(&self, sequence: u64) -> (r: AccountSnapshot)
        requires
            ids_match(self@.accounts),
        ensures
            r.sequence == sequence,
            is_snapshot_of(self@.accounts, r.accounts@),
    {
        let entries = dash_entries(&self.accounts);
        let ghost m = self@.accounts;
        let mut accounts: Vec<AccountStateSnapshot> = Vec::new();
        let mut i: usize = 0;
        while i < entries.len()
            invariant
                0 <= i <= entries.len(),
                m == self@.accounts,
                entries@.len() == m.dom().len(),
                forall|j: int| 0 <= j < entries@.len() ==> m.contains_key(#[trigger] entries@[j].0) && entries@[j].1@
                    == m[entries@[j].0],
                accounts@.len() == i,
                ids_match(m),
                forall|j: int| 0 <= j < i ==> snapshot_entry(#[trigger] accounts@[j], m[entries@[j].0]),
            decreases entries.len() - i,
        {
            let st = &entries[i].1;
            let positions = hash_pairs(&st.positions);
            let risk_limits = hash_pairs(&st.risk_limits);
            accounts.push(AccountStateSnapshot { account_id: st.account_id, buying_power: st.buying_power, positions, risk_limits });
            i = i + 1;
        }
        proof {
            assert forall|j: int, l: int| 0 <= j < l < accounts@.len() implies accounts@[j].account_id
                != accounts@[l].account_id by {
                assert(snapshot_entry(accounts@[j], m[entries@[j].0]));
                assert(snapshot_entry(accounts@[l], m[entries@[l].0]));
                assert(m.contains_key(entries@[j].0) && m.contains_key(entries@[l].0));
                assert(entries@[j].0 != entries@[l].0);
            }
            assert forall|k: AccountId| m.contains_key(k) implies exists|j: int|
                0 <= j < accounts@.len() && #[trigger] accounts@[j].account_id == k by {
                assert(dash_accounts(self.accounts).contains_key(k));
                let j = choose|j: int| 0 <= j < entries@.len() && #[trigger] entries@[j].0 == k;
                assert(snapshot_entry(accounts@[j], m[entries@[j].0]));
                assert(m.contains_key(entries@[j].0));
            }
            assert forall|j: int| 0 <= j < accounts@.len() implies m.contains_key(#[trigger] accounts@[j].account_id)
                && snapshot_entry(accounts@[j], m[accounts@[j].account_id]) by {
                assert(snapshot_entry(accounts@[j], m[entries@[j].0]));
            }
        }
        AccountSnapshot { sequence, accounts }
    }

    /// Replaces every account by those of the snapshot (nothing reserved).
    pub fn restore_from_snapshot(&mut self, snapshot: &AccountSnapshot)
        ensures
            final(self)@.accounts == snapshot_accounts(snapshot.accounts@),
            final(self)@.next_seq == old(self)@.next_seq,
            ids_match(final(self)@.accounts),
    {
        self.accounts = dash_new();
        proof {
            assert(dash_accounts(self.accounts) =~= snapshot_accounts(snapshot.accounts@.take(0)));
        }
        let mut i: usize = 0;
        while i < snapshot.accounts.len()
            invariant
                0 <= i <= snapshot.accounts.len(),
                self@.accounts == snapshot_accounts(snapshot.accounts@.take(i as int)),
                self@.next_seq == old(self)@.next_seq,
                ids_match(self@.accounts),
            decreases snapshot.accounts.len() - i,
        {
            let acc = &snapshot.accounts[i];
            let mut state = AccountState::new(acc.account_id, acc.buying_power);
            state.positions = pairs_to_map(&acc.positions);
            state.risk_limits = pairs_to_map(&acc.risk_limits);
            dash_insert(&mut self.accounts, acc.account_id, state);
            proof {
                assert(snapshot.accounts@.take(i + 1).drop_last() =~= snapshot.accounts@.take(i as int));
            }
            i = i + 1;
        }
        proof {
            assert(snapshot.accounts@.take(snapshot.accounts.len() as int) =~= snapshot.accounts@);
        }
    }

    /// Replays journaled updates: each re-creates its account.
    pub fn replay_journal(&mut self, updates: Vec<AccountUpdate>)
        requires
            ids_match(old(self)@.accounts),
        ensures
            ids_match(final(self)@.accounts),
            final(self)@.accounts == replay_updates(old(self)@.accounts, updates@),
            final(self)@.next_seq == old(self)@.next_seq,
    {
        let mut i: usize = 0;
        while i < updates.len()
            invariant
                0 <= i <= updates.len(),
                self@.accounts == replay_updates(old(self)@.accounts, updates@.take(i as int)),
                ids_match(self@.accounts),
                self@.next_seq == old(self)@.next_seq,
            decreases updates.len() - i,
        {
            match updates[i] {
                AccountUpdate::CreateAccount { account_id, buying_power } => {
                    dash_insert(&mut self.accounts, account_id, AccountState::new(account_id, buying_power));
                },
            }
            proof {
                assert(updates@.take(i + 1).drop_last() =~= updates@.take(i as int));
            }
            i = i + 1;
        }
        proof {
            assert(updates@.take(updates.len() as int) =~= updates@);
        }
    }
}

/// The entries of a map keyed by symbol, each once, in no set order.
fn hash_pairs<V: Copy>(h: &HashMap<SymbolId, V>) -> (r: Vec<(SymbolId, V)>)
    ensures
        pairs_map(r@) == h@,
        forall|i: int, j: int| 0 <= i < j < r@.len() ==> r@[i].0 != r@[j].0,
{
    let mut out: Vec<(SymbolId, V)> = Vec::new();
    let ghost m = h@;
    let ghost all = vstd::std_specs::iter::IteratorSpec::remaining(&vstd::std_specs::hash::spec_hash_map_iter(h));
    let ghost mut seen: int = 0;
    for entry in it: h.iter()
        invariant
            m == h@,
            it.seq() == all,
            seen == it.index(),
            all.len() == m.dom().len(),
            forall|i: int| 0 <= i < all.len() ==> m.contains_key(*#[trigger] all[i].0) && m[*all[i].0] == *all[i].1,
            forall|k: SymbolId| #[trigger] m.contains_key(k) ==> all.contains((&k, &m[k])),
            all.no_duplicates(),
            out@.len() == seen,
            forall|i: int| 0 <= i < seen ==> #[trigger] out@[i] == (*all[i].0, *all[i].1),
            forall|k: SymbolId| pairs_map(out@).contains_key(k) <==> exists|j: int| 0 <= j < seen && #[trigger] out@[j].0 == k,
            forall|j: int| 0 <= j < seen ==> pairs_map(out@)[#[trigger] out@[j].0] == out@[j].1,
    {
        let (k, v) = entry;
        proof {
            assert(entry == all[seen]);
            assert forall|j: int| 0 <= j < seen implies out@[j].0 != *k by {
                if out@[j].0 == *k {
                    assert(all[j] == all[seen]);
                }
            }
        }
        let ghost before = out@;
        out.push((*k, *v));
        proof {
            assert(out@.drop_last() =~= before);
            assert forall|x: SymbolId| pairs_map(out@).contains_key(x) <==> exists|j: int| 0 <= j < seen + 1 && #[trigger] out@[j].0 == x by {
                if pairs_map(before).contains_key(x) {
                    let j = choose|j: int| 0 <= j < seen && #[trigger] before[j].0 == x;
                    assert(out@[j] == before[j]);
                }
                if exists|j: int| 0 <= j < seen + 1 && #[trigger] out@[j].0 == x {
                    let j = choose|j: int| 0 <= j < seen + 1 && #[trigger] out@[j].0 == x;
                    if j < seen {
                        assert(out@[j] == before[j]);
                    }
                }
            }
            assert forall|j: int| 0 <= j < seen + 1 implies pairs_map(out@)[#[trigger] out@[j].0] == out@[j].1 by {
                if j < seen {
                    assert(out@[j] == before[j]);
                    assert(before[j].0 != *k);
                }
            }
            seen = seen + 1;
        }
    }
    proof {
        assert forall|i: int, j: int| 0 <= i < j < out@.len() implies out@[i].0 != out@[j].0 by {
            if out@[i].0 == out@[j].0 {
                assert(m[*all[i].0] == *all[i].1);
                assert(m[*all[j].0] == *all[j].1);
                assert(all[i] == all[j]);
            }
        }
        assert forall|k: SymbolId| #[trigger] pairs_map(out@).contains_key(k) == m.contains_key(k) by {
            if m.contains_key(k) {
                assert(all.contains((&k, &m[k])));
                let j = choose|j: int| 0 <= j < all.len() && all[j] == (&k, &m[k]);
                assert(out@[j].0 == k);
            }
            if pairs_map(out@).contains_key(k) {
                let j = choose|j: int| 0 <= j < seen && #[trigger] out@[j].0 == k;
                assert(m.contains_key(*all[j].0));
            }
        }
        assert forall|k: SymbolId| #[trigger] m.contains_key(k) implies pairs_map(out@)[k] == m[k] by {
            assert(all.contains((&k, &m[k])));
            let j = choose|j: int| 0 <= j < all.len() && all[j] == (&k, &m[k]);
            assert(out@[j].0 == k);
        }
        assert(pairs_map(out@) =~= m);
    }
    out
}

/// The map a list of pairs builds, as `pairs_map` says.
fn pairs_to_map<V: Copy>(ps: &Vec<(SymbolId, V)>) -> (r: HashMap<SymbolId, V>)
    ensures
        r@ == pairs_map(ps@),
{
    let mut h: HashMap<SymbolId, V> = HashMap::new();
    let mut i: usize = 0;
    while i < ps.len()
        invariant
            0 <= i <= ps.len(),
            h@ == pairs_map(ps@.take(i as int)),
        decreases ps.len() - i,
    {
        let (k, v) = ps[i];
        h.insert(k, v);
        proof {
            assert(ps@.take(i + 1).drop_last() =~= ps@.take(i as int));
        }
        i = i + 1;
    }
    proof {
        assert(ps@.take(ps.len() as int) =~= ps@);
    }
    h
}

/// The account after a fill, as `fill_account` says.
fn settle_fill(a: &AccountState, amount: i64, s: SymbolId, price: i64, qty: i64, is_buy: bool) -> (r: Option<AccountState>)
    ensures
        match r {
            Some(x) => fill_account(a@, amount, s, price, qty, is_buy) == Some(x@),
            None => fill_account(a@, amount, s, price, qty, is_buy) is None,
        },
{
    let reserved = a.tentative_reserved as i128 - amount as i128;
    proof {
        lemma_mul_bounds(price, qty);
    }
    let cost = price as i128 * qty as i128;
    if !fits(reserved) || !fits(cost) {
        return None;
    }
    let bp = if is_buy {
        a.buying_power as i128 - cost
    } else {
        a.buying_power as i128 + cost
    };
    let p = a.get_position(s);
    let net = if is_buy {
        p.net_position as i128 + qty as i128
    } else {
        p.net_position as i128 - qty as i128
    };
    if !fits(bp) || !fits(net) {
        return None;
    }
    let mut out = a.clone();
    out.tentative_reserved = reserved as i64;
    out.buying_power = bp as i64;
    out.positions.insert(
        s,
        Position {
            net_position: net as i64,
            avg_price: if net != 0 {
                price
            } else {
                p.avg_price
            },
            realized_pnl: p.realized_pnl,
        },
    );
    Some(out)
}

} // verus!
