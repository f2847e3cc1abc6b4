//! Engine-side risk: positions and limits per account, the pre-trade check and
//! the position update after each fill.
use std::collections::HashMap;

use vstd::prelude::*;

use crate::types::{AccountId, Position, RejectReason, RiskLimits, Side};

verus! {

broadcast use vstd::std_specs::hash::group_hash_axioms;

/// Positions and risk limits per account.
pub struct AccountManager {
    positions: HashMap<AccountId, Position>,
    risk_limits: HashMap<AccountId, RiskLimits>,
    default_limits: RiskLimits,
}

/// Abstract state of the manager.
pub struct RiskModel {
    /// Accounts with a position entry (every account that had a fill).
    pub positions: Map<AccountId, Position>,
    /// Accounts with limits of their own.
    pub limits: Map<AccountId, RiskLimits>,
    /// Limits of every other account.
    pub default_limits: RiskLimits,
}

impl View for AccountManager {
    type V = RiskModel;

    closed spec fn view(&self) -> RiskModel {
        RiskModel { positions: self.positions@, limits: self.risk_limits@, default_limits: self.default_limits }
    }
}

/// The limits that apply to `id`.
pub open spec fn limits_of(m: RiskModel, id: AccountId) -> RiskLimits {
    if m.limits.contains_key(id) {
        m.limits[id]
    } else {
        m.default_limits
    }
}

/// The position of `id` (flat when it has none).
pub open spec fn position_of(m: RiskModel, id: AccountId) -> Position {
    if m.positions.contains_key(id) {
        m.positions[id]
    } else {
        crate::types::zero_position()
    }
}

/// The position `id` would have if an order of `side` and `qty` filled entirely.
pub open spec fn hypothetical_position(m: RiskModel, id: AccountId, side: Side, qty: i64) -> int {
    match side {
        Side::Buy => position_of(m, id).net_position + qty,
        Side::Sell => position_of(m, id).net_position - qty,
    }
}

/// The order breaks a limit: too large, or it could take the position beyond
/// the long or short limit.
pub open spec fn breaks_limits(m: RiskModel, id: AccountId, side: Side, qty: i64) -> bool {
    let l = limits_of(m, id);
    let p = hypothetical_position(m, id, side, qty);
    qty > l.max_order_size || p > l.max_long_position || p < -l.max_short_position
}

pub open spec fn in_i64(x: int) -> bool {
    i64::MIN <= x <= i64::MAX
}

/// Integer division rounding toward zero, as Rust divides.
pub open spec fn tdiv(a: int, b: int) -> int {
    if a >= 0 && b > 0 {
        a / b
    } else if a < 0 && b > 0 {
        -((-a) / b)
    } else if a >= 0 && b < 0 {
        -(a / (-b))
    } else {
        (-a) / (-b)
    }
}

/// The position after a fill of `qty` at `price` on `side`, when every step of
/// the update stays within `i64` and no division by zero occurs (`None` else).
/// A fill against the position closes it first, realizing the price difference
/// per lot; what is left opens a new position at the fill price. A fill with
/// the position (or from flat) averages the entry price by volume.
pub open spec fn fill_result(p: Position, side: Side, price: i64, qty: i64) -> Option<Position> {
    let net = p.net_position as int;
    let avg = p.avg_price as int;
    let px = price as int;
    let q = qty as int;
    match side {
        Side::Buy => {
            if net < 0 {
                let closing = if q < -net { q } else { -net };
                let per = avg - px;
                let realized = p.realized_pnl + closing * per;
                let opening = q - closing;
                if in_i64(-net) && in_i64(per) && in_i64(closing * per) && in_i64(realized) && in_i64(opening)
                    && in_i64(net + q) {
                    Some(
                        Position {
                            net_position: (net + q) as i64,
                            avg_price: if opening > 0 {
                                price
                            } else {
                                p.avg_price
                            },
                            realized_pnl: realized as i64,
                        },
                    )
                } else {
                    None
                }
            } else if net == 0 {
                if in_i64(net + q) {
                    Some(Position { net_position: (net + q) as i64, avg_price: price, realized_pnl: p.realized_pnl })
                } else {
                    None
                }
            } else {
                let total = net * avg + q * px;
                let d = net + q;
                if in_i64(net * avg) && in_i64(q * px) && in_i64(total) && in_i64(d) && d != 0 && in_i64(
                    tdiv(total, d),
                ) {
                    Some(
                        Position {
                            net_position: d as i64,
                            avg_price: tdiv(total, d) as i64,
                            realized_pnl: p.realized_pnl,
                        },
                    )
                } else {
                    None
                }
            }
        },
        Side::Sell => {
            if net > 0 {
                let closing = if q < net { q } else { net };
                let per = px - avg;
                let realized = p.realized_pnl + closing * per;
                let opening = q - closing;
                if in_i64(per) && in_i64(closing * per) && in_i64(realized) && in_i64(opening) && in_i64(
                    net - q,
                ) {
                    Some(
                        Position {
                            net_position: (net - q) as i64,
                            avg_price: if opening > 0 {
                                price
                            } else {
                                p.avg_price
                            },
                            realized_pnl: realized as i64,
                        },
                    )
                } else {
                    None
                }
            } else if net == 0 {
                if in_i64(net - q) {
                    Some(Position { net_position: (net - q) as i64, avg_price: price, realized_pnl: p.realized_pnl })
                } else {
                    None
                }
            } else {
                let total = (-net) * avg + q * px;
                let d = -net + q;
                if in_i64(-net) && in_i64((-net) * avg) && in_i64(q * px) && in_i64(total) && in_i64(d) && d
                    != 0 && in_i64(tdiv(total, d)) && in_i64(net - q) {
                    Some(
                        Position {
                            net_position: (net - q) as i64,
                            avg_price: tdiv(total, d) as i64,
                            realized_pnl: p.realized_pnl,
                        },
                    )
                } else {
                    None
                }
            }
        },
    }
}

/// Buying from flat and selling the same quantity closes the position and
/// realizes the price difference on every lot.
pub proof fn lemma_round_trip_pnl(p: Position, qty: i64, buy_price: i64, sell_price: i64)
    requires
        p.net_position == 0,
        qty > 0,
        fill_result(p, Side::Buy, buy_price, qty) is Some,
        fill_result(fill_result(p, Side::Buy, buy_price, qty).unwrap(), Side::Sell, sell_price, qty) is Some,
    ensures
        ({
            let after = fill_result(fill_result(p, Side::Buy, buy_price, qty).unwrap(), Side::Sell, sell_price, qty).unwrap();
            &&& after.net_position == 0
            &&& after.realized_pnl == p.realized_pnl + qty * (sell_price - buy_price)
        }),
{
}

/// What a fill of `qty > 0` lots at `price` does to a position.
///
/// The net position moves by the fill (up for a buy, down for a sell). Lots
/// that close an opposite position realize, per lot, entry minus fill price
/// when a short is bought back and fill minus entry price when a long is sold;
/// nothing else is realized. A fill from flat, or one that reverses the
/// position, enters the new position at the fill price; one that only reduces
/// the position keeps its entry price; one that adds to it averages the entry
/// price by volume, rounding toward zero. The update succeeds whenever these
/// values fit an `i64`.
pub proof fn lemma_fill_effect(p: Position, side: Side, price: i64, qty: i64)
    requires
        qty > 0,
    ensures
        ({
            let net = p.net_position as int;
            let q = qty as int;
            let size = if net < 0 { -net } else { net };
            let signed = match side {
                Side::Buy => q,
                Side::Sell => -q,
            };
            let against = match side {
                Side::Buy => net < 0,
                Side::Sell => net > 0,
            };
            let closed = if !against {
                0
            } else if q < size {
                q
            } else {
                size
            };
            let per_lot = match side {
                Side::Buy => p.avg_price - price,
                Side::Sell => price - p.avg_price,
            };
            let total = size * p.avg_price + q * price;
            &&& fill_result(p, side, price, qty) matches Some(np) ==> {
                &&& np.net_position == net + signed
                &&& np.realized_pnl == p.realized_pnl + closed * per_lot
                &&& (net == 0 || (against && q > size)) ==> np.avg_price == price
                &&& (against && q <= size) ==> np.avg_price == p.avg_price
                &&& (!against && net != 0) ==> np.avg_price == tdiv(total, size + q)
            }
            &&& (net == 0 && in_i64(net + signed)) ==> fill_result(p, side, price, qty) is Some
            &&& (against && in_i64(size) && in_i64(per_lot) && in_i64(closed * per_lot) && in_i64(
                p.realized_pnl + closed * per_lot,
            ) && in_i64(q - closed) && in_i64(net + signed)) ==> fill_result(p, side, price, qty) is Some
            &&& (!against && net != 0 && in_i64(size) && in_i64(size * p.avg_price) && in_i64(q * price)
                && in_i64(total) && in_i64(size + q) && in_i64(tdiv(total, size + q)) && in_i64(net + signed))
                ==> fill_result(p, side, price, qty) is Some
        }),
{
}

/// `a` divided by `b`, rounding toward zero.
fn trunc_div(a: i128, b: i128) -> (r: i128)
    requires
        b != 0,
        in_i64(a as int),
        in_i64(b as int),
    ensures
        r == tdiv(a as int, b as int),
{
    let ua: u128 = if a >= 0 {
        a as u128
    } else {
        (-a) as u128
    };
    let ub: u128 = if b >= 0 {
        b as u128
    } else {
        (-b) as u128
    };
    let q = (ua / ub) as i128;
    if (a >= 0) == (b > 0) {
        q
    } else {
        -q
    }
}

fn fits(x: i128) -> (r: bool)
    ensures
        r == in_i64(x as int),
{
    x >= i64::MIN as i128 && x <= i64::MAX as i128
}

/// The position after a fill, as `fill_result` says.
pub fn compute_fill(p: Position, side: Side, price: i64, qty: i64) -> (r: Option<Position>)
    ensures
        r == fill_result(p, side, price, qty),
{
    let net = p.net_position as i128;
    let avg = p.avg_price as i128;
    let px = price as i128;
    let q = qty as i128;
    match side {
        Side::Buy => {
            if net < 0 {
                let closing = if q < -net {
                    q
                } else {
                    -net
                };
                let per = avg - px;
                if !fits(-net) || !fits(per) {
                    return None;
                }
                assert(-(i64::MAX as int) - 1 <= closing <= i64::MAX);
                assert(-(i64::MAX as int) - 1 <= per <= i64::MAX);
                assert(closing * per <= 0x4000_0000_0000_0000_0000_0000_0000_0000) by (nonlinear_arith)
                    requires
                        -0x8000_0000_0000_0000 <= closing <= 0x7fff_ffff_ffff_ffff,
                        -0x8000_0000_0000_0000 <= per <= 0x7fff_ffff_ffff_ffff,
                ;
                assert(closing * per >= -0x4000_0000_0000_0000_0000_0000_0000_0000) by (nonlinear_arith)
                    requires
                        -0x8000_0000_0000_0000 <= closing <= 0x7fff_ffff_ffff_ffff,
                        -0x8000_0000_0000_0000 <= per <= 0x7fff_ffff_ffff_ffff,
                ;
                let cp = closing * per;
                if !fits(cp) {
                    return None;
                }
                let realized = p.realized_pnl as i128 + cp;
                let opening = q - closing;
                if !fits(realized) || !fits(opening) || !fits(net + q) {
                    return None;
                }
                Some(
                    Position {
                        net_position: (net + q) as i64,
                        avg_price: if opening > 0 {
                            price
                        } else {
                            p.avg_price
                        },
                        realized_pnl: realized as i64,
                    },
                )
            } else if net == 0 {
                if !fits(net + q) {
                    return None;
                }
                Some(Position { net_position: (net + q) as i64, avg_price: price, realized_pnl: p.realized_pnl })
            } else {
                assert(net * avg <= 0x4000_0000_0000_0000_0000_0000_0000_0000 && net * avg >= -0x4000_0000_0000_0000_0000_0000_0000_0000) by (nonlinear_arith)
                    requires
                        -0x8000_0000_0000_0000 <= net <= 0x7fff_ffff_ffff_ffff,
                        -0x8000_0000_0000_0000 <= avg <= 0x7fff_ffff_ffff_ffff,
                ;
                assert(q * px <= 0x4000_0000_0000_0000_0000_0000_0000_0000 && q * px >= -0x4000_0000_0000_0000_0000_0000_0000_0000) by (nonlinear_arith)
                    requires
                        -0x8000_0000_0000_0000 <= q <= 0x7fff_ffff_ffff_ffff,
                        -0x8000_0000_0000_0000 <= px <= 0x7fff_ffff_ffff_ffff,
                ;
                let na = net * avg;
                let qp = q * px;
                if !fits(na) || !fits(qp) {
                    return None;
                }
                let total = na + qp;
                let d = net + q;
                if !fits(total) || !fits(d) || d == 0 {
                    return None;
                }
                let a = trunc_div(total, d);
                if !fits(a) {
                    return None;
                }
                Some(Position { net_position: d as i64, avg_price: a as i64, realized_pnl: p.realized_pnl })
            }
        },
        Side::Sell => {
            if net > 0 {
                let closing = if q < net {
                    q
                } else {
                    net
                };
                let per = px - avg;
                if !fits(per) {
                    return None;
                }
                assert(closing * per <= 0x4000_0000_0000_0000_0000_0000_0000_0000 && closing * per >= -0x4000_0000_0000_0000_0000_0000_0000_0000) by (nonlinear_arith)
                    requires
                        -0x8000_0000_0000_0000 <= closing <= 0x7fff_ffff_ffff_ffff,
                        -0x8000_0000_0000_0000 <= per <= 0x7fff_ffff_ffff_ffff,
                ;
                let cp = closing * per;
                if !fits(cp) {
                    return None;
                }
                let realized = p.realized_pnl as i128 + cp;
                let opening = q - closing;
                if !fits(realized) || !fits(opening) || !fits(net - q) {
                    return None;
                }
                Some(
                    Position {
                        net_position: (net - q) as i64,
                        avg_price: if opening > 0 {
                            price
                        } else {
                            p.avg_price
                        },
                        realized_pnl: realized as i64,
                    },
                )
            } else if net == 0 {
                if !fits(net - q) {
                    return None;
                }
                Some(Position { net_position: (net - q) as i64, avg_price: price, realized_pnl: p.realized_pnl })
            } else {
                if !fits(-net) {
                    return None;
                }
                let mn = -net;
                assert(mn * avg <= 0x4000_0000_0000_0000_0000_0000_0000_0000 && mn * avg >= -0x4000_0000_0000_0000_0000_0000_0000_0000) by (nonlinear_arith)
                    requires
                        -0x8000_0000_0000_0000 <= mn <= 0x7fff_ffff_ffff_ffff,
                        -0x8000_0000_0000_0000 <= avg <= 0x7fff_ffff_ffff_ffff,
                ;
                assert(q * px <= 0x4000_0000_0000_0000_0000_0000_0000_0000 && q * px >= -0x4000_0000_0000_0000_0000_0000_0000_0000) by (nonlinear_arith)
                    requires
                        -0x8000_0000_0000_0000 <= q <= 0x7fff_ffff_ffff_ffff,
                        -0x8000_0000_0000_0000 <= px <= 0x7fff_ffff_ffff_ffff,
                ;
                let na = mn * avg;
                let qp = q * px;
                if !fits(na) || !fits(qp) {
                    return None;
                }
                let total = na + qp;
                let d = mn + q;
                if !fits(total) || !fits(d) || d == 0 {
                    return None;
                }
                let a = trunc_div(total, d);
                if !fits(a) || !fits(net - q) {
                    return None;
                }
                Some(Position { net_position: (net - q) as i64, avg_price: a as i64, realized_pnl: p.realized_pnl })
            }
        },
    }
}

impl AccountManager {
    /// A manager with no account, applying `default_limits` to every account.
    pub fn new(default_limits: RiskLimits) -> (m: Self)
        ensures
            m@.positions == Map::<AccountId, Position>::empty(),
            m@.limits == Map::<AccountId, RiskLimits>::empty(),
            m@.default_limits == default_limits,
    {
        AccountManager { positions: HashMap::new(), risk_limits: HashMap::new(), default_limits }
    }

    /// Pre-trade check of an order of `side` and `qty` for `id`: `Err(Risk)`
    /// exactly when it breaks a limit.
    pub fn check_risk(&self, account_id: AccountId, side: Side, qty: i64) -> (r: Result<(), RejectReason>)
        ensures
            r == if breaks_limits(self@, account_id, side, qty) {
                Err(RejectReason::Risk)
            } else {
                Ok(())
            },
    {
        let limits = self.get_limits(account_id);
        if qty > limits.max_order_size {
            return Err(RejectReason::Risk);
        }
        let cur = self.get_position(account_id).net_position as i128;
        let new_position = match side {
            Side::Buy => cur + qty as i128,
            Side::Sell => cur - qty as i128,
        };
        if new_position > limits.max_long_position as i128 {
            return Err(RejectReason::Risk);
        }
        if new_position < -(limits.max_short_position as i128) {
            return Err(RejectReason::Risk);
        }
        Ok(())
    }

    /// Whether a fill can be applied to `id`'s position without overflow.
    pub fn can_apply_fill(&self, account_id: AccountId, side: Side, price: i64, qty: i64) -> (r: bool)
        ensures
            r == fill_result(position_of(self@, account_id), side, price, qty) is Some,
    {
        compute_fill(self.get_position(account_id), side, price, qty).is_some()
    }

    /// Updates `id`'s position after a fill (the account gets an entry if it had none).
    pub fn apply_fill(&mut self, account_id: AccountId, side: Side, price: i64, qty: i64)
        requires
            fill_result(position_of(old(self)@, account_id), side, price, qty) is Some,
        ensures
            final(self)@ == (RiskModel {
                positions: old(self)@.positions.insert(
                    account_id,
                    fill_result(position_of(old(self)@, account_id), side, price, qty).unwrap(),
                ),
                ..old(self)@
            }),
    {
        let p = self.get_position(account_id);
        match compute_fill(p, side, price, qty) {
            Some(np) => {
                self.positions.insert(account_id, np);
            },
            None => {},
        }
    }

    /// The position of `id` (flat when it has none).
    pub fn get_position(&self, account_id: AccountId) -> (r: Position)
        ensures
            r == position_of(self@, account_id),
    {
        match self.positions.get(&account_id) {
            Some(p) => *p,
            None => Position::default(),
        }
    }

    /// The limits that apply to `id`.
    pub fn get_limits(&self, account_id: AccountId) -> (r: RiskLimits)
        ensures
            r == limits_of(self@, account_id),
    {
        match self.risk_limits.get(&account_id) {
            Some(l) => *l,
            None => self.default_limits,
        }
    }

    /// Gives `id` limits of its own.
    pub fn set_limits(&mut self, account_id: AccountId, limits: RiskLimits)
        ensures
            final(self)@ == (RiskModel { limits: old(self)@.limits.insert(account_id, limits), ..old(self)@ }),
    {
        self.risk_limits.insert(account_id, limits);
    }

    /// The accounts whose position is not flat, each once, in no set order.
    pub fn accounts_with_positions(&self) -> (r: Vec<AccountId>)
        ensures
            r@.no_duplicates(),
            forall|id: AccountId|
                r@.contains(id) <==> (self@.positions.contains_key(id) && self@.positions[id].net_position != 0),
    {
        let mut out: Vec<AccountId> = Vec::new();
        let ghost m = self.positions@;
        let ghost all = vstd::std_specs::iter::IteratorSpec::remaining(&vstd::std_specs::hash::spec_hash_map_iter(&self.positions));
        let ghost mut seen: int = 0;
        for entry in it: self.positions.iter()
            invariant
                m == self.positions@,
                it.seq() == all,
                seen == it.index(),
                all.len() == m.dom().len(),
                forall|i: int| 0 <= i < all.len() ==> m.contains_key(*#[trigger] all[i].0) && m[*all[i].0] == *all[i].1,
                forall|k: AccountId| #[trigger] m.contains_key(k) ==> all.contains((&k, &m[k])),
                all.no_duplicates(),
                out@.no_duplicates(),
                forall|id: AccountId|
                    out@.contains(id) <==> exists|j: int|
                        0 <= j < seen && *all[j].0 == id && all[j].1.net_position != 0,
        {
            let (id, pos) = entry;
            proof {
                assert(entry == all[seen]);
            }
            let ghost before = out@;
            if pos.net_position != 0 {
                proof {
                    if out@.contains(*id) {
                        let j = choose|j: int| 0 <= j < seen && *all[j].0 == *id && all[j].1.net_position != 0;
                        assert(all[j] == all[seen]);
                    }
                }
                out.push(*id);
            }
            proof {
                assert(pos.net_position != 0 ==> out@ == before.push(*id));
                assert(pos.net_position == 0 ==> out@ == before);
                assert forall|x: AccountId|
                    out@.contains(x) <==> exists|j: int|
                        0 <= j < seen + 1 && *all[j].0 == x && all[j].1.net_position != 0 by {
                    if before.contains(x) {
                        let j = choose|j: int| 0 <= j < seen && *all[j].0 == x && all[j].1.net_position != 0;
                        assert(0 <= j < seen + 1 && *all[j].0 == x && all[j].1.net_position != 0);
                        let i = choose|i: int| 0 <= i < before.len() && before[i] == x;
                        assert(out@[i] == x);
                        assert(out@.contains(x));
                    }
                    if out@.contains(x) && !before.contains(x) {
                        let i = choose|i: int| 0 <= i < out@.len() && out@[i] == x;
                        assert(i == before.len());
                        assert(x == *id);
                        assert(*all[seen].0 == x && all[seen].1.net_position != 0);
                    }
                    if exists|j: int| 0 <= j < seen + 1 && *all[j].0 == x && all[j].1.net_position != 0 {
                        let j = choose|j: int| 0 <= j < seen + 1 && *all[j].0 == x && all[j].1.net_position != 0;
                        if j < seen {
                            assert(before.contains(x));
                        } else {
                            assert(out@[out@.len() - 1] == *id);
                            assert(out@.contains(*id));
                        }
                    }
                }
                seen = seen + 1;
            }
        }
        proof {
            assert forall|id: AccountId|
                (m.contains_key(id) && m[id].net_position != 0) implies out@.contains(id) by {
                assert(all.contains((&id, &m[id])));
                let j = choose|j: int| 0 <= j < all.len() && all[j] == (&id, &m[id]);
                assert(*all[j].0 == id);
            }
        }
        out
    }

    /// Number of accounts with a position entry.
    pub fn account_count(&self) -> (r: usize)
        ensures
            r == self@.positions.len(),
    {
        self.positions.len()
    }
}

} // verus!
