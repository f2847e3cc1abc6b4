//! The gateway's decisions: what it answers a client command with or routes
//! to an engine, how it settles what the engines report, and how it rebuilds
//! reservations from the engines' live orders.
use std::collections::HashMap;

use vstd::prelude::*;

use crate::accounts::{
    fill_result, ids_match, limits_for, new_account, position_for, reserve_result, AccountManager, AccountModel,
    AccountUpdate, ReservationToken,
};
use crate::auth::AuthService;
use crate::session::SessionManager;
use crate::text::{dec, push_dec};
use crate::protocol::{EngineToGateway, ExecuteCommand, GatewayToEngine, OrderSnapshot, RiskToken};
use crate::types::{
    AccountId, AccountState, AuthFailure, AuthSuccess, Command, Event, OrderId, Reject, RejectReason, Side, SymbolId,
};

verus! {

broadcast use vstd::std_specs::hash::group_hash_axioms;

/// What the gateway knows of a pending order: its reservation and its side.
#[derive(Clone, Copy, Debug, PartialEq, Eq, Structural)]
pub struct OrderMetadata {
    pub reservation_token: ReservationToken,
    pub side: Side,
}

/// What to do with a client command.
#[derive(Debug)]
pub enum ClientAction {
    /// Answer the client with this event.
    Reply(Event),
    /// Send `msg` to the engine of `symbol_id`; `token` was reserved for it.
    Route { symbol_id: Option<SymbolId>, msg: GatewayToEngine, token: ReservationToken },
}

/// The client sequence and order a reject of `cmd` refers to.
pub open spec fn reject_ids(cmd: Command) -> (u64, Option<OrderId>) {
    match cmd {
        Command::NewOrder(o) => (o.client_seq, Some(o.order_id)),
        Command::Cancel(c) => (c.client_seq, Some(c.order_id)),
        Command::Replace(r) => (r.client_seq, Some(r.order_id)),
        _ => (0, None),
    }
}

/// The client sequence and order a reject of `cmd` refers to.
pub fn reject_target(cmd: &Command) -> (r: (u64, Option<OrderId>))
    ensures
        r == reject_ids(*cmd),
{
    match cmd {
        Command::NewOrder(o) => (o.client_seq, Some(o.order_id)),
        Command::Cancel(c) => (c.client_seq, Some(c.order_id)),
        Command::Replace(r) => (r.client_seq, Some(r.order_id)),
        _ => (0, None),
    }
}

/// The answer to a query of `q` when the account exists: its position and
/// limits in the symbol, numbered `seq`.
pub open spec fn account_state_event(seq: u64, client_seq: u64, a: AccountModel, account_id: AccountId, symbol_id: SymbolId) -> Event {
    Event::AccountState(
        AccountState {
            server_seq: seq,
            client_seq,
            account_id,
            symbol_id,
            position: position_for(a, symbol_id),
            risk_limits: limits_for(a, symbol_id),
        },
    )
}

/// Handles one client command. A query of an account is answered at once
/// (its state, or `NotFound`); any other command is checked and its buying
/// power reserved: a refusal is answered with a `Risk` reject, an approval is
/// routed to the engine with a token numbered by the next gateway sequence,
/// and a new order is recorded as pending. Every answer takes the next
/// gateway sequence.
pub fn handle_client_command(
    mgr: &mut AccountManager,
    pending: &mut HashMap<OrderId, OrderMetadata>,
    cmd: Command,
    conn_id: u64,
) -> (r: ClientAction)
    requires
        ids_match(old(mgr)@.accounts),
        !(cmd is QueryAccount) ==> reserve_result(old(mgr)@.accounts, cmd) is Some,
    ensures
        ids_match(final(mgr)@.accounts),
        final(mgr)@.next_seq == old(mgr)@.next_seq.wrapping_add(1),
        match cmd {
            Command::QueryAccount(q) => {
                &&& final(mgr)@.accounts == old(mgr)@.accounts
                &&& final(pending)@ == old(pending)@
                &&& r == ClientAction::Reply(
                    if old(mgr)@.accounts.contains_key(q.account_id) {
                        account_state_event(old(mgr)@.next_seq, q.client_seq, old(mgr)@.accounts[q.account_id], q.account_id, q.symbol_id)
                    } else {
                        Event::Reject(Reject { server_seq: old(mgr)@.next_seq, client_seq: q.client_seq, order_id: None, reason: RejectReason::NotFound })
                    },
                )
            },
            _ => {
                let (res, m2) = reserve_result(old(mgr)@.accounts, cmd).unwrap();
                &&& final(mgr)@.accounts == m2
                &&& match res {
                    Err(_) => {
                        &&& final(pending)@ == old(pending)@
                        &&& r == ClientAction::Reply(
                            Event::Reject(Reject {
                                server_seq: old(mgr)@.next_seq,
                                client_seq: reject_ids(cmd).0,
                                order_id: reject_ids(cmd).1,
                                reason: RejectReason::Risk,
                            }),
                        )
                    },
                    Ok(t) => {
                        &&& final(pending)@ == match cmd {
                            Command::NewOrder(o) => old(pending)@.insert(o.order_id, OrderMetadata { reservation_token: t, side: o.side }),
                            _ => old(pending)@,
                        }
                        &&& r == (ClientAction::Route {
                            symbol_id: crate::protocol::spec_command_symbol_id(cmd),
                            msg: GatewayToEngine::Execute(ExecuteCommand {
                                command: cmd,
                                conn_id,
                                risk_token: RiskToken { account_id: t.account_id, reserved_amount: t.amount, gateway_seq: old(mgr)@.next_seq },
                            }),
                            token: t,
                        })
                    },
                }
            },
        },
{
    if let Command::QueryAccount(q) = &cmd {
        let seq = mgr.next_seq();
        return match mgr.get_account(q.account_id) {
            Some(a) => ClientAction::Reply(
                Event::AccountState(
                    AccountState {
                        server_seq: seq,
                        client_seq: q.client_seq,
                        account_id: q.account_id,
                        symbol_id: q.symbol_id,
                        position: a.get_position(q.symbol_id),
                        risk_limits: a.get_risk_limits(q.symbol_id),
                    },
                ),
            ),
            None => ClientAction::Reply(
                Event::Reject(Reject { server_seq: seq, client_seq: q.client_seq, order_id: None, reason: RejectReason::NotFound }),
            ),
        };
    }
    let symbol_id = crate::protocol::command_symbol_id(&cmd);
    match mgr.check_and_reserve(&cmd) {
        Err(_) => {
            let (client_seq, order_id) = reject_target(&cmd);
            let seq = mgr.next_seq();
            ClientAction::Reply(Event::Reject(Reject { server_seq: seq, client_seq, order_id, reason: RejectReason::Risk }))
        },
        Ok(token) => {
            if let Command::NewOrder(o) = &cmd {
                pending.insert(o.order_id, OrderMetadata { reservation_token: token, side: o.side });
            }
            let gateway_seq = mgr.next_seq();
            let risk_token = RiskToken { account_id: token.account_id, reserved_amount: token.amount, gateway_seq };
            ClientAction::Route {
                symbol_id,
                msg: GatewayToEngine::execute(cmd, conn_id, risk_token),
                token,
            }
        },
    }
}

/// The engine of a routed command could not be reached: the reservation is
/// released and the client gets an `Overloaded` reject numbered by the next
/// gateway sequence.
pub fn route_failed(mgr: &mut AccountManager, cmd: &Command, token: &ReservationToken) -> (ev: Event)
    requires
        ids_match(old(mgr)@.accounts),
        crate::accounts::release_result(old(mgr)@.accounts, *token) is Some,
    ensures
        ids_match(final(mgr)@.accounts),
        final(mgr)@.accounts == crate::accounts::release_result(old(mgr)@.accounts, *token).unwrap(),
        final(mgr)@.next_seq == old(mgr)@.next_seq.wrapping_add(1),
        ev == Event::Reject(
            Reject {
                server_seq: old(mgr)@.next_seq,
                client_seq: reject_ids(*cmd).0,
                order_id: reject_ids(*cmd).1,
                reason: RejectReason::Overloaded,
            },
        ),
{
    mgr.release_reservation(token);
    let (client_seq, order_id) = reject_target(cmd);
    let seq = mgr.next_seq();
    Event::Reject(Reject { server_seq: seq, client_seq, order_id, reason: RejectReason::Overloaded })
}

/// The pending order a fill settles: the maker's, when the gateway tracks it.
pub open spec fn settled_order(pending: Map<OrderId, OrderMetadata>, ev: Event) -> Option<OrderMetadata> {
    match ev {
        Event::Fill(f) => if pending.contains_key(f.maker_order_id) {
            Some(pending[f.maker_order_id])
        } else {
            None
        },
        _ => None,
    }
}

/// Handles one message of an engine: a client event is forwarded to its
/// connection, and a fill of a tracked maker order first settles that order's
/// account and stops tracking it. Other messages are not for clients.
pub fn on_engine_message(
    mgr: &mut AccountManager,
    pending: &mut HashMap<OrderId, OrderMetadata>,
    msg: EngineToGateway,
) -> (r: Option<(u64, Event)>)
    requires
        ids_match(old(mgr)@.accounts),
        msg matches EngineToGateway::ClientEvent { event, .. } ==> match settled_order(old(pending)@, event) {
            Some(md) => fill_result(old(mgr)@.accounts, event, md.reservation_token, md.side == Side::Buy) is Some,
            None => true,
        },
    ensures
        ids_match(final(mgr)@.accounts),
        final(mgr)@.next_seq == old(mgr)@.next_seq,
        match msg {
            EngineToGateway::ClientEvent { conn_id, event, .. } => {
                &&& r == Some((conn_id, event))
                &&& match settled_order(old(pending)@, event) {
                    Some(md) => {
                        &&& final(mgr)@.accounts == fill_result(old(mgr)@.accounts, event, md.reservation_token, md.side == Side::Buy).unwrap()
                        &&& final(pending)@ == old(pending)@.remove(event->Fill_0.maker_order_id)
                    },
                    None => final(mgr)@.accounts == old(mgr)@.accounts && final(pending)@ == old(pending)@,
                }
            },
            _ => r is None && final(mgr)@.accounts == old(mgr)@.accounts && final(pending)@ == old(pending)@,
        },
{
    match msg {
        EngineToGateway::ClientEvent { conn_id, event, risk_token: _ } => {
            if let Event::Fill(f) = &event {
                match pending.get(&f.maker_order_id) {
                    Some(md) => {
                        let md = *md;
                        mgr.apply_fill(&event, &md.reservation_token, md.side == Side::Buy);
                        pending.remove(&f.maker_order_id);
                    },
                    None => {},
                }
            }
            Some((conn_id, event))
        },
        _ => None,
    }
}

// ------------------------------------------------------------------
// Reconciliation.
// ------------------------------------------------------------------

/// Why reservations could not be rebuilt.
#[derive(Clone, Copy, Debug, PartialEq, Eq, Structural)]
pub enum ReconcileError {
    /// The reservations of this account's live orders add up beyond `i64`.
    ReservationOverflow(AccountId),
}

/// What the live orders of account `id` among `orders` reserve together.
pub open spec fn reserved_total(orders: Seq<OrderSnapshot>, id: AccountId) -> int
    decreases orders.len(),
{
    if orders.len() == 0 {
        0
    } else {
        reserved_total(orders.drop_last(), id) + if orders.last().account_id == id {
            orders.last().reserved_amount as int
        } else {
            0
        }
    }
}

/// Account `id` has a live order among `orders`.
pub open spec fn has_orders(orders: Seq<OrderSnapshot>, id: AccountId) -> bool {
    exists|j: int| 0 <= j < orders.len() && #[trigger] orders[j].account_id == id
}

/// The accounts once each account with live orders reserves what they reserve.
pub open spec fn rebuilt(m: Map<AccountId, AccountModel>, orders: Seq<OrderSnapshot>) -> Map<AccountId, AccountModel> {
    Map::new(
        |k: AccountId| m.contains_key(k),
        |k: AccountId| if has_orders(orders, k) {
            AccountModel { tentative_reserved: reserved_total(orders, k) as i64, ..m[k] }
        } else {
            m[k]
        },
    )
}

proof fn lemma_total_bound(orders: Seq<OrderSnapshot>, id: AccountId)
    ensures
        -(orders.len() * 0x8000_0000_0000_0000) <= reserved_total(orders, id) <= orders.len() * 0x8000_0000_0000_0000,
    decreases orders.len(),
{
    if orders.len() > 0 {
        lemma_total_bound(orders.drop_last(), id);
    }
}

/// Rebuilds every reservation from the live orders the engines report: an
/// account with live orders reserves their reserved amounts together; other
/// accounts keep theirs. Nothing changes when a total does not fit an `i64`.
pub fn rebuild_reservations(mgr: &mut AccountManager, all_orders: &Vec<OrderSnapshot>) -> (r: Result<(), ReconcileError>)
    requires
        ids_match(old(mgr)@.accounts),
    ensures
        ids_match(final(mgr)@.accounts),
        final(mgr)@.next_seq == old(mgr)@.next_seq,
        match r {
            Ok(()) => final(mgr)@.accounts == rebuilt(old(mgr)@.accounts, all_orders@)
                && forall|id: AccountId| has_orders(all_orders@, id) ==> i64::MIN <= #[trigger] reserved_total(all_orders@, id) <= i64::MAX,
            Err(ReconcileError::ReservationOverflow(id)) => {
                &&& final(mgr)@.accounts == old(mgr)@.accounts
                &&& has_orders(all_orders@, id)
                &&& !(i64::MIN <= reserved_total(all_orders@, id) <= i64::MAX)
            },
        },
{
    let ghost os = all_orders@;
    let mut totals: HashMap<AccountId, i128> = HashMap::new();
    let mut i: usize = 0;
    while i < all_orders.len()
        invariant
            0 <= i <= all_orders.len(),
            os == all_orders@,
            forall|k: AccountId| #[trigger] totals@.contains_key(k) <==> has_orders(os.take(i as int), k),
            forall|k: AccountId| #[trigger] totals@.contains_key(k) ==> totals@[k] == reserved_total(os.take(i as int), k),
            ids_match(mgr@.accounts),
            mgr@ == old(mgr)@,
        decreases all_orders.len() - i,
    {
        let o = all_orders[i];
        let prev: i128 = match totals.get(&o.account_id) {
            Some(t) => *t,
            None => 0,
        };
        proof {
            let t = os.take(i + 1);
            assert(t.drop_last() =~= os.take(i as int));
            lemma_total_bound(os.take(i as int), o.account_id);
            assert(i <= usize::MAX);
            if !totals@.contains_key(o.account_id) {
                assert forall|j: int| 0 <= j < i implies os.take(i as int)[j].account_id != o.account_id by {
                    if os.take(i as int)[j].account_id == o.account_id {
                        assert(has_orders(os.take(i as int), o.account_id));
                    }
                }
                lemma_total_zero(os.take(i as int), o.account_id);
            }
        }
        let next = prev + o.reserved_amount as i128;
        totals.insert(o.account_id, next);
        proof {
            let t = os.take(i + 1);
            assert forall|k: AccountId| #[trigger] totals@.contains_key(k) <==> has_orders(t, k) by {
                if has_orders(os.take(i as int), k) {
                    let j = choose|j: int| 0 <= j < i && #[trigger] os.take(i as int)[j].account_id == k;
                    assert(t[j] == os.take(i as int)[j]);
                }
                if has_orders(t, k) && k != o.account_id {
                    let j = choose|j: int| 0 <= j < t.len() && #[trigger] t[j].account_id == k;
                    assert(t[j] == os.take(i as int)[j]);
                }
                if k == o.account_id {
                    assert(t[i as int].account_id == k);
                }
            }
        }
        i = i + 1;
    }
    proof {
        assert(os.take(os.len() as int) =~= os);
    }
    let mut j: usize = 0;
    while j < all_orders.len()
        invariant
            0 <= j <= all_orders.len(),
            os == all_orders@,
            forall|k: AccountId| #[trigger] totals@.contains_key(k) <==> has_orders(os, k),
            forall|k: AccountId| #[trigger] totals@.contains_key(k) ==> totals@[k] == reserved_total(os, k),
            forall|l: int| 0 <= l < j ==> i64::MIN <= #[trigger] reserved_total(os, os[l].account_id) <= i64::MAX,
            ids_match(mgr@.accounts),
            mgr@ == old(mgr)@,
        decreases all_orders.len() - j,
    {
        let id = all_orders[j].account_id;
        proof {
            assert(has_orders(os, os[j as int].account_id));
        }
        let t = match totals.get(&id) {
            Some(t) => *t,
            None => 0,
        };
        if t < i64::MIN as i128 || t > i64::MAX as i128 {
            return Err(ReconcileError::ReservationOverflow(id));
        }
        j = j + 1;
    }
    let ghost m0 = mgr@.accounts;
    proof {
        assert(partially_rebuilt(m0, os, 0) =~= m0);
    }
    let mut l: usize = 0;
    while l < all_orders.len()
        invariant
            0 <= l <= all_orders.len(),
            os == all_orders@,
            ids_match(mgr@.accounts),
            mgr@.next_seq == old(mgr)@.next_seq,
            m0 == old(mgr)@.accounts,
            forall|k: AccountId| #[trigger] totals@.contains_key(k) <==> has_orders(os, k),
            forall|k: AccountId| #[trigger] totals@.contains_key(k) ==> totals@[k] == reserved_total(os, k),
            forall|q: int| 0 <= q < os.len() ==> i64::MIN <= #[trigger] reserved_total(os, os[q].account_id) <= i64::MAX,
            mgr@.accounts == partially_rebuilt(m0, os, l as int),
        decreases all_orders.len() - l,
    {
        let id = all_orders[l].account_id;
        proof {
            assert(has_orders(os, os[l as int].account_id));
        }
        let t = match totals.get(&id) {
            Some(t) => *t,
            None => 0,
        };
        proof {
            assert(i64::MIN <= reserved_total(os, os[l as int].account_id) <= i64::MAX);
        }
        mgr.set_tentative_reserved(id, t as i64);
        proof {
            let next = partially_rebuilt(m0, os, l + 1);
            assert forall|k: AccountId| has_orders(os.take(l + 1), k) == (has_orders(os.take(l as int), k) || k == id) by {
                if has_orders(os.take(l as int), k) {
                    let q = choose|q: int| 0 <= q < l && #[trigger] os.take(l as int)[q].account_id == k;
                    assert(os.take(l + 1)[q] == os.take(l as int)[q]);
                }
                if has_orders(os.take(l + 1), k) && k != id {
                    let q = choose|q: int| 0 <= q < l + 1 && #[trigger] os.take(l + 1)[q].account_id == k;
                    assert(os.take(l + 1)[q] == os.take(l as int)[q]);
                }
                if k == id {
                    assert(os.take(l + 1)[l as int].account_id == id);
                }
            }
            assert(mgr@.accounts =~= next);
        }
        l = l + 1;
    }
    proof {
        assert(os.take(os.len() as int) =~= os);
        assert(partially_rebuilt(m0, os, os.len() as int) =~= rebuilt(m0, os));
        assert forall|id: AccountId| has_orders(os, id) implies i64::MIN <= #[trigger] reserved_total(os, id) <= i64::MAX by {
            let q = choose|q: int| 0 <= q < os.len() && #[trigger] os[q].account_id == id;
        }
    }
    Ok(())
}

/// The accounts once the accounts of the first `n` live orders reserve what
/// all their live orders reserve.
pub open spec fn partially_rebuilt(m: Map<AccountId, AccountModel>, orders: Seq<OrderSnapshot>, n: int) -> Map<AccountId, AccountModel> {
    Map::new(
        |k: AccountId| m.contains_key(k),
        |k: AccountId| if has_orders(orders.take(n), k) {
            AccountModel { tentative_reserved: reserved_total(orders, k) as i64, ..m[k] }
        } else {
            m[k]
        },
    )
}

proof fn lemma_total_zero(orders: Seq<OrderSnapshot>, id: AccountId)
    requires
        forall|j: int| 0 <= j < orders.len() ==> orders[j].account_id != id,
    ensures
        reserved_total(orders, id) == 0,
    decreases orders.len(),
{
    if orders.len() > 0 {
        let init = orders.drop_last();
        assert forall|j: int| 0 <= j < init.len() implies init[j].account_id != id by {
            assert(init[j] == orders[j]);
        }
        lemma_total_zero(init, id);
        assert(orders.last().account_id != id) by {
            assert(orders[orders.len() - 1] == orders.last());
        }
    }
}

// ------------------------------------------------------------------
// Test accounts.
// ------------------------------------------------------------------

/// Number of test accounts (ids 1 to 10) a gateway without accounts creates.
pub const TEST_ACCOUNT_COUNT: u32 = 10;

/// Buying power of each test account.
pub const TEST_BUYING_POWER: i64 = 1_000_000;

pub open spec fn is_test_account(id: AccountId) -> bool {
    1 <= id <= TEST_ACCOUNT_COUNT
}

/// The accounts of `m` once the test accounts are created on it.
pub open spec fn with_test_accounts(m: Map<AccountId, AccountModel>) -> Map<AccountId, AccountModel> {
    Map::new(
        |k: AccountId| m.contains_key(k) || is_test_account(k),
        |k: AccountId| if is_test_account(k) {
            new_account(k, TEST_BUYING_POWER)
        } else {
            m[k]
        },
    )
}

/// The journal updates that create the test accounts, in id order.
pub open spec fn test_account_updates() -> Seq<AccountUpdate> {
    Seq::new(
        TEST_ACCOUNT_COUNT as nat,
        |i: int| AccountUpdate::CreateAccount { account_id: (i + 1) as AccountId, buying_power: TEST_BUYING_POWER },
    )
}

/// A gateway that recovered no account starts with the test accounts, ids 1
/// to 10, each with the test buying power; the updates to journal come back in
/// id order. A gateway that has accounts keeps them and journals nothing.
pub fn seed_test_accounts(mgr: &mut AccountManager) -> (updates: Vec<AccountUpdate>)
    requires
        ids_match(old(mgr)@.accounts),
    ensures
        ids_match(final(mgr)@.accounts),
        final(mgr)@.next_seq == old(mgr)@.next_seq,
        if old(mgr)@.accounts.dom() == Set::<AccountId>::empty() {
            final(mgr)@.accounts == with_test_accounts(old(mgr)@.accounts) && updates@ == test_account_updates()
        } else {
            final(mgr)@.accounts == old(mgr)@.accounts && updates@.len() == 0
        },
{
    let snapshot = mgr.create_snapshot(0);
    let mut updates: Vec<AccountUpdate> = Vec::new();
    if snapshot.accounts.len() != 0 {
        proof {
            assert(old(mgr)@.accounts.contains_key(snapshot.accounts@[0].account_id));
        }
        return updates;
    }
    proof {
        assert forall|k: AccountId| !old(mgr)@.accounts.dom().contains(k) by {
            if old(mgr)@.accounts.contains_key(k) {
                let j = choose|j: int| 0 <= j < snapshot.accounts@.len() && #[trigger] snapshot.accounts@[j].account_id == k;
            }
        }
        assert(old(mgr)@.accounts.dom() =~= Set::<AccountId>::empty());
        assert(mgr@.accounts =~= Map::new(|k: AccountId| 1 <= k < 1, |k: AccountId| new_account(k, TEST_BUYING_POWER)));
        assert(updates@ =~= test_account_updates().take(0));
    }
    let mut id: u32 = 1;
    while id <= TEST_ACCOUNT_COUNT
        invariant
            1 <= id <= TEST_ACCOUNT_COUNT + 1,
            ids_match(mgr@.accounts),
            mgr@.next_seq == old(mgr)@.next_seq,
            old(mgr)@.accounts.dom() == Set::<AccountId>::empty(),
            mgr@.accounts == Map::new(|k: AccountId| 1 <= k < id, |k: AccountId| new_account(k, TEST_BUYING_POWER)),
            updates@ == test_account_updates().take(id - 1),
        decreases TEST_ACCOUNT_COUNT + 1 - id,
    {
        let u = mgr.create_account(id, TEST_BUYING_POWER);
        updates.push(u);
        proof {
            assert(mgr@.accounts =~= Map::new(
                |k: AccountId| 1 <= k < id + 1,
                |k: AccountId| new_account(k, TEST_BUYING_POWER),
            ));
            assert(updates@ =~= test_account_updates().take(id as int));
        }
        id = id + 1;
    }
    proof {
        assert(mgr@.accounts =~= with_test_accounts(old(mgr)@.accounts));
        assert(updates@ =~= test_account_updates());
    }
    updates
}

/// The API key of test account `id`: `test-key-` followed by its number.
pub open spec fn test_key(id: AccountId) -> Seq<char> {
    "test-key-"@ + dec(id as nat)
}

/// The API key of test account `id`.
pub fn test_api_key(id: AccountId) -> (r: String)
    ensures
        r@ == test_key(id),
{
    let mut out = String::from_str("test-key-");
    push_dec(&mut out, id as u64);
    out
}

/// The keys of `m` once the test keys of accounts 1 to `n` are registered in turn.
pub open spec fn with_test_keys(m: Map<Seq<char>, AccountId>, n: nat) -> Map<Seq<char>, AccountId>
    decreases n,
{
    if n == 0 {
        m
    } else {
        with_test_keys(m, (n - 1) as nat).insert(test_key(n as AccountId), n as AccountId)
    }
}

proof fn lemma_test_key_injective(a: AccountId, b: AccountId)
    requires
        test_key(a) == test_key(b),
    ensures
        a == b,
{
    let p = "test-key-"@;
    assert(test_key(a).skip(p.len() as int) =~= dec(a as nat));
    assert(test_key(b).skip(p.len() as int) =~= dec(b as nat));
    crate::text::lemma_dec_injective(a as nat, b as nat);
}

proof fn lemma_with_test_keys(m: Map<Seq<char>, AccountId>, n: nat, id: AccountId)
    requires
        n <= TEST_ACCOUNT_COUNT,
        1 <= id <= n,
    ensures
        with_test_keys(m, n).contains_key(test_key(id)),
        with_test_keys(m, n)[test_key(id)] == id,
    decreases n,
{
    if id < n {
        lemma_with_test_keys(m, (n - 1) as nat, id);
        if test_key(n as AccountId) == test_key(id) {
            lemma_test_key_injective(n as AccountId, id);
        }
    }
}

/// Registers the test key of every test account, account 1 first; every test
/// key then authenticates its account.
pub fn register_test_keys(auth: &mut AuthService)
    requires
        old(auth).wf(),
    ensures
        final(auth).wf(),
        final(auth)@ == with_test_keys(old(auth)@, TEST_ACCOUNT_COUNT as nat),
        forall|id: AccountId|
            is_test_account(id) ==> final(auth)@.contains_key(#[trigger] test_key(id)) && final(auth)@[test_key(id)]
                == id,
{
    let mut id: u32 = 1;
    while id <= TEST_ACCOUNT_COUNT
        invariant
            1 <= id <= TEST_ACCOUNT_COUNT + 1,
            auth.wf(),
            auth@ == with_test_keys(old(auth)@, (id - 1) as nat),
        decreases TEST_ACCOUNT_COUNT + 1 - id,
    {
        let key = test_api_key(id);
        auth.register_api_key(key, id);
        id = id + 1;
    }
    proof {
        assert forall|id: AccountId| is_test_account(id) implies auth@.contains_key(#[trigger] test_key(id))
            && auth@[test_key(id)] == id by {
            lemma_with_test_keys(old(auth)@, TEST_ACCOUNT_COUNT as nat, id);
        }
    }
}

// ------------------------------------------------------------------
// Snapshot timer.
// ------------------------------------------------------------------

/// The gateway's snapshot timer, which ticks once a minute: the ticks since
/// the last saved snapshot go up by one, and a snapshot is due once they reach
/// a sixtieth of the snapshot interval (the caller starts again from zero once
/// the snapshot is saved, and numbers the snapshot by the ticks).
pub fn snapshot_tick(ticks: u64, snapshot_interval: u64) -> (r: (u64, bool))
    requires
        ticks < u64::MAX,
    ensures
        r.0 == ticks + 1,
        r.1 == (ticks + 1 >= snapshot_interval / 60),
{
    let t = ticks + 1;
    (t, t >= snapshot_interval / 60)
}

// ------------------------------------------------------------------
// Authentication.
// ------------------------------------------------------------------

/// The answer to an authentication request on connection `conn_id`: a
/// registered key binds the connection to its account and is answered with
/// that account; any other key is answered with a failure and leaves the
/// sessions as they were.
pub fn handle_authenticate(auth: &AuthService, sessions: &mut SessionManager, conn_id: u64, api_key: &str) -> (ev: Event)
    requires
        auth.wf(),
    ensures
        if auth@.contains_key(api_key@) {
            &&& final(sessions)@ == old(sessions)@.insert(conn_id, auth@[api_key@])
            &&& ev == Event::AuthSuccess(AuthSuccess { account_id: auth@[api_key@] })
        } else {
            &&& final(sessions)@ == old(sessions)@
            &&& ev matches Event::AuthFailure(f) && f.reason@ == "Invalid API key"@
        },
{
    match auth.authenticate(api_key) {
        Ok(account_id) => {
            sessions.register(conn_id, account_id);
            Event::AuthSuccess(AuthSuccess { account_id })
        },
        Err(_) => Event::AuthFailure(AuthFailure { reason: String::from_str("Invalid API key") }),
    }
}

/// The commands that act on orders.
pub open spec fn is_order_command(cmd: Command) -> bool {
    cmd is NewOrder || cmd is Cancel || cmd is Replace
}

/// Orders from a connection that has not authenticated are refused where the
/// protocol enforces authentication (the JSON protocol; the binary protocol
/// does not): such an order gets an `Invalid` reject numbered by the next
/// gateway sequence. Any other command goes on (`None`) and nothing changes.
pub fn authentication_gate(
    mgr: &mut AccountManager,
    sessions: &SessionManager,
    conn_id: u64,
    enforced: bool,
    cmd: &Command,
) -> (r: Option<Event>)
    requires
        ids_match(old(mgr)@.accounts),
    ensures
        ids_match(final(mgr)@.accounts),
        final(mgr)@.accounts == old(mgr)@.accounts,
        if enforced && is_order_command(*cmd) && !sessions@.contains_key(conn_id) {
            &&& final(mgr)@.next_seq == old(mgr)@.next_seq.wrapping_add(1)
            &&& r == Some(
                Event::Reject(
                    Reject {
                        server_seq: old(mgr)@.next_seq,
                        client_seq: reject_ids(*cmd).0,
                        order_id: reject_ids(*cmd).1,
                        reason: RejectReason::Invalid,
                    },
                ),
            )
        } else {
            &&& final(mgr)@.next_seq == old(mgr)@.next_seq
            &&& r is None
        },
{
    let is_order = match cmd {
        Command::NewOrder(_) | Command::Cancel(_) | Command::Replace(_) => true,
        _ => false,
    };
    if enforced && is_order && !sessions.is_authenticated(conn_id) {
        let (client_seq, order_id) = reject_target(cmd);
        let seq = mgr.next_seq();
        Some(Event::Reject(Reject { server_seq: seq, client_seq, order_id, reason: RejectReason::Invalid }))
    } else {
        None
    }
}

} // verus!
