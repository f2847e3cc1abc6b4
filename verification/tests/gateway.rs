use std::collections::HashMap;

use high_perf_trading::accounts::AccountManager;
use high_perf_trading::accounts::AccountUpdate;
use high_perf_trading::auth::AuthService;
use high_perf_trading::session::SessionManager;
use high_perf_trading::gateway::{
    authentication_gate, handle_authenticate, handle_client_command, on_engine_message, rebuild_reservations, register_test_keys, route_failed, seed_test_accounts, snapshot_tick,
    test_api_key, ClientAction, ReconcileError,
};
use high_perf_trading::protocol::{command_account_id, command_order_id, command_symbol_id, EngineToGateway, GatewayToEngine, OrderSnapshot};
use high_perf_trading::server_config::overloaded_reject;
use high_perf_trading::types::{Authenticate, Command, Event, Fill, NewOrder, OrderFlags, QueryAccount, RejectReason, Side, TimeInForce};

fn buy(order_id: u64, account_id: u32, price: i64, qty: i64) -> Command {
    Command::NewOrder(NewOrder {
        client_seq: 10 + order_id,
        order_id,
        account_id,
        symbol_id: 1,
        side: Side::Buy,
        price,
        qty,
        tif: TimeInForce::Gtc,
        flags: OrderFlags { post_only: false },
    })
}

#[test]
fn approved_order_is_routed_and_tracked() {
    let mut mgr = AccountManager::new();
    mgr.create_account(1, 1000);
    let mut pending = HashMap::new();
    match handle_client_command(&mut mgr, &mut pending, buy(5, 1, 10, 20), 77) {
        ClientAction::Route { symbol_id, msg, token } => {
            assert_eq!(symbol_id, Some(1));
            assert_eq!(token.amount, 200);
            match msg {
                GatewayToEngine::Execute(x) => {
                    assert_eq!(x.conn_id, 77);
                    assert_eq!(x.risk_token.reserved_amount, 200);
                    assert_eq!(x.risk_token.gateway_seq, 1);
                }
                _ => panic!("expected an execute"),
            }
        }
        _ => panic!("expected a route"),
    }
    assert!(pending.contains_key(&5));
    let fill = Event::Fill(Fill { server_seq: 1, client_seq: 1, symbol_id: 1, taker_order_id: 9, maker_order_id: 5, price: 10, qty: 20 });
    let out = on_engine_message(&mut mgr, &mut pending, EngineToGateway::ClientEvent { conn_id: 77, event: fill, risk_token: None });
    assert!(matches!(out, Some((77, Event::Fill(_)))));
    assert!(!pending.contains_key(&5));
    let acc = mgr.get_account(1).unwrap();
    assert_eq!(acc.tentative_reserved, 0);
    assert_eq!(acc.buying_power, 800);
    assert!(on_engine_message(&mut mgr, &mut pending, EngineToGateway::Pong { symbol_id: 1, orders_in_book: 0 }).is_none());
}

#[test]
fn refused_order_gets_a_risk_reject() {
    let mut mgr = AccountManager::new();
    mgr.create_account(1, 100);
    let mut pending = HashMap::new();
    match handle_client_command(&mut mgr, &mut pending, buy(5, 1, 10, 20), 1) {
        ClientAction::Reply(Event::Reject(r)) => {
            assert_eq!(r.reason, RejectReason::Risk);
            assert_eq!(r.client_seq, 15);
            assert_eq!(r.order_id, Some(5));
            assert_eq!(r.server_seq, 1);
        }
        _ => panic!("expected a reject"),
    }
    assert!(pending.is_empty());
}

#[test]
fn query_is_answered_by_the_gateway() {
    let mut mgr = AccountManager::new();
    mgr.create_account(1, 100);
    let mut pending = HashMap::new();
    let q = Command::QueryAccount(QueryAccount { client_seq: 3, account_id: 1, symbol_id: 2 });
    match handle_client_command(&mut mgr, &mut pending, q, 1) {
        ClientAction::Reply(Event::AccountState(s)) => {
            assert_eq!(s.client_seq, 3);
            assert_eq!(s.position.net_position, 0);
            assert_eq!(s.risk_limits.max_order_size, 1000);
        }
        _ => panic!("expected account state"),
    }
    let q = Command::QueryAccount(QueryAccount { client_seq: 4, account_id: 9, symbol_id: 2 });
    assert!(matches!(handle_client_command(&mut mgr, &mut pending, q, 1), ClientAction::Reply(Event::Reject(ref r)) if r.reason == RejectReason::NotFound && r.server_seq == 2));
}

#[test]
fn failed_route_releases_and_rejects() {
    let mut mgr = AccountManager::new();
    mgr.create_account(1, 1000);
    let mut pending = HashMap::new();
    let cmd = buy(6, 1, 10, 20);
    let token = match handle_client_command(&mut mgr, &mut pending, cmd.clone(), 1) {
        ClientAction::Route { token, .. } => token,
        _ => panic!("expected a route"),
    };
    let ev = route_failed(&mut mgr, &cmd, &token);
    assert!(matches!(ev, Event::Reject(ref r) if r.reason == RejectReason::Overloaded && r.order_id == Some(6)));
    assert_eq!(mgr.get_tentative_reserved(1), 0);
}

#[test]
fn reservations_are_rebuilt_from_live_orders() {
    let mut mgr = AccountManager::new();
    mgr.create_account(1, 1000);
    mgr.create_account(2, 1000);
    mgr.set_tentative_reserved(2, 55);
    let snap = |account_id: u32, reserved_amount: i64| OrderSnapshot {
        order_id: 1,
        account_id,
        symbol_id: 1,
        side: Side::Buy,
        price: 1,
        qty_rem: 1,
        reserved_amount,
    };
    assert_eq!(rebuild_reservations(&mut mgr, &vec![snap(1, 10), snap(1, 5), snap(3, 7)]), Ok(()));
    assert_eq!(mgr.get_tentative_reserved(1), 15);
    assert_eq!(mgr.get_tentative_reserved(2), 55);
    assert!(mgr.get_account(3).is_none());
    assert_eq!(
        rebuild_reservations(&mut mgr, &vec![snap(1, i64::MAX), snap(1, 1)]),
        Err(ReconcileError::ReservationOverflow(1))
    );
    assert_eq!(mgr.get_tentative_reserved(1), 15);
}

#[test]
fn command_fields() {
    let auth = Command::Authenticate(Authenticate { api_key: "k".to_string() });
    assert_eq!(command_symbol_id(&auth), None);
    assert_eq!(command_account_id(&auth), None);
    assert_eq!(command_order_id(&auth), None);
    let b = buy(4, 2, 1, 1);
    assert_eq!(command_symbol_id(&b), Some(1));
    assert_eq!(command_account_id(&b), Some(2));
    assert_eq!(command_order_id(&b), Some(4));
    let q = Command::QueryAccount(QueryAccount { client_seq: 1, account_id: 3, symbol_id: 4 });
    assert_eq!(command_order_id(&q), None);
    assert!(matches!(overloaded_reject(9), Event::Reject(ref r) if r.client_seq == 9 && r.server_seq == 0));
}

#[test]
fn fresh_gateway_gets_ten_test_accounts() {
    let mut mgr = AccountManager::new();
    let updates = seed_test_accounts(&mut mgr);
    assert_eq!(updates.len(), 10);
    assert_eq!(updates[0], AccountUpdate::CreateAccount { account_id: 1, buying_power: 1_000_000 });
    assert_eq!(updates[9], AccountUpdate::CreateAccount { account_id: 10, buying_power: 1_000_000 });
    let a = mgr.get_account(7).unwrap();
    assert_eq!(a.buying_power, 1_000_000);
    assert_eq!(mgr.get_tentative_reserved(7), 0);
    assert!(mgr.get_account(11).is_none());

    // A gateway that already has accounts keeps them.
    let mut other = AccountManager::new();
    other.create_account(42, 5);
    assert!(seed_test_accounts(&mut other).is_empty());
    assert!(other.get_account(1).is_none());
    assert_eq!(other.get_account(42).unwrap().buying_power, 5);
}

#[test]
fn test_keys_authenticate_their_accounts() {
    assert_eq!(test_api_key(7), "test-key-7");
    assert_eq!(test_api_key(10), "test-key-10");
    let mut auth = AuthService::new();
    register_test_keys(&mut auth);
    assert_eq!(auth.key_count(), 10);
    assert_eq!(auth.authenticate("test-key-1"), Ok(1));
    assert_eq!(auth.authenticate("test-key-10"), Ok(10));
    assert!(auth.authenticate("test-key-11").is_err());
}

#[test]
fn snapshot_timer_fires_after_a_sixtieth_of_the_interval() {
    assert_eq!(snapshot_tick(0, 300), (1, false));
    assert_eq!(snapshot_tick(3, 300), (4, false));
    assert_eq!(snapshot_tick(4, 300), (5, true));
    assert_eq!(snapshot_tick(9, 300), (10, true));
    assert_eq!(snapshot_tick(0, 59), (1, true));
}

#[test]
fn authentication_binds_the_connection() {
    let mut auth = AuthService::new();
    auth.register_api_key("k1".to_string(), 7);
    let mut sessions = SessionManager::new();
    let ev = handle_authenticate(&auth, &mut sessions, 3, "k1");
    assert!(matches!(ev, Event::AuthSuccess(a) if a.account_id == 7));
    assert_eq!(sessions.get_account_id(3), Some(7));

    let ev = handle_authenticate(&auth, &mut sessions, 4, "nope");
    match ev {
        Event::AuthFailure(f) => assert_eq!(f.reason, "Invalid API key"),
        other => panic!("unexpected {:?}", other),
    }
    assert!(!sessions.is_authenticated(4));
}

#[test]
fn unauthenticated_orders_are_refused_where_enforced() {
    let mut mgr = AccountManager::new();
    let mut sessions = SessionManager::new();
    let order = buy(5, 1, 100, 1);

    let ev = authentication_gate(&mut mgr, &sessions, 9, true, &order).unwrap();
    match ev {
        Event::Reject(r) => {
            assert_eq!(r.server_seq, 1);
            assert_eq!(r.order_id, Some(5));
            assert_eq!(r.reason, RejectReason::Invalid);
        }
        other => panic!("unexpected {:?}", other),
    }
    // Not enforced (binary protocol), or not an order, or authenticated: it goes on.
    assert!(authentication_gate(&mut mgr, &sessions, 9, false, &order).is_none());
    let query = Command::QueryAccount(QueryAccount { client_seq: 1, account_id: 1, symbol_id: 1 });
    assert!(authentication_gate(&mut mgr, &sessions, 9, true, &query).is_none());
    sessions.register(9, 1);
    assert!(authentication_gate(&mut mgr, &sessions, 9, true, &order).is_none());
    assert_eq!(mgr.next_seq(), 2);
}
