use high_perf_trading::accounts::{AccountManager, AccountUpdate, RiskViolation};
use high_perf_trading::persistence::{encode_frame, read_frames, Snapshot};
use high_perf_trading::types::{Command, Event, Fill, NewOrder, OrderFlags, Replace, Side, TimeInForce};

fn make_test_order(account_id: u32, symbol_id: u32, side: Side, price: i64, qty: i64) -> NewOrder {
    NewOrder {
        client_seq: 1,
        order_id: 1,
        account_id,
        symbol_id,
        side,
        price,
        qty,
        tif: TimeInForce::Gtc,
        flags: OrderFlags { post_only: false },
    }
}

fn make_test_replace(account_id: u32, symbol_id: u32, order_id: u64, new_price: i64, new_qty: i64) -> Replace {
    Replace { client_seq: 2, order_id, account_id, symbol_id, new_price, new_qty }
}

fn update_bytes(u: &AccountUpdate) -> Vec<u8> {
    match u {
        AccountUpdate::CreateAccount { account_id, buying_power } => {
            let mut v = account_id.to_le_bytes().to_vec();
            v.extend_from_slice(&buying_power.to_le_bytes());
            v
        }
    }
}

fn update_from_bytes(b: &[u8]) -> AccountUpdate {
    let account_id = u32::from_le_bytes([b[0], b[1], b[2], b[3]]);
    let mut bp = [0u8; 8];
    bp.copy_from_slice(&b[4..12]);
    AccountUpdate::CreateAccount { account_id, buying_power: i64::from_le_bytes(bp) }
}

#[test]
fn test_create_account() {
    let mut mgr = AccountManager::new();
    mgr.create_account(100, 50000);
    let account = mgr.get_account(100).unwrap();
    assert_eq!(account.buying_power, 50000);
    assert_eq!(account.tentative_reserved, 0);
}

#[test]
fn test_check_and_reserve_sufficient_funds() {
    let mut mgr = AccountManager::new();
    mgr.create_account(100, 100000);
    let order = make_test_order(100, 1, Side::Buy, 50000, 1);
    let result = mgr.check_and_reserve(&Command::NewOrder(order));
    assert!(result.is_ok());
    let token = result.unwrap();
    assert_eq!(token.amount, 50000);
    let account = mgr.get_account(100).unwrap();
    assert_eq!(account.tentative_reserved, 50000);
}

#[test]
fn test_check_and_reserve_insufficient_funds() {
    let mut mgr = AccountManager::new();
    mgr.create_account(100, 30000);
    let order = make_test_order(100, 1, Side::Buy, 50000, 1);
    let result = mgr.check_and_reserve(&Command::NewOrder(order));
    assert_eq!(result.unwrap_err(), RiskViolation::InsufficientFunds);
}

#[test]
fn test_double_spend_prevention() {
    let mut mgr = AccountManager::new();
    mgr.create_account(100, 100000);
    let order1 = make_test_order(100, 1, Side::Buy, 60000, 1);
    let order2 = make_test_order(100, 1, Side::Buy, 60000, 1);
    let result1 = mgr.check_and_reserve(&Command::NewOrder(order1));
    assert!(result1.is_ok());
    let result2 = mgr.check_and_reserve(&Command::NewOrder(order2));
    assert_eq!(result2.unwrap_err(), RiskViolation::InsufficientFunds);
}

#[test]
fn test_release_reservation() {
    let mut mgr = AccountManager::new();
    mgr.create_account(100, 100000);
    let order = make_test_order(100, 1, Side::Buy, 50000, 1);
    let token = mgr.check_and_reserve(&Command::NewOrder(order)).unwrap();
    mgr.release_reservation(&token);
    let order2 = make_test_order(100, 1, Side::Buy, 50000, 1);
    let result = mgr.check_and_reserve(&Command::NewOrder(order2));
    assert!(result.is_ok());
}

#[test]
fn test_sell_order_no_reservation() {
    let mut mgr = AccountManager::new();
    mgr.create_account(100, 0);
    let order = make_test_order(100, 1, Side::Sell, 50000, 1);
    let result = mgr.check_and_reserve(&Command::NewOrder(order));
    assert!(result.is_ok());
    assert_eq!(result.unwrap().amount, 0);
}

#[test]
fn test_account_not_found() {
    let mut mgr = AccountManager::new();
    let order = make_test_order(999, 1, Side::Buy, 50000, 1);
    let result = mgr.check_and_reserve(&Command::NewOrder(order));
    assert_eq!(result.unwrap_err(), RiskViolation::AccountNotFound);
}

#[test]
fn test_cancel_releases_reservation() {
    let mut mgr = AccountManager::new();
    mgr.create_account(100, 100000);
    let order = make_test_order(100, 1, Side::Buy, 50000, 1);
    let token = mgr.check_and_reserve(&Command::NewOrder(order)).unwrap();
    let account = mgr.get_account(100).unwrap();
    assert_eq!(account.tentative_reserved, 50000);
    mgr.release_reservation(&token);
    let account = mgr.get_account(100).unwrap();
    assert_eq!(account.tentative_reserved, 0);
}

#[test]
fn test_replace_adjust_reservation() {
    let mut mgr = AccountManager::new();
    mgr.create_account(100, 100000);
    let order = make_test_order(100, 1, Side::Buy, 50000, 1);
    let old_token = mgr.check_and_reserve(&Command::NewOrder(order)).unwrap();
    let account = mgr.get_account(100).unwrap();
    assert_eq!(account.tentative_reserved, 50000);
    assert_eq!(account.buying_power, 100000);
    let replace = make_test_replace(100, 1, 1, 60000, 1);
    let new_token = mgr.adjust_reservation(&old_token, &replace).unwrap();
    let account = mgr.get_account(100).unwrap();
    assert_eq!(account.tentative_reserved, 60000);
    assert_eq!(new_token.amount, 60000);
}

#[test]
fn test_replace_insufficient_funds() {
    let mut mgr = AccountManager::new();
    mgr.create_account(100, 60000);
    let order = make_test_order(100, 1, Side::Buy, 50000, 1);
    let old_token = mgr.check_and_reserve(&Command::NewOrder(order)).unwrap();
    let replace = make_test_replace(100, 1, 1, 100000, 1);
    let result = mgr.adjust_reservation(&old_token, &replace);
    assert_eq!(result.unwrap_err(), RiskViolation::InsufficientFunds);
    let account = mgr.get_account(100).unwrap();
    assert_eq!(account.tentative_reserved, 50000);
}

#[test]
fn test_replace_decrease_price() {
    let mut mgr = AccountManager::new();
    mgr.create_account(100, 100000);
    let order = make_test_order(100, 1, Side::Buy, 60000, 1);
    let old_token = mgr.check_and_reserve(&Command::NewOrder(order)).unwrap();
    assert_eq!(mgr.get_account(100).unwrap().tentative_reserved, 60000);
    let replace = make_test_replace(100, 1, 1, 40000, 1);
    let new_token = mgr.adjust_reservation(&old_token, &replace).unwrap();
    let account = mgr.get_account(100).unwrap();
    assert_eq!(account.tentative_reserved, 40000);
    assert_eq!(new_token.amount, 40000);
}

#[test]
fn test_persistence_journal_roundtrip() {
    let mut mgr = AccountManager::new();
    let mut journal: Vec<u8> = Vec::new();
    let u1 = mgr.create_account(1, 100000);
    journal.extend(encode_frame(&update_bytes(&u1)));
    let u2 = mgr.create_account(2, 200000);
    journal.extend(encode_frame(&update_bytes(&u2)));

    let frames = read_frames(&journal).unwrap();
    let updates: Vec<AccountUpdate> = frames.iter().map(|f| update_from_bytes(f)).collect();
    assert_eq!(updates.len(), 2);

    let mut mgr2 = AccountManager::new();
    mgr2.replay_journal(updates);
    let acc1 = mgr2.get_account(1).unwrap();
    assert_eq!(acc1.buying_power, 100000);
    let acc2 = mgr2.get_account(2).unwrap();
    assert_eq!(acc2.buying_power, 200000);
}

#[test]
fn test_persistence_snapshot_roundtrip() {
    let mut mgr = AccountManager::new();
    mgr.create_account(1, 100000);
    mgr.create_account(2, 200000);

    let snapshot = mgr.create_snapshot(42);
    assert_eq!(snapshot.sequence, 42);
    assert_eq!(snapshot.accounts.len(), 2);

    let file = Snapshot { sequence: snapshot.sequence, data: vec![7, 7, 7] }.to_file_bytes();
    let loaded = Snapshot::from_file_bytes(&file).unwrap();
    assert_eq!(loaded.sequence, 42);
    assert_eq!(snapshot.accounts.len(), 2);

    let mut mgr2 = AccountManager::new();
    mgr2.restore_from_snapshot(&snapshot);
    let acc1 = mgr2.get_account(1).unwrap();
    assert_eq!(acc1.buying_power, 100000);
    let acc2 = mgr2.get_account(2).unwrap();
    assert_eq!(acc2.buying_power, 200000);
}

#[test]
fn test_persistence_fill_replay() {
    let mut mgr = AccountManager::new();
    let u = mgr.create_account(1, 100000);
    let journal = encode_frame(&update_bytes(&u));
    let updates: Vec<AccountUpdate> = read_frames(&journal).unwrap().iter().map(|f| update_from_bytes(f)).collect();
    let mut mgr2 = AccountManager::new();
    mgr2.replay_journal(updates);
    let acc = mgr2.get_account(1).unwrap();
    assert_eq!(acc.buying_power, 100000);
}

#[test]
fn test_multiple_orders_with_cancel() {
    let mut mgr = AccountManager::new();
    mgr.create_account(100, 100000);
    let order1 = make_test_order(100, 1, Side::Buy, 30000, 1);
    let token1 = mgr.check_and_reserve(&Command::NewOrder(order1)).unwrap();
    let order2 = NewOrder { order_id: 2, ..make_test_order(100, 1, Side::Buy, 30000, 1) };
    let token2 = mgr.check_and_reserve(&Command::NewOrder(order2)).unwrap();
    let account = mgr.get_account(100).unwrap();
    assert_eq!(account.tentative_reserved, 60000);
    mgr.release_reservation(&token1);
    let account = mgr.get_account(100).unwrap();
    assert_eq!(account.tentative_reserved, 30000);
    let order3 = NewOrder { order_id: 3, ..make_test_order(100, 1, Side::Buy, 30000, 1) };
    let result = mgr.check_and_reserve(&Command::NewOrder(order3));
    assert!(result.is_ok());
    let account = mgr.get_account(100).unwrap();
    assert_eq!(account.tentative_reserved, 60000);
    mgr.release_reservation(&token2);
    mgr.release_reservation(&result.unwrap());
    let account = mgr.get_account(100).unwrap();
    assert_eq!(account.tentative_reserved, 0);
}

#[test]
fn limits_are_checked_before_funds() {
    let mut mgr = AccountManager::new();
    mgr.create_account(5, 1_000_000_000);
    let big = make_test_order(5, 1, Side::Buy, 1, 1001);
    assert_eq!(mgr.check_and_reserve(&Command::NewOrder(big)), Err(RiskViolation::OrderSizeTooLarge));
    let negative = make_test_order(5, 1, Side::Sell, 1, -1001);
    assert_eq!(mgr.check_and_reserve(&Command::NewOrder(negative)), Err(RiskViolation::OrderSizeTooLarge));
    for i in 0..10u64 {
        let o = NewOrder { order_id: i, ..make_test_order(5, 1, Side::Sell, 1, 1000) };
        assert!(mgr.check_and_reserve(&Command::NewOrder(o)).is_ok());
        let fill = Event::Fill(Fill { server_seq: 1, client_seq: 1, symbol_id: 1, taker_order_id: 0, maker_order_id: i, price: 1, qty: 1000 });
        let t = high_perf_trading::accounts::ReservationToken { account_id: 5, symbol_id: 1, amount: 0, order_id: i };
        mgr.apply_fill(&fill, &t, false);
    }
    let short = make_test_order(5, 1, Side::Sell, 1, 1);
    assert_eq!(mgr.check_and_reserve(&Command::NewOrder(short)), Err(RiskViolation::PositionLimitExceeded));
    let acc = mgr.get_account(5).unwrap();
    assert_eq!(acc.get_position(1).net_position, -10000);
    assert_eq!(acc.buying_power, 1_000_010_000);
}

#[test]
fn fill_settles_reservation_and_moves_buying_power() {
    let mut mgr = AccountManager::new();
    mgr.create_account(1, 10000);
    let o = make_test_order(1, 3, Side::Buy, 100, 10);
    let t = mgr.check_and_reserve(&Command::NewOrder(o)).unwrap();
    assert_eq!(mgr.get_tentative_reserved(1), 1000);
    let fill = Event::Fill(Fill { server_seq: 1, client_seq: 1, symbol_id: 3, taker_order_id: 9, maker_order_id: 1, price: 99, qty: 10 });
    mgr.apply_fill(&fill, &t, true);
    let acc = mgr.get_account(1).unwrap();
    assert_eq!(acc.tentative_reserved, 0);
    assert_eq!(acc.buying_power, 10000 - 990);
    assert_eq!(acc.get_position(3).net_position, 10);
    assert_eq!(acc.get_position(3).avg_price, 99);
    mgr.set_tentative_reserved(1, 5);
    assert_eq!(mgr.get_tentative_reserved(1), 5);
    assert_eq!(mgr.get_tentative_reserved(77), 0);
    assert_eq!(mgr.next_seq(), 1);
    assert_eq!(mgr.next_seq(), 2);
}
