use high_perf_trading::risk::AccountManager;
use high_perf_trading::types::{RejectReason, RiskLimits, Side};

fn default_limits() -> RiskLimits {
    RiskLimits { max_long_position: 100, max_short_position: 100, max_order_size: 50 }
}

#[test]
fn test_risk_check_order_size() {
    let mgr = AccountManager::new(default_limits());
    assert!(mgr.check_risk(1, Side::Buy, 50).is_ok());
    assert_eq!(mgr.check_risk(1, Side::Buy, 51), Err(RejectReason::Risk));
}

#[test]
fn test_risk_check_position_limit() {
    let mut mgr = AccountManager::new(default_limits());
    assert!(mgr.check_risk(1, Side::Buy, 50).is_ok());
    mgr.apply_fill(1, Side::Buy, 100, 50);
    assert!(mgr.check_risk(1, Side::Buy, 40).is_ok());
    mgr.apply_fill(1, Side::Buy, 100, 40);
    assert_eq!(mgr.check_risk(1, Side::Buy, 20), Err(RejectReason::Risk));
}

#[test]
fn test_position_tracking_long() {
    let mut mgr = AccountManager::new(default_limits());
    mgr.apply_fill(1, Side::Buy, 100, 10);
    let pos = mgr.get_position(1);
    assert_eq!(pos.net_position, 10);
    assert_eq!(pos.avg_price, 100);
    assert_eq!(pos.realized_pnl, 0);

    mgr.apply_fill(1, Side::Buy, 110, 10);
    let pos = mgr.get_position(1);
    assert_eq!(pos.net_position, 20);
    assert_eq!(pos.avg_price, 105);
}

#[test]
fn test_position_tracking_close_long() {
    let mut mgr = AccountManager::new(default_limits());
    mgr.apply_fill(1, Side::Buy, 100, 10);
    mgr.apply_fill(1, Side::Sell, 110, 5);
    let pos = mgr.get_position(1);
    assert_eq!(pos.net_position, 5);
    assert_eq!(pos.realized_pnl, 50);
}

#[test]
fn test_position_tracking_reverse() {
    let mut mgr = AccountManager::new(default_limits());
    mgr.apply_fill(1, Side::Buy, 100, 10);
    mgr.apply_fill(1, Side::Sell, 110, 15);
    let pos = mgr.get_position(1);
    assert_eq!(pos.net_position, -5);
    assert_eq!(pos.realized_pnl, 100);
    assert_eq!(pos.avg_price, 110);
}

#[test]
fn test_custom_limits() {
    let mut mgr = AccountManager::new(default_limits());
    mgr.set_limits(1, RiskLimits { max_long_position: 10, max_short_position: 10, max_order_size: 5 });
    assert_eq!(mgr.check_risk(1, Side::Buy, 6), Err(RejectReason::Risk));
    assert!(mgr.check_risk(2, Side::Buy, 50).is_ok());
}

#[test]
fn short_limit_and_short_averaging() {
    let mut mgr = AccountManager::new(default_limits());
    assert_eq!(mgr.check_risk(3, Side::Sell, 50), Ok(()));
    mgr.apply_fill(3, Side::Sell, 100, 40);
    mgr.apply_fill(3, Side::Sell, 90, 40);
    let pos = mgr.get_position(3);
    assert_eq!(pos.net_position, -80);
    assert_eq!(pos.avg_price, 95);
    assert_eq!(mgr.check_risk(3, Side::Sell, 21), Err(RejectReason::Risk));
    assert_eq!(mgr.check_risk(3, Side::Sell, 20), Ok(()));
    mgr.apply_fill(3, Side::Buy, 85, 80);
    let pos = mgr.get_position(3);
    assert_eq!(pos.net_position, 0);
    assert_eq!(pos.realized_pnl, 800);
}

#[test]
fn round_trip_realizes_price_difference() {
    let mut mgr = AccountManager::new(default_limits());
    mgr.apply_fill(4, Side::Buy, 100, 7);
    mgr.apply_fill(4, Side::Sell, 97, 7);
    let pos = mgr.get_position(4);
    assert_eq!(pos.net_position, 0);
    assert_eq!(pos.realized_pnl, -21);
}

#[test]
fn accounts_with_positions_lists_non_flat_accounts() {
    let mut mgr = AccountManager::new(default_limits());
    mgr.apply_fill(1, Side::Buy, 100, 10);
    mgr.apply_fill(2, Side::Buy, 100, 10);
    mgr.apply_fill(2, Side::Sell, 100, 10);
    mgr.apply_fill(3, Side::Sell, 100, 1);
    let mut ids = mgr.accounts_with_positions();
    ids.sort();
    assert_eq!(ids, vec![1, 3]);
    assert_eq!(mgr.account_count(), 3);
    assert!(mgr.can_apply_fill(1, Side::Buy, 100, 1));
    assert!(!mgr.can_apply_fill(1, Side::Buy, i64::MAX, i64::MAX));
    assert_eq!(mgr.get_limits(9), default_limits());
}
