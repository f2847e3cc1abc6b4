use high_perf_trading::session::SessionManager;

#[test]
fn test_register_and_get() {
    let mut sm = SessionManager::new();
    assert!(!sm.is_authenticated(1));
    assert_eq!(sm.get_account_id(1), None);
    sm.register(1, 100);
    assert!(sm.is_authenticated(1));
    assert_eq!(sm.get_account_id(1), Some(100));
}

#[test]
fn test_unregister() {
    let mut sm = SessionManager::new();
    sm.register(1, 100);
    assert!(sm.is_authenticated(1));
    let account_id = sm.unregister(1);
    assert_eq!(account_id, Some(100));
    assert!(!sm.is_authenticated(1));
    assert_eq!(sm.get_account_id(1), None);
    assert_eq!(sm.unregister(1), None);
}

#[test]
fn test_session_count() {
    let mut sm = SessionManager::new();
    assert_eq!(sm.session_count(), 0);
    sm.register(1, 100);
    sm.register(2, 200);
    sm.register(3, 300);
    assert_eq!(sm.session_count(), 3);
    sm.unregister(2);
    assert_eq!(sm.session_count(), 2);
}

#[test]
fn test_get_all_sessions() {
    let mut sm = SessionManager::new();
    sm.register(1, 100);
    sm.register(2, 200);
    sm.register(3, 300);
    let all = sm.get_all_sessions();
    assert_eq!(all.len(), 3);
    assert_eq!(all.get(&1), Some(&100));
    assert_eq!(all.get(&2), Some(&200));
    assert_eq!(all.get(&3), Some(&300));
}

#[test]
fn test_multiple_sessions_same_account() {
    let mut sm = SessionManager::default();
    sm.register(1, 100);
    sm.register(2, 100);
    sm.register(3, 100);
    assert_eq!(sm.get_account_id(1), Some(100));
    assert_eq!(sm.get_account_id(2), Some(100));
    assert_eq!(sm.get_account_id(3), Some(100));
    assert_eq!(sm.session_count(), 3);
}
