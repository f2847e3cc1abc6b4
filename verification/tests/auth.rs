use high_perf_trading::auth::{AuthError, AuthService};

#[test]
fn test_register_and_authenticate() {
    let mut auth = AuthService::new();
    auth.register_api_key("test-key-123".to_string(), 42);
    let account_id = auth.authenticate("test-key-123").unwrap();
    assert_eq!(account_id, 42);
    assert!(auth.authenticate("invalid-key").is_err());
}

#[test]
fn test_has_api_key() {
    let mut auth = AuthService::new();
    auth.register_api_key("key1".to_string(), 1);
    assert!(auth.has_api_key("key1"));
    assert!(!auth.has_api_key("key2"));
}

#[test]
fn test_revoke_api_key() {
    let mut auth = AuthService::new();
    auth.register_api_key("key1".to_string(), 1);
    assert!(auth.has_api_key("key1"));
    assert!(auth.revoke_api_key("key1"));
    assert!(!auth.has_api_key("key1"));
    assert!(!auth.revoke_api_key("key1"));
}

#[test]
fn test_key_count() {
    let mut auth = AuthService::new();
    assert_eq!(auth.key_count(), 0);
    auth.register_api_key("key1".to_string(), 1);
    auth.register_api_key("key2".to_string(), 2);
    assert_eq!(auth.key_count(), 2);
    auth.revoke_api_key("key1");
    assert_eq!(auth.key_count(), 1);
}

#[test]
fn test_multiple_accounts() {
    let mut auth = AuthService::new();
    auth.register_api_key("alice-key".to_string(), 100);
    auth.register_api_key("bob-key".to_string(), 200);
    auth.register_api_key("charlie-key".to_string(), 300);
    assert_eq!(auth.authenticate("alice-key").unwrap(), 100);
    assert_eq!(auth.authenticate("bob-key").unwrap(), 200);
    assert_eq!(auth.authenticate("charlie-key").unwrap(), 300);
}

#[test]
fn registering_a_key_again_moves_it() {
    let mut auth = AuthService::default();
    auth.register_api_key("k".to_string(), 1);
    auth.register_api_key("k".to_string(), 2);
    assert_eq!(auth.key_count(), 1);
    assert_eq!(auth.authenticate("k"), Ok(2));
    assert_eq!(auth.authenticate("other"), Err(AuthError::InvalidApiKey));
}
