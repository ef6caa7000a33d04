use kiro_admin::admin::{
    accepted_key, constant_time_eq, force_requested, is_authorized, requested_enabled, AdminKey,
    KeyUpdateError,
};

#[test]
fn constant_time_eq_is_equality() {
    assert!(constant_time_eq("secret", "secret"));
    assert!(constant_time_eq("", ""));
    assert!(!constant_time_eq("secret", "secreT"));
    assert!(!constant_time_eq("secret", "secret1"));
    assert!(!constant_time_eq("é", "e"));
}

#[test]
fn authorization_needs_the_current_key() {
    assert!(is_authorized(Some("k1"), "k1"));
    assert!(!is_authorized(Some("k2"), "k1"));
    assert!(!is_authorized(None, "k1"));
    assert!(!is_authorized(None, ""));
}

#[test]
fn new_keys_are_trimmed_and_non_empty() {
    assert_eq!(accepted_key("  new-key \n").as_deref(), Some("new-key"));
    assert_eq!(accepted_key("a b"), Some("a b".to_string()));
    assert_eq!(accepted_key("   "), None);
    assert_eq!(accepted_key(""), None);
    assert_eq!(accepted_key("\u{3000}x\u{a0}").as_deref(), Some("x"));
}

#[test]
fn force_flag() {
    assert!(force_requested(Some("true")));
    assert!(force_requested(Some("1")));
    assert!(!force_requested(Some("TRUE")));
    assert!(!force_requested(Some("yes")));
    assert!(!force_requested(None));
}

#[test]
fn enabled_flag_defaults_to_true() {
    assert!(requested_enabled(None));
    assert!(requested_enabled(Some(true)));
    assert!(!requested_enabled(Some(false)));
}

#[test]
fn key_update_then_requests() {
    let mut key = AdminKey::new("k1");
    assert_eq!(key.current(), "k1");
    assert!(key.authorizes(Some("k1")));
    assert_eq!(key.update(" k2 "), Ok(()));
    assert_eq!(key.current(), "k2");
    assert!(key.authorizes(Some("k2")));
    assert!(!key.authorizes(Some("k1")));
    assert!(!key.authorizes(Some(" k2 ")));
    assert!(!key.authorizes(None));
}

#[test]
fn refused_key_update_keeps_the_key() {
    let mut key = AdminKey::new("k1");
    assert_eq!(key.update("  \t "), Err(KeyUpdateError::EmptyKey));
    assert_eq!(key.update(""), Err(KeyUpdateError::EmptyKey));
    assert_eq!(key.current(), "k1");
    assert!(key.authorizes(Some("k1")));
}
