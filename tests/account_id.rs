use near_collections::account_id::{
    is_valid_account_id, AccountId, ParseAccountIdErrorKind,
};
use std::convert::TryFrom;

#[test]
fn test_from_str() {
    let key = AccountId::try_from("alice.near").unwrap();
    assert_eq!(key.as_ref(), &"alice.near".to_string());
}

#[test]
fn invalid_account_ids_are_rejected() {
    let err = AccountId::try_from("Alice.near").unwrap_err();
    assert_eq!(err.kind, ParseAccountIdErrorKind::InvalidAccountId);
    assert_eq!(err.message(), "the account ID is invalid");
    for bad in ["a", ".near", "alice.", "al..ice", "a-_b", "", &"a".repeat(65)] {
        assert!(!is_valid_account_id(bad.as_bytes()), "{}", bad);
    }
    for good in ["ab", "alice.near", "a-b_c.d", "0", &"a".repeat(64)] {
        assert_eq!(is_valid_account_id(good.as_bytes()), good.len() >= 2, "{}", good);
    }
}

#[test]
fn account_id_accessors() {
    let id = AccountId::new_unchecked("bob.near".to_string());
    assert_eq!(id.as_str(), "bob.near");
    assert_eq!(id.as_bytes(), b"bob.near");
    assert_eq!(id.into_string(), "bob.near".to_string());
}

#[test]
fn parse_checks_rules() {
    let key: AccountId = "alice.near".parse().unwrap();
    assert_eq!(key.as_str(), "alice.near");
    assert!("Alice.near".parse::<AccountId>().is_err());
}
