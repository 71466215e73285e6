use corelamo::auth::token::{lower_hex, token_still_valid, TOKEN_LIFETIME_NANOS};
use corelamo::auth::{default_policy, Permission, PolicyStore, Principal, Token, TokenStore};

#[test]
fn command_names_map_to_permissions() {
    assert_eq!(Permission::command_str("Search"), Some(Permission::Search));
    assert_eq!(Permission::command_str("DeleteLogs"), Some(Permission::ClearLogs));
    assert_eq!(Permission::command_str("RestartDB"), Some(Permission::RestartDB));
    assert_eq!(Permission::command_str("search"), None);
    assert_eq!(Permission::command_str(""), None);
}

#[test]
fn policy_grants_per_role() {
    let mut p = PolicyStore::new();
    assert!(!p.role_has_permission("r", &Permission::Search));
    p.grant("r", Permission::Search);
    p.grant("r", Permission::Search);
    p.grant_many("s", &[Permission::Insert, Permission::Delete]);
    assert!(p.role_has_permission("r", &Permission::Search));
    assert!(!p.role_has_permission("r", &Permission::Insert));
    assert!(p.role_has_permission("s", &Permission::Delete));
    assert!(!p.role_has_permission("t", &Permission::Delete));
}

#[test]
fn default_roles() {
    let p = default_policy();
    assert!(p.role_has_permission("admin", &Permission::Restore));
    assert!(p.role_has_permission("admin", &Permission::ListUsers));
    assert!(p.role_has_permission("architect", &Permission::SetPolicy));
    assert!(!p.role_has_permission("architect", &Permission::Insert));
    assert!(p.role_has_permission("viewer", &Permission::Lookup));
    assert!(!p.role_has_permission("viewer", &Permission::Insert));
    assert!(p.role_has_permission("editor", &Permission::Upsert));
    assert!(!p.role_has_permission("editor", &Permission::CreateUser));
    assert!(!p.role_has_permission("guest", &Permission::Search));
}

#[test]
fn principal_roles_are_a_set() {
    let p = Principal::new("alice").with_role("admin").with_role("viewer").with_role("admin");
    assert_eq!(p.id.0, "alice");
    assert_eq!(p.roles, vec!["admin".to_string(), "viewer".to_string()]);
}

#[test]
fn lower_hex_writes_two_digits_per_byte() {
    assert_eq!(lower_hex(&[]), "");
    assert_eq!(lower_hex(&[0, 1, 15, 16, 255]), "00010f10ff");
}

#[test]
fn token_validity_window() {
    assert!(token_still_valid(Some(0)));
    assert!(token_still_valid(Some(TOKEN_LIFETIME_NANOS)));
    assert!(!token_still_valid(Some(TOKEN_LIFETIME_NANOS + 1)));
    assert!(!token_still_valid(None));
}

#[test]
fn issued_tokens_resolve_until_revoked() {
    let mut store = TokenStore::new();
    let t1 = store.issue("alice".to_string());
    let t2 = store.issue("bob".to_string());
    let t3 = store.issue("alice".to_string());
    assert_eq!(t1.0.len(), 64);
    assert_ne!(t1.0, t2.0);
    assert_eq!(store.resolve_username(&t1), Some("alice".to_string()));
    assert_eq!(store.resolve_username(&t2), Some("bob".to_string()));
    store.revoke(&t2);
    assert_eq!(store.resolve_username(&t2), None);
    store.revoke_all_for("alice");
    assert_eq!(store.resolve_username(&t1), None);
    assert_eq!(store.resolve_username(&t3), None);
    assert_eq!(store.resolve_username(&Token("nope".to_string())), None);
}
