use kx_gateway::auth::{DenyAll, DevAllowLocal, TokenMap, TokenResolver};

fn token_resolver() -> TokenResolver {
    let mut tokens = TokenMap::new();
    tokens.insert("s3cr3t".to_string(), "alice@acme".to_string());
    TokenResolver::new(tokens)
}

#[test]
fn deny_all_rejects_with_unauthenticated() {
    let err = DenyAll.resolve(None).unwrap_err();
    assert!(err.message.contains("--dev-allow-local"));
}

#[test]
fn dev_allow_local_attributes_a_local_principal() {
    let principal = DevAllowLocal.resolve(None).unwrap();
    assert_eq!(principal.subject, "local-dev");
    assert_eq!(principal.party, "local-dev");
}

#[test]
fn token_resolver_maps_valid_bearer_to_party() {
    let p = token_resolver().resolve(Some("Bearer s3cr3t")).unwrap();
    assert_eq!(p.party, "alice@acme");
    assert_eq!(p.subject, "alice@acme");
}

#[test]
fn token_resolver_rejects_missing_authorization() {
    assert!(token_resolver().resolve(None).is_err());
}

#[test]
fn token_resolver_rejects_non_bearer_scheme() {
    assert!(token_resolver().resolve(Some("Basic s3cr3t")).is_err());
}

#[test]
fn token_resolver_unknown_token_is_indistinguishable_from_missing() {
    let unknown = token_resolver().resolve(Some("Bearer nope")).unwrap_err();
    let missing = token_resolver().resolve(None).unwrap_err();
    assert_eq!(unknown, missing);
    assert_eq!(unknown.message, "invalid or missing bearer token");
}

#[test]
fn empty_token_resolver_is_empty() {
    assert!(TokenResolver::default().is_empty());
    assert!(!token_resolver().is_empty());
}

#[test]
fn a_later_insert_for_the_same_token_wins() {
    let mut tokens = TokenMap::new();
    tokens.insert("t".into(), "a".into());
    tokens.insert("t".into(), "b".into());
    assert_eq!(tokens.get("t").as_deref(), Some("b"));
    let r = TokenResolver::new(tokens);
    assert_eq!(r.resolve(Some("Bearer t")).unwrap().party, "b");
}
