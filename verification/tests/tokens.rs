use kx_gateway::tokens::{AppTokenStore, HostedOrigins};

#[test]
fn hosted_origins_allow_only_live_loopback_ports() {
    let mut o = HostedOrigins::new();
    assert!(!o.allows("http://127.0.0.1:5173"), "nothing live yet");
    o.insert(5173);
    assert!(o.allows("http://127.0.0.1:5173"));
    assert!(o.allows("http://localhost:5173"));
    assert!(!o.allows("https://127.0.0.1:5173"), "https is not served");
    assert!(!o.allows("http://127.0.0.1:5174"), "a different port");
    assert!(!o.allows("http://evil.example:5173"), "not loopback");
    o.remove(5173);
    assert!(!o.allows("http://127.0.0.1:5173"), "gone when the app stops");
}

#[test]
fn a_minted_token_resolves_to_its_own_scope_and_nothing_else() {
    let mut store = AppTokenStore::new();
    let t = store.mint("alice@acme", "apps/local/site", vec!["apps/local/research".into()]).unwrap();
    let scope = store.resolve(&t).expect("the minted token resolves");
    assert_eq!(scope.party, "alice@acme");
    assert!(scope.runnable.contains(&"apps/local/research".to_string()));
    assert!(!scope.runnable.contains(&"apps/local/payroll".to_string()), "undeclared App refused");
    assert!(store.resolve("not-a-token").is_none());
}

#[test]
fn re_minting_invalidates_the_previous_token() {
    let mut store = AppTokenStore::new();
    let first = store.mint("alice@acme", "apps/local/site", vec![]).unwrap();
    let second = store.mint("alice@acme", "apps/local/site", vec![]).unwrap();
    assert_ne!(first, second);
    assert!(store.resolve(&first).is_none(), "the old token is dead");
    assert!(store.resolve(&second).is_some());
}

#[test]
fn revoke_drops_only_that_apps_tokens() {
    let mut store = AppTokenStore::new();
    let mine = store.mint("alice@acme", "apps/local/site", vec![]).unwrap();
    let other = store.mint("alice@acme", "apps/local/other", vec![]).unwrap();
    store.revoke("alice@acme", "apps/local/site");
    assert!(store.resolve(&mine).is_none());
    assert!(store.resolve(&other).is_some(), "a sibling app is untouched");
}

#[test]
fn tokens_are_unguessable_and_distinct() {
    let mut store = AppTokenStore::new();
    let a = store.mint("alice@acme", "apps/local/site", vec![]).unwrap();
    let b = store.mint("alice@acme", "apps/local/other", vec![]).unwrap();
    assert_ne!(a, b);
    assert_eq!(a.len(), 64, "32 bytes hex-encoded");
    assert!(!a.contains("site") && !a.contains("alice"));
    assert!(a.chars().all(|c| c.is_ascii_hexdigit() && !c.is_ascii_uppercase()));
}

#[test]
fn another_party_revoking_the_same_handle_leaves_the_token_alive() {
    let mut store = AppTokenStore::new();
    let t = store.mint("alice@acme", "apps/local/site", vec![]).unwrap();
    store.revoke("bob@acme", "apps/local/site");
    assert!(store.resolve(&t).is_some());
}

#[test]
fn a_port_inserted_twice_is_removed_once() {
    let mut o = HostedOrigins::new();
    o.insert(3000);
    o.insert(3000);
    assert!(o.allows("http://127.0.0.1:3000"));
    o.remove(3000);
    assert!(!o.allows("http://localhost:3000"));
}

#[test]
fn allows_reads_any_origin_text_strictly() {
    let mut o = HostedOrigins::default();
    o.insert(80);
    assert!(o.allows("http://localhost:80"));
    assert!(o.allows("http://localhost:+80"), "the port text reads as str::parse reads it");
    assert!(o.allows("http://localhost:0080"));
    assert!(!o.allows("http://localhost:80:80"), "no second colon");
    assert!(!o.allows("http://localhost:"), "no port");
    assert!(!o.allows("http://localhost:65616"), "not a u16");
    assert!(!o.allows("HTTP://localhost:80"));
    assert!(!o.allows("http://LOCALHOST:80"));
}

#[test]
fn every_live_token_is_sixty_four_lower_case_hex_digits() {
    let mut store = AppTokenStore::default();
    let t = store.mint("p", "h", vec![]).unwrap();
    assert_eq!(t.len(), 64);
    assert!(t.chars().all(|c| c.is_ascii_hexdigit() && !c.is_ascii_uppercase()));
    assert!(store.resolve(&t.to_uppercase()).is_none());
}

#[test]
fn installing_a_drawn_token_replaces_the_apps_previous_tokens() {
    let mut store = AppTokenStore::new();
    let first = store.install_token(&[0xab; 32], "p", "h", vec![]);
    assert_eq!(first, "ab".repeat(32));
    let second = store.install_token(&[0x01; 32], "p", "h", vec!["x".into()]);
    assert_eq!(second, "01".repeat(32));
    assert!(store.resolve(&first).is_none(), "the app's earlier token no longer resolves");
    let other = store.install_token(&[0x02; 32], "q", "h", vec![]);
    assert!(store.resolve(&second).is_some(), "another app's install leaves it alone");
    assert_eq!(store.resolve(&other).unwrap().party, "q");
}
