use kx_gateway::auth::TokenMap;
use kx_gateway::config::{
    check_auth_posture, pair_tls, parse_token_file, split_token_party, validate_cors_origin, AuthSource,
    Cli, GatewayError, ServeArgs, DEFAULT_MAX_LEASE, DEFAULT_WS_LISTEN,
};
use std::path::PathBuf;

fn serve(cli: Cli) -> ServeArgs {
    match cli {
        Cli::Serve(c) => c,
        other => panic!("expected Serve, got {other:?}"),
    }
}

const BASE: [&str; 7] = ["serve", "--listen", "127.0.0.1:0", "--journal", "/tmp/j", "--content", "/tmp/c"];

fn with(extra: &[&'static str]) -> Vec<&'static str> {
    let mut a = BASE.to_vec();
    a.extend_from_slice(extra);
    a
}

#[test]
fn split_token_party_keeps_base64_padding_in_token() {
    assert_eq!(
        split_token_party("YWJj==alice@acme"),
        Some(("YWJj=".to_string(), "alice@acme".to_string()))
    );
    assert_eq!(split_token_party("noequals"), None);
    assert_eq!(split_token_party("=party"), None);
    assert_eq!(split_token_party("token="), None);
}

#[test]
fn parses_serve_with_all_flags() {
    let c = serve(
        Cli::from_args(&[
            "serve", "--listen", "127.0.0.1:50151", "--journal", "/tmp/kx.db", "--content", "/tmp/blobs",
            "--max-lease", "8", "--dev-allow-local",
        ])
        .unwrap(),
    );
    assert_eq!(c.listen, "127.0.0.1:50151");
    assert_eq!(c.journal_path, PathBuf::from("/tmp/kx.db"));
    assert_eq!(c.content_root, PathBuf::from("/tmp/blobs"));
    assert_eq!(c.max_lease, 8);
    assert!(c.dev_allow_local);
    assert_eq!(c.ws_listen, "127.0.0.1:50152");
    assert!(c.auth_sources.is_empty());
    assert!(c.tls.is_none());
    assert!(c.cors_origins.is_empty());
}

#[test]
fn ws_listen_parses_and_defaults() {
    let c = serve(Cli::from_args(&BASE).unwrap());
    assert_eq!(c.ws_listen, "127.0.0.1:50152");
    assert_eq!(c.ws_listen, DEFAULT_WS_LISTEN);
    let c = serve(Cli::from_args(&with(&["--ws-listen", "127.0.0.1:0"])).unwrap());
    assert_eq!(c.ws_listen, "127.0.0.1:0");
}

#[test]
fn max_lease_defaults_and_dev_allow_defaults_off() {
    let c = serve(Cli::from_args(&BASE).unwrap());
    assert_eq!(c.max_lease, DEFAULT_MAX_LEASE);
    assert!(!c.dev_allow_local, "deny-all is the default posture");
}

#[test]
fn help_and_version_are_recognized() {
    assert!(matches!(Cli::from_args(&["--help"]).unwrap(), Cli::Help));
    assert!(matches!(Cli::from_args(&["-h"]).unwrap(), Cli::Help));
    assert!(matches!(Cli::from_args(&[]).unwrap(), Cli::Help));
    assert!(matches!(Cli::from_args(&["--version"]).unwrap(), Cli::Version));
    assert!(matches!(Cli::from_args(&["-V"]).unwrap(), Cli::Version));
}

#[test]
fn parses_auth_tokens_and_catalog_dir() {
    let c = serve(
        Cli::from_args(&with(&[
            "--auth-token", "tok-a=alice@acme", "--auth-token", "tok-b=bob@acme", "--catalog-dir", "/tmp/cat",
        ]))
        .unwrap(),
    );
    assert_eq!(
        c.auth_sources,
        vec![
            AuthSource::Token("tok-a".into(), "alice@acme".into()),
            AuthSource::Token("tok-b".into(), "bob@acme".into()),
        ]
    );
    assert_eq!(c.catalog_dir, Some(PathBuf::from("/tmp/cat")));
    assert!(!c.dev_allow_local);
}

#[test]
fn tls_cert_and_key_must_be_given_together() {
    let c = serve(Cli::from_args(&with(&["--tls-cert", "/tmp/cert.pem", "--tls-key", "/tmp/key.pem"])).unwrap());
    let tls = c.tls.expect("tls configured");
    assert_eq!(tls.cert_path, PathBuf::from("/tmp/cert.pem"));
    assert_eq!(tls.key_path, PathBuf::from("/tmp/key.pem"));
    assert!(Cli::from_args(&with(&["--tls-cert", "/tmp/cert.pem"])).is_err());
    assert!(Cli::from_args(&with(&["--tls-key", "/tmp/key.pem"])).is_err());
    assert!(serve(Cli::from_args(&BASE).unwrap()).tls.is_none());
}

#[test]
fn cors_origin_parses_repeatable_and_defaults_empty() {
    let c = serve(Cli::from_args(&BASE).unwrap());
    assert!(c.cors_origins.is_empty(), "deny-by-default: no browser origin is granted unless listed");
    let c = serve(
        Cli::from_args(&with(&["--cors-origin", "http://localhost:5173", "--cors-origin", "https://app.example.com"]))
            .unwrap(),
    );
    assert_eq!(c.cors_origins, vec!["http://localhost:5173".to_string(), "https://app.example.com".to_string()]);
}

#[test]
fn cors_origin_rejects_wildcard_and_malformed() {
    let base = |origin: &'static str| Cli::from_args(&with(&["--cors-origin", origin]));
    assert!(base("*").is_err(), "wildcard origin must be refused");
    assert!(base("null").is_err(), "opaque 'null' origin must be refused");
    assert!(base("NULL").is_err(), "case-insensitive 'null' refused");
    assert!(base("app.example.com").is_err());
    assert!(base("https://").is_err());
    assert!(base("").is_err());
    assert!(base("https://app.example.com").is_ok());
}

#[test]
fn auth_token_and_dev_allow_local_are_mutually_exclusive() {
    assert!(Cli::from_args(&with(&["--dev-allow-local", "--auth-token", "tok=alice"])).is_err());
}

#[test]
fn the_posture_and_tls_refusals_name_their_rule() {
    match Cli::from_args(&with(&["--auth-token", "tok=alice", "--dev-allow-local", "--tls-cert", "c"])) {
        Err(GatewayError::Config(m)) => {
            assert_eq!(m, "--dev-allow-local and --auth-token/--auth-token-file are mutually exclusive")
        }
        other => panic!("expected a config error, got {other:?}"),
    }
    match Cli::from_args(&with(&["--tls-key", "k"])) {
        Err(GatewayError::Config(m)) => assert_eq!(m, "--tls-cert and --tls-key must be given together"),
        other => panic!("expected a config error, got {other:?}"),
    }
    // Dev mode with only a token file parses: the file's tokens are checked once it is read.
    let c = serve(Cli::from_args(&with(&["--dev-allow-local", "--auth-token-file", "/tmp/t"])).unwrap());
    assert!(c.dev_allow_local);
    let mut tokens = TokenMap::new();
    tokens.insert("tok".to_string(), "alice".to_string());
    assert!(check_auth_posture(c.dev_allow_local, &tokens).is_err());
    assert!(check_auth_posture(true, &TokenMap::new()).is_ok());
    assert!(check_auth_posture(false, &tokens).is_ok());
    assert!(pair_tls(None, None).unwrap().is_none());
}

#[test]
fn token_file_parses_lines_and_skips_comments() {
    let mut tokens = TokenMap::new();
    let body = "# a comment\n\n  tok-a=alice@acme  \ntok-b=bob@acme\n# trailing\n";
    parse_token_file(body, &mut tokens).unwrap();
    assert_eq!(tokens.get("tok-a").as_deref(), Some("alice@acme"));
    assert_eq!(tokens.get("tok-b").as_deref(), Some("bob@acme"));
    let mut bad = TokenMap::new();
    assert!(parse_token_file("not-a-pair\n", &mut bad).is_err());
}

#[test]
fn rejects_missing_required_and_unknown() {
    assert!(Cli::from_args(&["serve", "--journal", "/tmp/j", "--content", "/tmp/c"]).is_err());
    assert!(Cli::from_args(&["serve", "--listen", "127.0.0.1:0"]).is_err());
    assert!(Cli::from_args(&["frobnicate"]).is_err());
    assert!(Cli::from_args(&with(&["--nope"])).is_err());
    assert!(Cli::from_args(&with(&["--max-lease", "0"])).is_err());
}

#[test]
fn a_value_flag_without_its_value_names_the_flag() {
    match Cli::from_args(&with(&["--catalog-dir"])) {
        Err(GatewayError::Config(m)) => assert_eq!(m, "--catalog-dir requires a value"),
        other => panic!("expected a config error, got {other:?}"),
    }
}

#[test]
fn a_cors_origin_is_kept_verbatim() {
    assert_eq!(validate_cors_origin("http://localhost:5173"), Ok("http://localhost:5173".to_string()));
}

#[test]
fn a_later_token_line_overrides_an_earlier_one() {
    let mut tokens = TokenMap::new();
    parse_token_file("tok=alice\ntok=bob\n", &mut tokens).unwrap();
    assert_eq!(tokens.get("tok").as_deref(), Some("bob"));
}
