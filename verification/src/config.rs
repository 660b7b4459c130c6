//! CLI parsing for the gateway binary: a verb, then `--flag value` pairs.
//!
//! Grammar: `serve --listen <addr:port> --journal <path> --content <dir> [--ws-listen
//! <addr:port>] [--max-lease <N>] [--dev-allow-local] [--auth-token <token>=<party>]...
//! [--auth-token-file <path>]... [--catalog-dir <dir>] [--tls-cert <path> --tls-key <path>]
//! [--cors-origin <scheme://host[:port]>]...`, or `--help`/`-h`, or `--version`/`-V`; an
//! empty argv is `--help`.
//!
//! Socket addresses and token files are the caller's to read: [`Cli::from_args`] keeps the
//! address text and the ordered auth sources, [`parse_token_file`] folds a token file's body
//! into a [`TokenMap`], and [`check_auth_posture`] / [`pair_tls`] finish the checks.
use vstd::prelude::*;
use vstd::string::*;

use crate::auth::TokenMap;
use crate::text::{
    str_eq,
    chars_eq, chars_eq_ignore_case, chars_of, debug_quoted, debug_str, eq_ignore_case,
    find_last, find_str, find_substr, last_index_of, lemma_last_index_of, parse_uint,
    parse_uint_spec, push_str, split_lines, split_newlines, starts_with, string_of, trim,
    trim_chars, trim_string,
};

verus! {

/// `std::path::PathBuf`, carried through opaquely.
#[verifier::external_type_specification]
#[verifier::external_body]
pub struct ExPathBuf(std::path::PathBuf);

/// The path `PathBuf::from` makes of a string.
pub uninterp spec fn path_of(s: Seq<char>) -> std::path::PathBuf;

/// `PathBuf::from(String)`: the path named by `s` (the conversion is infallible and depends on
/// the text alone).
#[verifier::external_body]
fn to_path(s: String) -> (r: std::path::PathBuf)
    ensures
        r == path_of(s@),
{
    std::path::PathBuf::from(s)
}

/// The gateway's configuration error.
#[derive(Debug, Clone, PartialEq, Eq)]
pub enum GatewayError {
    /// A bad command line or configuration, with the reason.
    Config(String),
}

/// Default worker lease batch size.
pub const DEFAULT_MAX_LEASE: u32 = 16;

/// The address of the browser live-tail bridge when `--ws-listen` is not given (loopback).
pub const DEFAULT_WS_LISTEN: &'static str = "127.0.0.1:50152";

/// One-line usage string (printed on `--help` and on a parse error).
pub const USAGE: &'static str = "usage: kx-gateway serve --listen <addr:port> --journal <path> --content <dir> [--ws-listen <addr:port>] [--max-lease <N>] [--dev-allow-local] [--auth-token <token>=<party>]... [--auth-token-file <path>] [--catalog-dir <dir>] [--tls-cert <path> --tls-key <path>] [--cors-origin <scheme://host[:port]>]...\n       kx-gateway --help | --version";

/// PEM paths for the gRPC listener's server TLS.
#[derive(Debug)]
pub struct TlsPaths {
    /// PEM-encoded server certificate chain (leaf first).
    pub cert_path: std::path::PathBuf,
    /// PEM-encoded private key for the leaf certificate.
    pub key_path: std::path::PathBuf,
}

/// Where a bearer token comes from, in command-line order (a later source overrides an
/// earlier one for the same token).
#[derive(Debug, Clone, PartialEq, Eq)]
pub enum AuthSource {
    /// `--auth-token <token>=<party>`.
    Token(String, String),
    /// `--auth-token-file <path>`: one `token=party` per line.
    File(String),
}

/// The parsed `serve` arguments.
#[derive(Debug)]
pub struct ServeArgs {
    /// The `--listen` address text (an `addr:port` IP literal, parsed by the caller).
    pub listen: String,
    /// The `--ws-listen` address text, or the loopback default [`DEFAULT_WS_LISTEN`].
    pub ws_listen: String,
    pub journal_path: std::path::PathBuf,
    pub content_root: std::path::PathBuf,
    pub max_lease: u32,
    pub dev_allow_local: bool,
    pub auth_sources: Vec<AuthSource>,
    pub catalog_dir: Option<std::path::PathBuf>,
    /// The TLS certificate and key, when both were given.
    pub tls: Option<TlsPaths>,
    pub cors_origins: Vec<String>,
}

/// A parsed invocation.
#[derive(Debug)]
pub enum Cli {
    /// Print usage and exit 0.
    Help,
    /// Print the version and exit 0.
    Version,
    /// Run the server.
    Serve(ServeArgs),
}

// ----- specifications -------------------------------------------------------------------------

pub enum SourceView {
    Token(Seq<char>, Seq<char>),
    File(Seq<char>),
}

/// The flag state while scanning `serve` arguments.
pub struct ServeState {
    pub listen: Option<Seq<char>>,
    pub ws_listen: Option<Seq<char>>,
    pub journal: Option<Seq<char>>,
    pub content: Option<Seq<char>>,
    pub max_lease: nat,
    pub dev_allow_local: bool,
    pub auth: Seq<SourceView>,
    pub catalog: Option<Seq<char>>,
    pub tls_cert: Option<Seq<char>>,
    pub tls_key: Option<Seq<char>>,
    pub cors: Seq<Seq<char>>,
}

pub open spec fn initial_state() -> ServeState {
    ServeState {
        listen: None,
        ws_listen: None,
        journal: None,
        content: None,
        max_lease: DEFAULT_MAX_LEASE as nat,
        dev_allow_local: false,
        auth: Seq::empty(),
        catalog: None,
        tls_cert: None,
        tls_key: None,
        cors: Seq::empty(),
    }
}

/// `token=party` split on the LAST `=` (a base64 token keeps its `=` padding); both sides
/// non-empty.
pub open spec fn split_token_party_spec(spec: Seq<char>) -> Option<(Seq<char>, Seq<char>)> {
    match last_index_of(spec, '=') {
        None => None,
        Some(k) => if k == 0 || k + 1 == spec.len() {
            None
        } else {
            Some((spec.take(k), spec.skip(k + 1)))
        },
    }
}

/// A `--cors-origin` value, validated fail-closed: trimmed, non-empty, not `*` or `null`
/// (any case), and of the shape `scheme://rest` with both sides non-empty.
pub open spec fn cors_origin_spec(value: Seq<char>) -> Result<Seq<char>, Seq<char>> {
    let v = trim(value);
    if v.len() == 0 {
        Err("--cors-origin requires a non-empty origin"@)
    } else if v == "*"@ || eq_ignore_case(v, "null"@) {
        Err("--cors-origin must be an explicit origin, not a wildcard, got "@ + debug_str(v)
            + " (the allowlist is deny-by-default — list each browser origin explicitly)"@)
    } else {
        match find_substr(v, "://"@) {
            None => Err("--cors-origin expects <scheme://host[:port]>, got "@ + debug_str(v)),
            Some(k) => if k == 0 || k + 3 == v.len() {
                Err("--cors-origin expects <scheme://host[:port]>, got "@ + debug_str(v))
            } else {
                Ok(v)
            },
        }
    }
}

/// Whether a flag takes a value.
pub open spec fn is_value_flag(f: Seq<char>) -> bool {
    f == "--listen"@ || f == "--ws-listen"@ || f == "--journal"@ || f == "--content"@
        || f == "--max-lease"@ || f == "--auth-token"@ || f == "--auth-token-file"@
        || f == "--catalog-dir"@ || f == "--tls-cert"@ || f == "--tls-key"@ || f == "--cors-origin"@
}

/// The effect of one `flag value` pair.
pub open spec fn apply_value(st: ServeState, f: Seq<char>, v: Seq<char>) -> Result<ServeState, Seq<char>> {
    if f == "--listen"@ {
        Ok(ServeState { listen: Some(v), ..st })
    } else if f == "--ws-listen"@ {
        Ok(ServeState { ws_listen: Some(v), ..st })
    } else if f == "--journal"@ {
        Ok(ServeState { journal: Some(v), ..st })
    } else if f == "--content"@ {
        Ok(ServeState { content: Some(v), ..st })
    } else if f == "--max-lease"@ {
        match parse_uint_spec(v, u32::MAX as nat) {
            Some(n) => if n > 0 {
                Ok(ServeState { max_lease: n, ..st })
            } else {
                Err("--max-lease expects a positive integer, got "@ + debug_str(v))
            },
            None => Err("--max-lease expects a positive integer, got "@ + debug_str(v)),
        }
    } else if f == "--auth-token"@ {
        match split_token_party_spec(v) {
            Some((t, p)) => Ok(ServeState { auth: st.auth.push(SourceView::Token(t, p)), ..st }),
            None => Err("--auth-token expects <token>=<party>, got "@ + debug_str(v)),
        }
    } else if f == "--auth-token-file"@ {
        Ok(ServeState { auth: st.auth.push(SourceView::File(v)), ..st })
    } else if f == "--catalog-dir"@ {
        Ok(ServeState { catalog: Some(v), ..st })
    } else if f == "--tls-cert"@ {
        Ok(ServeState { tls_cert: Some(v), ..st })
    } else if f == "--tls-key"@ {
        Ok(ServeState { tls_key: Some(v), ..st })
    } else {
        match cors_origin_spec(v) {
            Ok(o) => Ok(ServeState { cors: st.cors.push(o), ..st }),
            Err(e) => Err(e),
        }
    }
}

/// Scan `args` from state `st`.
pub open spec fn scan_flags(args: Seq<Seq<char>>, st: ServeState) -> Result<ServeState, Seq<char>>
    decreases args.len(),
{
    if args.len() == 0 {
        Ok(st)
    } else {
        let f = args[0];
        if f == "--dev-allow-local"@ {
            scan_flags(args.drop_first(), ServeState { dev_allow_local: true, ..st })
        } else if is_value_flag(f) {
            if args.len() < 2 {
                Err(f + " requires a value"@)
            } else {
                match apply_value(st, f, args[1]) {
                    Ok(st2) => scan_flags(args.skip(2), st2),
                    Err(e) => Err(e),
                }
            }
        } else {
            Err("unknown flag "@ + debug_str(f))
        }
    }
}

/// Whether an inline `--auth-token` was given.
pub open spec fn has_inline_token(auth: Seq<SourceView>) -> bool {
    exists|i: int| 0 <= i < auth.len() && #[trigger] auth[i] is Token
}

pub open spec fn posture_error() -> Seq<char> {
    "--dev-allow-local and --auth-token/--auth-token-file are mutually exclusive"@
}

pub open spec fn tls_pair_error() -> Seq<char> {
    "--tls-cert and --tls-key must be given together"@
}

/// The `serve` arguments: the scan, then the required flags in order, then the auth posture
/// (`--dev-allow-local` refuses inline tokens; tokens from a file are checked once the file
/// is read), then the TLS pair (both or neither).
pub open spec fn serve_spec(args: Seq<Seq<char>>) -> Result<ServeState, Seq<char>> {
    match scan_flags(args, initial_state()) {
        Err(e) => Err(e),
        Ok(st) => if st.listen is None {
            Err("--listen is required"@)
        } else if st.journal is None {
            Err("--journal is required"@)
        } else if st.content is None {
            Err("--content is required"@)
        } else if st.dev_allow_local && has_inline_token(st.auth) {
            Err(posture_error())
        } else if st.tls_cert is Some != st.tls_key is Some {
            Err(tls_pair_error())
        } else {
            Ok(st)
        },
    }
}

pub open spec fn opt_path(o: Option<Seq<char>>) -> Option<std::path::PathBuf> {
    match o {
        Some(s) => Some(path_of(s)),
        None => None,
    }
}

pub open spec fn source_view(a: AuthSource) -> SourceView {
    match a {
        AuthSource::Token(t, p) => SourceView::Token(t@, p@),
        AuthSource::File(f) => SourceView::File(f@),
    }
}

/// Whether parsed arguments are exactly the scanned state.
pub open spec fn args_match(a: ServeArgs, st: ServeState) -> bool {
    &&& st.listen == Some(a.listen@)
    &&& a.ws_listen@ == (match st.ws_listen { Some(w) => w, None => DEFAULT_WS_LISTEN@ })
    &&& a.journal_path == path_of(st.journal->0)
    &&& a.content_root == path_of(st.content->0)
    &&& a.max_lease as nat == st.max_lease
    &&& a.dev_allow_local == st.dev_allow_local
    &&& a.auth_sources@.map_values(|s: AuthSource| source_view(s)) == st.auth
    &&& a.catalog_dir == opt_path(st.catalog)
    &&& match (st.tls_cert, st.tls_key) {
        (Some(c), Some(k)) => a.tls matches Some(t) && t.cert_path == path_of(c) && t.key_path == path_of(k),
        _ => a.tls is None,
    }
    &&& a.cors_origins@.map_values(|s: String| s@) == st.cors
}

pub open spec fn args_view(args: Seq<&str>) -> Seq<Seq<char>> {
    args.map_values(|s: &str| s@)
}

// ----- executable -----------------------------------------------------------------------------

fn config_error(msg: String) -> (r: GatewayError)
    ensures
        r == GatewayError::Config(msg),
{
    GatewayError::Config(msg)
}

fn concat2(a: &str, b: &str) -> (r: String)
    ensures
        r@ == a@ + b@,
{
    let mut s = String::from_str(a);
    push_str(&mut s, b);
    s
}

fn concat3(a: &str, b: &str, c: &str) -> (r: String)
    ensures
        r@ == a@ + b@ + c@,
{
    let mut s = concat2(a, b);
    push_str(&mut s, c);
    s
}

/// Split a `token=party` spec on the LAST `=`; both sides must be non-empty.
pub fn split_token_party(spec: &str) -> (r: Option<(String, String)>)
    ensures
        match split_token_party_spec(spec@) {
            Some((t, p)) => r matches Some(pair) && pair.0@ == t && pair.1@ == p,
            None => r is None,
        },
{
    let cs = chars_of(spec);
    proof { lemma_last_index_of(spec@, '='); }
    let k = match find_last(cs.as_slice(), '=') {
        None => return None,
        Some(k) => k,
    };
    assert(k < cs.len());
    if k == 0 || k + 1 == cs.len() {
        return None;
    }
    let token = string_of(&cs.as_slice()[0..k]);
    let party = string_of(&cs.as_slice()[k + 1..cs.len()]);
    assert(cs@.subrange(0, k as int) == spec@.take(k as int));
    assert(cs@.subrange(k + 1, cs@.len() as int) == spec@.skip(k + 1));
    Some((token, party))
}

/// Validate a `--cors-origin` value fail-closed; returns the trimmed origin.
pub fn validate_cors_origin(value: &str) -> (r: Result<String, GatewayError>)
    ensures
        match cors_origin_spec(value@) {
            Ok(o) => r matches Ok(s) && s@ == o,
            Err(m) => r matches Err(GatewayError::Config(e)) && e@ == m,
        },
{
    let v = trim_string(value);
    let vc = chars_of(v.as_str());
    if vc.len() == 0 {
        return Err(config_error(String::from_str("--cors-origin requires a non-empty origin")));
    }
    let star = chars_of("*");
    let null = chars_of("null");
    if chars_eq(vc.as_slice(), star.as_slice()) || chars_eq_ignore_case(vc.as_slice(), null.as_slice()) {
        let d = debug_quoted(v.as_str());
        return Err(config_error(concat3(
            "--cors-origin must be an explicit origin, not a wildcard, got ",
            d.as_str(),
            " (the allowlist is deny-by-default — list each browser origin explicitly)",
        )));
    }
    let sep = chars_of("://");
    proof { reveal_strlit("://"); }
    match find_str(vc.as_slice(), sep.as_slice()) {
        None => {
            let d = debug_quoted(v.as_str());
            Err(config_error(concat2("--cors-origin expects <scheme://host[:port]>, got ", d.as_str())))
        },
        Some(k) => {
            assert(v@ == trim(value@));
            assert(find_substr(v@, "://"@) == Some(k as int));
            if k == 0 || k + 3 == vc.len() {
                let d = debug_quoted(v.as_str());
                Err(config_error(concat2("--cors-origin expects <scheme://host[:port]>, got ", d.as_str())))
            } else {
                assert(cors_origin_spec(value@) == Ok::<Seq<char>, Seq<char>>(v@));
                Ok(v)
            }
        },
    }
}


/// The flag state while scanning, as held by the scanner.
struct Scan {
    listen: Option<String>,
    ws_listen: Option<String>,
    journal: Option<String>,
    content: Option<String>,
    max_lease: u32,
    dev_allow_local: bool,
    auth: Vec<AuthSource>,
    catalog: Option<String>,
    tls_cert: Option<String>,
    tls_key: Option<String>,
    cors: Vec<String>,
}

pub open spec fn ostr(o: Option<String>) -> Option<Seq<char>> {
    match o {
        Some(s) => Some(s@),
        None => None,
    }
}

spec fn scan_view(s: Scan) -> ServeState {
    ServeState {
        listen: ostr(s.listen),
        ws_listen: ostr(s.ws_listen),
        journal: ostr(s.journal),
        content: ostr(s.content),
        max_lease: s.max_lease as nat,
        dev_allow_local: s.dev_allow_local,
        auth: s.auth@.map_values(|a: AuthSource| source_view(a)),
        catalog: ostr(s.catalog),
        tls_cert: ostr(s.tls_cert),
        tls_key: ostr(s.tls_key),
        cors: s.cors@.map_values(|c: String| c@),
    }
}

fn is_value_flag_exec(f: &str) -> (r: bool)
    ensures
        r == is_value_flag(f@),
{
    str_eq(f, "--listen") || str_eq(f, "--ws-listen") || str_eq(f, "--journal") || str_eq(f, "--content")
        || str_eq(f, "--max-lease") || str_eq(f, "--auth-token") || str_eq(f, "--auth-token-file")
        || str_eq(f, "--catalog-dir") || str_eq(f, "--tls-cert") || str_eq(f, "--tls-key")
        || str_eq(f, "--cors-origin")
}

fn apply(st: &mut Scan, f: &str, v: &str) -> (r: Result<(), GatewayError>)
    requires
        is_value_flag(f@),
    ensures
        match apply_value(scan_view(*old(st)), f@, v@) {
            Ok(s2) => r is Ok && scan_view(*final(st)) == s2,
            Err(m) => r matches Err(GatewayError::Config(e)) && e@ == m,
        },
{
    let ghost before = *st;
    if str_eq(f, "--listen") {
        st.listen = Some(String::from_str(v));
    } else if str_eq(f, "--ws-listen") {
        st.ws_listen = Some(String::from_str(v));
    } else if str_eq(f, "--journal") {
        st.journal = Some(String::from_str(v));
    } else if str_eq(f, "--content") {
        st.content = Some(String::from_str(v));
    } else if str_eq(f, "--max-lease") {
        let vc = chars_of(v);
        match parse_uint(vc.as_slice(), 4294967295u64) {
            Some(n) => {
                if n > 0 {
                    st.max_lease = n as u32;
                } else {
                    let d = debug_quoted(v);
                    return Err(config_error(concat2("--max-lease expects a positive integer, got ", d.as_str())));
                }
            },
            None => {
                let d = debug_quoted(v);
                return Err(config_error(concat2("--max-lease expects a positive integer, got ", d.as_str())));
            },
        }
    } else if str_eq(f, "--auth-token") {
        match split_token_party(v) {
            Some((t, p)) => {
                let ghost old_auth = st.auth@;
                st.auth.push(AuthSource::Token(t, p));
                assert(st.auth@.map_values(|a: AuthSource| source_view(a)) =~= old_auth.map_values(|a: AuthSource| source_view(a)).push(source_view(st.auth@.last())));
            },
            None => {
                let d = debug_quoted(v);
                return Err(config_error(concat2("--auth-token expects <token>=<party>, got ", d.as_str())));
            },
        }
    } else if str_eq(f, "--auth-token-file") {
        let ghost old_auth = st.auth@;
        st.auth.push(AuthSource::File(String::from_str(v)));
        assert(st.auth@.map_values(|a: AuthSource| source_view(a)) =~= old_auth.map_values(|a: AuthSource| source_view(a)).push(SourceView::File(v@)));
    } else if str_eq(f, "--catalog-dir") {
        st.catalog = Some(String::from_str(v));
    } else if str_eq(f, "--tls-cert") {
        st.tls_cert = Some(String::from_str(v));
    } else if str_eq(f, "--tls-key") {
        st.tls_key = Some(String::from_str(v));
    } else {
        match validate_cors_origin(v) {
            Ok(o) => {
                let ghost old_cors = st.cors@;
                let ghost ov = o@;
                st.cors.push(o);
                assert(st.cors@.map_values(|c: String| c@) =~= old_cors.map_values(|c: String| c@).push(ov));
            },
            Err(e) => return Err(e),
        }
    }
    Ok(())
}

fn to_opt_path(o: Option<String>) -> (r: Option<std::path::PathBuf>)
    ensures
        r == opt_path(ostr(o)),
{
    match o {
        Some(s) => Some(to_path(s)),
        None => None,
    }
}

fn any_inline_token(auth: &Vec<AuthSource>) -> (r: bool)
    ensures
        r == has_inline_token(auth@.map_values(|a: AuthSource| source_view(a))),
{
    let ghost v = auth@.map_values(|a: AuthSource| source_view(a));
    let mut i: usize = 0;
    while i < auth.len()
        invariant
            i <= auth.len(),
            v == auth@.map_values(|a: AuthSource| source_view(a)),
            forall|j: int| 0 <= j < i ==> !(#[trigger] v[j] is Token),
        decreases auth.len() - i,
    {
        match &auth[i] {
            AuthSource::Token(_, _) => {
                assert(v[i as int] is Token);
                return true;
            },
            AuthSource::File(_) => {
                assert(!(v[i as int] is Token));
            },
        }
        i = i + 1;
    }
    false
}

/// Parse the arguments after `serve`.
fn parse_serve(args: &[&str]) -> (r: Result<ServeArgs, GatewayError>)
    ensures
        match serve_spec(args_view(args@)) {
            Ok(st) => r matches Ok(a) && args_match(a, st),
            Err(m) => r matches Err(GatewayError::Config(e)) && e@ == m,
        },
{
    let mut st = Scan {
        listen: None,
        ws_listen: None,
        journal: None,
        content: None,
        max_lease: DEFAULT_MAX_LEASE,
        dev_allow_local: false,
        auth: Vec::new(),
        catalog: None,
        tls_cert: None,
        tls_key: None,
        cors: Vec::new(),
    };
    let ghost all = args_view(args@);
    assert(scan_view(st) == initial_state()) by {
        assert(st.auth@.map_values(|a: AuthSource| source_view(a)) =~= Seq::<SourceView>::empty());
        assert(st.cors@.map_values(|c: String| c@) =~= Seq::<Seq<char>>::empty());
    }
    assert(all.skip(0) == all);
    let mut i: usize = 0;
    while i < args.len()
        invariant
            i <= args.len(),
            all == args_view(args@),
            scan_flags(all, initial_state()) == scan_flags(all.skip(i as int), scan_view(st)),
        decreases args.len() - i,
    {
        let f = args[i];
        let ghost rest = all.skip(i as int);
        assert(rest[0] == f@);
        if str_eq(f, "--dev-allow-local") {
            let ghost prev = scan_view(st);
            st.dev_allow_local = true;
            assert(scan_view(st) == ServeState { dev_allow_local: true, ..prev });
            assert(rest.drop_first() == all.skip(i + 1));
            i = i + 1;
        } else if is_value_flag_exec(f) {
            if i + 1 >= args.len() {
                let msg = concat2(f, " requires a value");
                return Err(config_error(msg));
            }
            let v = args[i + 1];
            assert(rest[1] == v@);
            match apply(&mut st, f, v) {
                Ok(()) => {},
                Err(e) => return Err(e),
            }
            assert(rest.skip(2) == all.skip(i + 2));
            i = i + 2;
        } else {
            let d = debug_quoted(f);
            return Err(config_error(concat2("unknown flag ", d.as_str())));
        }
    }
    assert(all.skip(i as int).len() == 0);
    let listen = match st.listen {
        None => return Err(config_error(String::from_str("--listen is required"))),
        Some(l) => l,
    };
    let journal = match st.journal {
        None => return Err(config_error(String::from_str("--journal is required"))),
        Some(j) => j,
    };
    let content = match st.content {
        None => return Err(config_error(String::from_str("--content is required"))),
        Some(c) => c,
    };
    if st.dev_allow_local && any_inline_token(&st.auth) {
        return Err(config_error(String::from_str("--dev-allow-local and --auth-token/--auth-token-file are mutually exclusive")));
    }
    let tls = pair_tls(to_opt_path(st.tls_cert), to_opt_path(st.tls_key))?;
    Ok(ServeArgs {
        listen,
        ws_listen: match st.ws_listen {
            Some(w) => w,
            None => String::from_str(DEFAULT_WS_LISTEN),
        },
        journal_path: to_path(journal),
        content_root: to_path(content),
        max_lease: st.max_lease,
        dev_allow_local: st.dev_allow_local,
        auth_sources: st.auth,
        catalog_dir: to_opt_path(st.catalog),
        tls,
        cors_origins: st.cors,
    })
}

impl Cli {
    /// Parse `argv` (excluding the program name).
    pub fn from_args(args: &[&str]) -> (r: Result<Self, GatewayError>)
        ensures
            ({
                let a = args_view(args@);
                if a.len() == 0 || a[0] == "--help"@ || a[0] == "-h"@ {
                    r matches Ok(Cli::Help)
                } else if a[0] == "--version"@ || a[0] == "-V"@ {
                    r matches Ok(Cli::Version)
                } else if a[0] == "serve"@ {
                    match serve_spec(a.drop_first()) {
                        Ok(st) => r matches Ok(Cli::Serve(sa)) && args_match(sa, st),
                        Err(m) => r matches Err(GatewayError::Config(e)) && e@ == m,
                    }
                } else {
                    r matches Err(GatewayError::Config(e)) && e@ == "unknown command "@ + debug_str(a[0])
                        + " (expected: serve | --help | --version)"@
                }
            }),
    {
        if args.len() == 0 {
            return Ok(Cli::Help);
        }
        let first = args[0];
        if str_eq(first, "--help") || str_eq(first, "-h") {
            Ok(Cli::Help)
        } else if str_eq(first, "--version") || str_eq(first, "-V") {
            Ok(Cli::Version)
        } else if str_eq(first, "serve") {
            let rest = &args[1..args.len()];
            assert(args_view(rest@) =~= args_view(args@).drop_first());
            match parse_serve(rest) {
                Ok(sa) => Ok(Cli::Serve(sa)),
                Err(e) => Err(e),
            }
        } else {
            let d = debug_quoted(first);
            Err(config_error(concat3("unknown command ", d.as_str(), " (expected: serve | --help | --version)")))
        }
    }
}

/// The mutual-exclusion rule: `--dev-allow-local` and configured tokens (inline or from a
/// file) cannot both be in effect.
pub fn check_auth_posture(dev_allow_local: bool, tokens: &TokenMap) -> (r: Result<(), GatewayError>)
    ensures
        r is Ok <==> !(dev_allow_local && !(tokens@.dom() =~= Set::<Seq<char>>::empty())),
        r matches Err(GatewayError::Config(e)) ==> e@ == "--dev-allow-local and --auth-token/--auth-token-file are mutually exclusive"@,
{
    if dev_allow_local && !tokens.is_empty() {
        return Err(config_error(String::from_str("--dev-allow-local and --auth-token/--auth-token-file are mutually exclusive")));
    }
    Ok(())
}

/// Pair the TLS cert + key: both (TLS) or neither (plaintext); half a pair fails closed.
pub fn pair_tls(tls_cert: Option<std::path::PathBuf>, tls_key: Option<std::path::PathBuf>) -> (r: Result<Option<TlsPaths>, GatewayError>)
    ensures
        match (tls_cert, tls_key) {
            (Some(c), Some(k)) => r matches Ok(Some(t)) && t.cert_path == c && t.key_path == k,
            (None, None) => r matches Ok(None),
            _ => r matches Err(GatewayError::Config(e)) && e@ == "--tls-cert and --tls-key must be given together"@,
        },
{
    match (tls_cert, tls_key) {
        (Some(cert_path), Some(key_path)) => Ok(Some(TlsPaths { cert_path, key_path })),
        (None, None) => Ok(None),
        _ => Err(config_error(String::from_str("--tls-cert and --tls-key must be given together"))),
    }
}

/// What a token file does to the token map: every line (split at `\n`), trimmed; blank lines
/// and `#` comments are skipped; any other line must be `token=party` or the file is refused at
/// that line (lines before it already applied).
pub open spec fn token_lines(lines: Seq<Seq<char>>, m: Map<Seq<char>, Seq<char>>) -> (Map<Seq<char>, Seq<char>>, Option<Seq<char>>)
    decreases lines.len(),
{
    if lines.len() == 0 {
        (m, None)
    } else {
        let line = trim(lines[0]);
        if line.len() == 0 || line[0] == '#' {
            token_lines(lines.drop_first(), m)
        } else {
            match split_token_party_spec(line) {
                Some((t, p)) => token_lines(lines.drop_first(), m.insert(t, p)),
                None => (m, Some("--auth-token-file line is not <token>=<party>: "@ + debug_str(line))),
            }
        }
    }
}

/// Parse a token file: one `token=party` per line, skipping blank lines and `#` comments. A
/// non-conforming line is a hard error (fail-closed config).
pub fn parse_token_file(body: &str, tokens: &mut TokenMap) -> (r: Result<(), GatewayError>)
    requires
        old(tokens).wf(),
    ensures
        final(tokens).wf(),
        final(tokens)@ == token_lines(split_newlines(body@), old(tokens)@).0,
        match token_lines(split_newlines(body@), old(tokens)@).1 {
            None => r is Ok,
            Some(m) => r matches Err(GatewayError::Config(e)) && e@ == m,
        },
{
    let bc = chars_of(body);
    let lines = split_lines(bc.as_slice());
    let ghost all = split_newlines(body@);
    let ghost start = tokens@;
    assert(start == old(tokens)@);
    let mut i: usize = 0;
    assert(all.skip(0) == all);
    while i < lines.len()
        invariant
            i <= lines.len(),
            all == split_newlines(body@),
            lines@.len() == all.len(),
            forall|j: int| 0 <= j < lines@.len() ==> #[trigger] lines@[j]@ == all[j],
            tokens.wf(),
            start == old(tokens)@,
            token_lines(all, start) == token_lines(all.skip(i as int), tokens@),
        decreases lines.len() - i,
    {
        let ghost rest = all.skip(i as int);
        assert(rest[0] == lines@[i as int]@);
        assert(rest.drop_first() == all.skip(i + 1));
        let line = trim_chars(lines[i].as_slice());
        if line.len() == 0 || line[0] == '#' {
            i = i + 1;
            continue;
        }
        let ls = string_of(line.as_slice());
        match split_token_party(ls.as_str()) {
            Some((t, p)) => {
                tokens.insert(t, p);
            },
            None => {
                let d = debug_quoted(ls.as_str());
                assert(ls@ == trim(rest[0]));
                assert(trim(rest[0]).len() != 0 && trim(rest[0])[0] != '#');
                assert(token_lines(rest, tokens@) == (tokens@, Some("--auth-token-file line is not <token>=<party>: "@ + debug_str(ls@))));
                return Err(config_error(concat2("--auth-token-file line is not <token>=<party>: ", d.as_str())));
            },
        }
        i = i + 1;
    }
    Ok(())
}

/// Law: `token=party` splits on the LAST `=` and loses nothing — the two halves, non-empty,
/// rejoined by `=` give back the spec, and the party holds no `=` (a base64 token keeps its
/// `=` padding); the split fails exactly when there is no `=` or a side of the last one is empty.
pub proof fn law_token_split_is_lossless(spec: Seq<char>)
    ensures
        split_token_party_spec(spec) matches Some((t, p)) ==> t + "="@ + p == spec && t.len() > 0 && p.len() > 0
            && !p.contains('='),
        split_token_party_spec(spec) is None <==> (!spec.contains('=') || ({
            let k = last_index_of(spec, '=')->0;
            k == 0 || k + 1 == spec.len()
        })),
{
    reveal_strlit("=");
    lemma_last_index_of(spec, '=');
    match last_index_of(spec, '=') {
        Some(k) => {
            assert(spec.contains('=')) by { assert(spec[k] == '='); }
            if !(k == 0 || k + 1 == spec.len()) {
                let t = spec.take(k);
                let p = spec.skip(k + 1);
                assert(t + "="@ + p =~= spec);
                assert(!p.contains('=')) by {
                    if p.contains('=') {
                        let j = choose|j: int| 0 <= j < p.len() && p[j] == '=';
                        assert(spec[k + 1 + j] == '=');
                    }
                }
            }
        },
        None => {
            assert(!spec.contains('=')) by {
                if spec.contains('=') {
                    let j = choose|j: int| 0 <= j < spec.len() && spec[j] == '=';
                    assert(spec[j] == '=');
                }
            }
        },
    }
}

/// The auth sources a flag list names, in order: `--auth-token T=P` as an inline token (when
/// it splits), `--auth-token-file F` as a file; other flags name none.
pub open spec fn named_auth_sources(args: Seq<Seq<char>>) -> Seq<SourceView>
    decreases args.len(),
{
    if args.len() == 0 {
        Seq::empty()
    } else if args[0] == "--dev-allow-local"@ || args.len() < 2 {
        named_auth_sources(args.drop_first())
    } else if args[0] == "--auth-token-file"@ {
        seq![SourceView::File(args[1])] + named_auth_sources(args.skip(2))
    } else if args[0] == "--auth-token"@ {
        match split_token_party_spec(args[1]) {
            Some((t, p)) => seq![SourceView::Token(t, p)] + named_auth_sources(args.skip(2)),
            None => named_auth_sources(args.skip(2)),
        }
    } else {
        named_auth_sources(args.skip(2))
    }
}

proof fn lemma_auth_flags_distinct()
    ensures
        "--auth-token-file"@ != "--dev-allow-local"@,
        "--auth-token"@ != "--dev-allow-local"@,
        "--listen"@ != "--auth-token-file"@ && "--listen"@ != "--auth-token"@,
        "--ws-listen"@ != "--auth-token-file"@ && "--ws-listen"@ != "--auth-token"@,
        "--journal"@ != "--auth-token-file"@ && "--journal"@ != "--auth-token"@,
        "--content"@ != "--auth-token-file"@ && "--content"@ != "--auth-token"@,
        "--max-lease"@ != "--auth-token-file"@ && "--max-lease"@ != "--auth-token"@,
        "--catalog-dir"@ != "--auth-token-file"@ && "--catalog-dir"@ != "--auth-token"@,
        "--tls-cert"@ != "--auth-token-file"@ && "--tls-cert"@ != "--auth-token"@,
        "--tls-key"@ != "--auth-token-file"@ && "--tls-key"@ != "--auth-token"@,
        "--cors-origin"@ != "--auth-token-file"@ && "--cors-origin"@ != "--auth-token"@,
        "--auth-token"@ != "--auth-token-file"@,
{
    reveal_strlit("--listen");
    reveal_strlit("--ws-listen");
    reveal_strlit("--journal");
    reveal_strlit("--content");
    reveal_strlit("--max-lease");
    reveal_strlit("--auth-token");
    reveal_strlit("--auth-token-file");
    reveal_strlit("--catalog-dir");
    reveal_strlit("--tls-cert");
    reveal_strlit("--tls-key");
    reveal_strlit("--cors-origin");
    reveal_strlit("--dev-allow-local");
    assert(("--auth-token-file"@)[2] != ("--dev-allow-local"@)[2]);
    assert(("--auth-token"@).len() == 12 && ("--auth-token-file"@).len() == 17 && ("--dev-allow-local"@).len() == 17);
    assert(("--listen"@).len() == 8 && ("--ws-listen"@).len() == 11 && ("--journal"@).len() == 9);
    assert(("--content"@).len() == 9 && ("--max-lease"@).len() == 11 && ("--catalog-dir"@).len() == 13);
    assert(("--tls-cert"@).len() == 10 && ("--tls-key"@).len() == 9 && ("--cors-origin"@).len() == 13);
}

proof fn lemma_scan_keeps_auth_sources(args: Seq<Seq<char>>, st: ServeState)
    ensures
        scan_flags(args, st) matches Ok(fin) ==> fin.auth == st.auth + named_auth_sources(args),
    decreases args.len(),
{
    lemma_auth_flags_distinct();
    if args.len() > 0 {
        let f = args[0];
        if f == "--dev-allow-local"@ {
            lemma_scan_keeps_auth_sources(args.drop_first(), ServeState { dev_allow_local: true, ..st });
        } else if is_value_flag(f) && args.len() >= 2 {
            match apply_value(st, f, args[1]) {
                Ok(st2) => {
                    lemma_scan_keeps_auth_sources(args.skip(2), st2);
                    if f == "--auth-token-file"@ {
                        assert(st2.auth == st.auth.push(SourceView::File(args[1])));
                        assert(st.auth.push(SourceView::File(args[1])) + named_auth_sources(args.skip(2))
                            =~= st.auth + (seq![SourceView::File(args[1])] + named_auth_sources(args.skip(2))));
                    } else if f == "--auth-token"@ {
                        let (t, p) = split_token_party_spec(args[1])->Some_0;
                        assert(st.auth.push(SourceView::Token(t, p)) + named_auth_sources(args.skip(2))
                            =~= st.auth + (seq![SourceView::Token(t, p)] + named_auth_sources(args.skip(2))));
                    } else {
                        assert(st2.auth == st.auth);
                    }
                },
                Err(_) => {},
            }
        }
    } else {
        assert(st.auth + Seq::<SourceView>::empty() =~= st.auth);
    }
}

/// Law: a successful serve parse neither drops nor reorders an auth source — its sources are
/// exactly, in flag order, each `--auth-token T=P` as an inline token `(T, P)` and each
/// `--auth-token-file F` as the file `F`.
pub proof fn law_every_auth_source_is_kept_in_order(args: Seq<Seq<char>>)
    ensures
        serve_spec(args) matches Ok(st) ==> st.auth == named_auth_sources(args),
{
    lemma_scan_keeps_auth_sources(args, initial_state());
    assert(Seq::<SourceView>::empty() + named_auth_sources(args) =~= named_auth_sources(args));
}

/// The value the LAST `flag` of a flag list gives (a later flag overrides an earlier one).
pub open spec fn last_flag_value(args: Seq<Seq<char>>, flag: Seq<char>) -> Option<Seq<char>>
    decreases args.len(),
{
    if args.len() == 0 {
        None
    } else if args[0] == "--dev-allow-local"@ || args.len() < 2 {
        last_flag_value(args.drop_first(), flag)
    } else {
        match last_flag_value(args.skip(2), flag) {
            Some(v) => Some(v),
            None => if args[0] == flag { Some(args[1]) } else { None },
        }
    }
}

/// Whether a flag list turns on `--dev-allow-local`.
pub open spec fn dev_flag_given(args: Seq<Seq<char>>) -> bool
    decreases args.len(),
{
    if args.len() == 0 {
        false
    } else if args[0] == "--dev-allow-local"@ {
        true
    } else if args.len() < 2 {
        dev_flag_given(args.drop_first())
    } else {
        dev_flag_given(args.skip(2))
    }
}

proof fn lemma_flag_shapes()
    ensures
        ("--listen"@).len() == 8 && ("--ws-listen"@).len() == 11 && ("--journal"@).len() == 9,
        ("--content"@).len() == 9 && ("--max-lease"@).len() == 11 && ("--auth-token"@).len() == 12,
        ("--auth-token-file"@).len() == 17 && ("--catalog-dir"@).len() == 13 && ("--tls-cert"@).len() == 10,
        ("--tls-key"@).len() == 9 && ("--cors-origin"@).len() == 13 && ("--dev-allow-local"@).len() == 17,
        ("--journal"@)[2] == 'j' && ("--content"@)[2] == 'c' && ("--tls-key"@)[2] == 't',
        ("--ws-listen"@)[2] == 'w' && ("--max-lease"@)[2] == 'm',
        ("--catalog-dir"@)[3] == 'a' && ("--cors-origin"@)[3] == 'o',
        ("--auth-token-file"@)[2] == 'a' && ("--dev-allow-local"@)[2] == 'd',
{
    reveal_strlit("--listen");
    reveal_strlit("--ws-listen");
    reveal_strlit("--journal");
    reveal_strlit("--content");
    reveal_strlit("--max-lease");
    reveal_strlit("--auth-token");
    reveal_strlit("--auth-token-file");
    reveal_strlit("--catalog-dir");
    reveal_strlit("--tls-cert");
    reveal_strlit("--tls-key");
    reveal_strlit("--cors-origin");
    reveal_strlit("--dev-allow-local");
}

/// What the scan keeps of the plain flags.
pub open spec fn kept_flags(st: ServeState) -> (Option<Seq<char>>, Option<Seq<char>>, Option<Seq<char>>, Option<Seq<char>>, Option<Seq<char>>, Option<Seq<char>>, Option<Seq<char>>, bool) {
    (st.listen, st.ws_listen, st.journal, st.content, st.catalog, st.tls_cert, st.tls_key, st.dev_allow_local)
}

pub open spec fn or_else(a: Option<Seq<char>>, b: Option<Seq<char>>) -> Option<Seq<char>> {
    match a {
        Some(v) => Some(v),
        None => b,
    }
}

#[verifier::spinoff_prover]
proof fn lemma_scan_keeps_the_last_values(args: Seq<Seq<char>>, st: ServeState)
    ensures
        scan_flags(args, st) matches Ok(fin) ==> kept_flags(fin) == (
            or_else(last_flag_value(args, "--listen"@), st.listen),
            or_else(last_flag_value(args, "--ws-listen"@), st.ws_listen),
            or_else(last_flag_value(args, "--journal"@), st.journal),
            or_else(last_flag_value(args, "--content"@), st.content),
            or_else(last_flag_value(args, "--catalog-dir"@), st.catalog),
            or_else(last_flag_value(args, "--tls-cert"@), st.tls_cert),
            or_else(last_flag_value(args, "--tls-key"@), st.tls_key),
            st.dev_allow_local || dev_flag_given(args),
        ),
    decreases args.len(),
{
    lemma_flag_shapes();
    if args.len() > 0 {
        let f = args[0];
        if f == "--dev-allow-local"@ {
            lemma_scan_keeps_the_last_values(args.drop_first(), ServeState { dev_allow_local: true, ..st });
        } else if is_value_flag(f) && args.len() >= 2 {
            match apply_value(st, f, args[1]) {
                Ok(st2) => {
                    lemma_scan_keeps_the_last_values(args.skip(2), st2);
                },
                Err(_) => {},
            }
        }
    }
}

/// Law: a successful serve parse keeps, for each plain flag, the value its LAST occurrence
/// gives — `--listen`, `--journal` and `--content` (all required), `--ws-listen`,
/// `--catalog-dir`, `--tls-cert` and `--tls-key` (absent when not given) — and turns dev mode on
/// exactly when `--dev-allow-local` is given.
pub proof fn law_each_flag_keeps_its_last_value(args: Seq<Seq<char>>)
    ensures
        serve_spec(args) matches Ok(st) ==> {
            &&& st.listen == last_flag_value(args, "--listen"@)
            &&& st.ws_listen == last_flag_value(args, "--ws-listen"@)
            &&& st.journal == last_flag_value(args, "--journal"@)
            &&& st.content == last_flag_value(args, "--content"@)
            &&& st.catalog == last_flag_value(args, "--catalog-dir"@)
            &&& st.tls_cert == last_flag_value(args, "--tls-cert"@)
            &&& st.tls_key == last_flag_value(args, "--tls-key"@)
            &&& st.dev_allow_local == dev_flag_given(args)
        },
{
    lemma_scan_keeps_the_last_values(args, initial_state());
}

} // verus!
