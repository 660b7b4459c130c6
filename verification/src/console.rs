//! The embedded web console: resolving request paths against the embedded asset manifest, the
//! response each request gets, and the one-package npm registry for the embedded SDK.
//!
//! Serving rules: GET/HEAD only (anything else is `405` with an `Allow` header); an exact
//! manifest hit serves the embedded bytes; a miss WITHOUT a file extension is a client-side
//! route and serves `index.html`; a miss WITH an extension is `404`; `assets/*` is cached
//! immutably and everything else revalidates; `nosniff` everywhere. The manifest is the
//! complete universe of servable bytes, so path traversal is structurally impossible.
use vstd::prelude::*;
use vstd::string::*;

use base64::Engine;
use sha2::Digest;

use crate::text::{
    chars_eq, chars_of, chars_start_with, count_leading, find_first, find_last, first_index_of,
    last_index_of, leading_count, push_str, replace_all, replace_str, starts_with,
    trim_start_char,
};

verus! {

/// One embedded file.
#[derive(Debug, Clone, PartialEq, Eq)]
pub struct Asset {
    /// The manifest path (no leading `/`).
    pub path: String,
    /// The `Content-Type` it is served with.
    pub content_type: String,
    /// Hash-named (`assets/*`) files never change under the same name.
    pub immutable: bool,
}

impl Asset {
    /// An asset entry, classed immutable exactly when it lives under `assets/`.
    pub fn new(path: &str, content_type: &str) -> (r: Asset)
        ensures
            r.path@ == path@,
            r.content_type@ == content_type@,
            r.immutable == starts_with(path@, "assets/"@),
    {
        let p = chars_of(path);
        let pre = chars_of("assets/");
        let immutable = chars_start_with(p.as_slice(), pre.as_slice());
        Asset { path: String::from_str(path), content_type: String::from_str(content_type), immutable }
    }
}

/// What a request path resolves to.
#[derive(Debug, Clone, Copy, PartialEq, Eq, Structural)]
pub enum Resolution {
    /// An exact embedded file (index into the manifest).
    Asset(usize),
    /// A client-side route — serve `index.html`.
    SpaFallback,
    /// An extension-bearing path that is not embedded.
    NotFound,
    /// `GET /npm/@kortecx/sdk` — the package metadata.
    SdkPackument,
    /// `GET /npm/@kortecx/sdk/-/sdk-<version>.tgz` — the package bytes.
    SdkTarball,
}

/// The embedded console: its asset manifest and the SDK package it can hand out.
#[derive(Debug, Clone)]
pub struct Console {
    pub assets: Vec<Asset>,
    /// The version of the embedded SDK package.
    pub sdk_version: String,
    /// The embedded SDK tarball, when the build packed one.
    pub sdk_tarball: Option<Vec<u8>>,
}

/// The request method, as far as the console cares.
#[derive(Debug, Clone, Copy, PartialEq, Eq, Structural)]
pub enum Method {
    Get,
    Head,
    Other,
}

/// The body a response carries.
#[derive(Debug, Clone, PartialEq, Eq)]
pub enum Body {
    Empty,
    /// The bytes of the embedded asset at this manifest index.
    Asset(usize),
    /// The embedded SDK tarball.
    Tarball,
    /// Bytes computed for this response.
    Bytes(Vec<u8>),
}

/// The response to one request: status, headers (in order), and body.
#[derive(Debug, Clone, PartialEq, Eq)]
pub struct ResponsePlan {
    pub status: u16,
    pub headers: Vec<(String, String)>,
    pub body: Body,
}

/// The scoped-registry root.
pub open spec fn npm_root() -> Seq<char> {
    "npm/"@
}

/// The one package the registry hosts.
pub open spec fn sdk_package() -> Seq<char> {
    "@kortecx/sdk"@
}

/// `@kortecx/sdk/-/sdk-{version}.tgz`.
pub open spec fn tarball_name(version: Seq<char>) -> Seq<char> {
    "@kortecx/sdk"@ + "/-/sdk-"@ + version + ".tgz"@
}

/// Resolve a registry path (no leading `/`), or `None` when it is not a registry request.
/// Only the `%2f` / `%2F` scope encoding npm uses is decoded; the match is exact.
pub open spec fn classify_npm_spec(rel: Seq<char>, version: Seq<char>) -> Option<Resolution> {
    if !starts_with(rel, npm_root()) {
        None
    } else {
        let rest = rel.skip(npm_root().len() as int);
        let decoded = replace_all(replace_all(rest, "%2f"@, "/"@), "%2F"@, "/"@);
        if decoded == sdk_package() {
            Some(Resolution::SdkPackument)
        } else if decoded == tarball_name(version) {
            Some(Resolution::SdkTarball)
        } else {
            None
        }
    }
}

/// The first manifest entry whose path is exactly `rel`.
pub open spec fn asset_position(assets: Seq<Asset>, rel: Seq<char>) -> Option<int> {
    if exists|i: int| 0 <= i < assets.len() && assets[i].path@ == rel {
        Some(choose|i: int| 0 <= i < assets.len() && assets[i].path@ == rel
            && forall|j: int| 0 <= j < i ==> assets[j].path@ != rel)
    } else {
        None
    }
}

/// The last `/`-separated segment of a path.
pub open spec fn last_segment(rel: Seq<char>) -> Seq<char> {
    match last_index_of(rel, '/') {
        Some(k) => rel.skip(k + 1),
        None => rel,
    }
}

/// The manifest-relative path of a request path: leading `/`s removed, empty meaning
/// `index.html`.
pub open spec fn relative_path(path: Seq<char>) -> Seq<char> {
    let rel = trim_start_char(path, '/');
    if rel.len() == 0 { "index.html"@ } else { rel }
}

/// What a request path resolves to: the registry first, then an exact manifest hit, then a
/// 404 for an extension-bearing miss and the SPA page for anything else.
pub open spec fn classify_spec(assets: Seq<Asset>, version: Seq<char>, path: Seq<char>) -> Resolution {
    let rel = relative_path(path);
    match classify_npm_spec(rel, version) {
        Some(r) => r,
        None => match asset_position(assets, rel) {
            Some(i) => Resolution::Asset(i as usize),
            None => if first_index_of(last_segment(rel), '.') is Some {
                Resolution::NotFound
            } else {
                Resolution::SpaFallback
            },
        },
    }
}

proof fn lemma_asset_position(assets: Seq<Asset>, rel: Seq<char>, i: int)
    requires
        0 <= i < assets.len(),
        assets[i].path@ == rel,
        forall|j: int| 0 <= j < i ==> assets[j].path@ != rel,
    ensures
        asset_position(assets, rel) == Some(i),
{
    let k = choose|k: int| 0 <= k < assets.len() && assets[k].path@ == rel
        && forall|j: int| 0 <= j < k ==> assets[j].path@ != rel;
    assert(0 <= k < assets.len() && assets[k].path@ == rel && forall|j: int| 0 <= j < k ==> assets[j].path@ != rel);
    if k < i {
        assert(assets[k].path@ != rel);
    } else if k > i {
        assert(assets[i].path@ != rel);
    }
}

// ----- JSON text ------------------------------------------------------------------------------

/// The lower-case hex digit for `d < 16`.
pub open spec fn lower_hex_char(d: nat) -> char {
    crate::text::hex_digit_char(d)
}

/// How JSON writes one character inside a string literal: `"` and `\` are backslash-escaped,
/// control characters use their short escape or `\u00XX`, everything else is verbatim.
pub open spec fn json_escape_char(c: char) -> Seq<char> {
    if c == '"' {
        seq!['\\', '"']
    } else if c == '\\' {
        seq!['\\', '\\']
    } else if c == '\x08' {
        seq!['\\', 'b']
    } else if c == '\t' {
        seq!['\\', 't']
    } else if c == '\n' {
        seq!['\\', 'n']
    } else if c == '\x0c' {
        seq!['\\', 'f']
    } else if c == '\r' {
        seq!['\\', 'r']
    } else if (c as u32) < 32 {
        seq!['\\', 'u', '0', '0', lower_hex_char(((c as u32) / 16) as nat), lower_hex_char(((c as u32) % 16) as nat)]
    } else {
        seq![c]
    }
}

pub open spec fn json_escape(s: Seq<char>) -> Seq<char>
    decreases s.len(),
{
    if s.len() == 0 {
        Seq::empty()
    } else {
        json_escape(s.drop_last()) + json_escape_char(s.last())
    }
}

/// A JSON string literal for `s`.
pub open spec fn json_string(s: Seq<char>) -> Seq<char> {
    seq!['"'] + json_escape(s) + seq!['"']
}

fn push_json_string(out: &mut String, s: &str)
    ensures
        final(out)@ == old(out)@ + json_string(s@),
{
    let q = crate::consolidate::json_quote(s);
    push_str(out, q.as_str());
}

// ----- trusted outside calls ------------------------------------------------------------------

/// The SHA-512 digest of `data`.
pub uninterp spec fn sha512(data: Seq<u8>) -> Seq<u8>;

/// `sha2::Sha512::digest`: the 64-byte SHA-512 digest of `data`. The contract names the
/// result and states its documented length; the hash function itself is not stated.
#[verifier::external_body]
fn sha512_digest(data: &[u8]) -> (r: Vec<u8>)
    ensures
        r@ == sha512(data@),
        r@.len() == 64,
{
    sha2::Sha512::digest(data).to_vec()
}

/// The standard base64 alphabet.
pub open spec fn b64_char(v: nat) -> char {
    if v < 26 {
        ((65 + v) as u32) as char
    } else if v < 52 {
        ((97 + v - 26) as u32) as char
    } else if v < 62 {
        ((48 + v - 52) as u32) as char
    } else if v == 62 {
        '+'
    } else {
        '/'
    }
}

/// Standard base64 (RFC 4648 alphabet) with `=` padding.
pub open spec fn base64_spec(b: Seq<u8>) -> Seq<char>
    decreases b.len(),
{
    if b.len() == 0 {
        Seq::empty()
    } else if b.len() == 1 {
        seq![b64_char((b[0] / 4) as nat), b64_char(((b[0] % 4) * 16) as nat), '=', '=']
    } else if b.len() == 2 {
        seq![
            b64_char((b[0] / 4) as nat),
            b64_char(((b[0] % 4) * 16 + b[1] / 16) as nat),
            b64_char(((b[1] % 16) * 4) as nat),
            '=',
        ]
    } else {
        seq![
            b64_char((b[0] / 4) as nat),
            b64_char(((b[0] % 4) * 16 + b[1] / 16) as nat),
            b64_char(((b[1] % 16) * 4 + b[2] / 64) as nat),
            b64_char((b[2] % 64) as nat),
        ] + base64_spec(b.skip(3))
    }
}

/// `base64::engine::general_purpose::STANDARD.encode`: standard-alphabet, padded base64 of
/// `data`, as RFC 4648 defines it (the crate panics only when the encoded length overflows
/// `usize`, which the bound rules out).
#[verifier::external_body]
fn base64_standard(data: &[u8]) -> (r: String)
    requires
        data@.len() <= usize::MAX / 2,
    ensures
        r@ == base64_spec(data@),
{
    base64::engine::general_purpose::STANDARD.encode(data)
}

// ----- the console ----------------------------------------------------------------------------

/// The packument: `{"dist-tags":{"latest":V},"name":P,"versions":{V:{"dist":{"integrity":I,
/// "tarball":U},"name":P,"version":V}}}` (keys in sorted order, compact), with
/// `I = "sha512-" + base64(sha512(tarball))` and `U = "http://{authority}/npm/{P}/-/sdk-{V}.tgz"`.
pub open spec fn packument_spec(authority: Seq<char>, version: Seq<char>, tarball: Seq<u8>) -> Seq<char> {
    let p = json_string(sdk_package());
    let v = json_string(version);
    let integrity = json_string("sha512-"@ + base64_spec(sha512(tarball)));
    let url = json_string("http://"@ + authority + "/"@ + npm_root() + tarball_name(version));
    "{\"dist-tags\":{\"latest\":"@ + v + "},\"name\":"@ + p + ",\"versions\":{"@ + v
        + ":{\"dist\":{\"integrity\":"@ + integrity + ",\"tarball\":"@ + url + "},\"name\":"@ + p
        + ",\"version\":"@ + v + "}}}"@
}

impl Console {
    /// Resolve an `npm/…` path, or `None` when it is not a registry request.
    pub fn classify_npm(&self, rel: &str) -> (r: Option<Resolution>)
        ensures
            r == classify_npm_spec(rel@, self.sdk_version@),
    {
        let rc = chars_of(rel);
        let root = chars_of("npm/");
        if !chars_start_with(rc.as_slice(), root.as_slice()) {
            return None;
        }
        let rest = crate::text::string_of(&rc.as_slice()[root.len()..rc.len()]);
        proof {
            reveal_strlit("%2f");
            reveal_strlit("%2F");
        }
        let d1 = replace_str(rest.as_str(), "%2f", "/");
        let decoded = replace_str(d1.as_str(), "%2F", "/");
        let dc = chars_of(decoded.as_str());
        let pkg = chars_of("@kortecx/sdk");
        if chars_eq(dc.as_slice(), pkg.as_slice()) {
            return Some(Resolution::SdkPackument);
        }
        let mut tb = String::from_str("@kortecx/sdk");
        push_str(&mut tb, "/-/sdk-");
        push_str(&mut tb, self.sdk_version.as_str());
        push_str(&mut tb, ".tgz");
        let tc = chars_of(tb.as_str());
        if chars_eq(dc.as_slice(), tc.as_slice()) {
            Some(Resolution::SdkTarball)
        } else {
            None
        }
    }

    /// Resolve a URL path against the manifest (`path` is the raw request path, with its
    /// leading `/`; query strings are the caller's to strip).
    pub fn classify(&self, path: &str) -> (r: Resolution)
        ensures
            r == classify_spec(self.assets@, self.sdk_version@, path@),
    {
        let pc = chars_of(path);
        let lead = count_leading(pc.as_slice(), '/');
        let trimmed = &pc.as_slice()[lead..pc.len()];
        assert(trimmed@ == trim_start_char(path@, '/'));
        let rel: String = if trimmed.len() == 0 {
            String::from_str("index.html")
        } else {
            crate::text::string_of(trimmed)
        };
        assert(rel@ == relative_path(path@));
        if let Some(r) = self.classify_npm(rel.as_str()) {
            return r;
        }
        let rc = chars_of(rel.as_str());
        let mut i: usize = 0;
        while i < self.assets.len()
            invariant
                i <= self.assets.len(),
                rc@ == relative_path(path@),
                classify_npm_spec(rc@, self.sdk_version@) is None,
                forall|j: int| 0 <= j < i ==> self.assets@[j].path@ != rc@,
            decreases self.assets.len() - i,
        {
            let ac = chars_of(self.assets[i].path.as_str());
            if chars_eq(ac.as_slice(), rc.as_slice()) {
                proof { lemma_asset_position(self.assets@, rc@, i as int); }
                return Resolution::Asset(i);
            }
            i = i + 1;
        }
        let seg_start: usize = match find_last(rc.as_slice(), '/') {
            Some(k) => {
                proof { crate::text::lemma_last_index_of(rc@, '/'); }
                k + 1
            },
            None => 0,
        };
        let seg = &rc.as_slice()[seg_start..rc.len()];
        assert(seg@ == last_segment(rc@));
        if find_first(seg, '.').is_some() {
            Resolution::NotFound
        } else {
            Resolution::SpaFallback
        }
    }

    /// The manifest index of `index.html`, the SPA entrypoint.
    pub fn index_asset(&self) -> (r: Option<usize>)
        ensures
            r == (match asset_position(self.assets@, "index.html"@) {
                Some(i) => Some(i as usize),
                None => None::<usize>,
            }),
    {
        let want = chars_of("index.html");
        let mut i: usize = 0;
        while i < self.assets.len()
            invariant
                i <= self.assets.len(),
                want@ == "index.html"@,
                forall|j: int| 0 <= j < i ==> self.assets@[j].path@ != want@,
            decreases self.assets.len() - i,
        {
            let ac = chars_of(self.assets[i].path.as_str());
            if chars_eq(ac.as_slice(), want.as_slice()) {
                proof { lemma_asset_position(self.assets@, want@, i as int); }
                return Some(i);
            }
            i = i + 1;
        }
        None
    }
}

/// The npm packument for the embedded SDK, as JSON bytes. `authority` is the request's own
/// `Host`, so the advertised tarball URL points back at the port actually bound; `integrity`
/// is computed over the bytes being served.
pub fn packument(authority: &str, version: &str, tarball: &[u8]) -> (r: String)
    ensures
        r@ == packument_spec(authority@, version@, tarball@),
{
    let digest = sha512_digest(tarball);
    let b64 = base64_standard(digest.as_slice());
    let mut integrity = String::from_str("sha512-");
    push_str(&mut integrity, b64.as_str());
    let mut url = String::from_str("http://");
    push_str(&mut url, authority);
    push_str(&mut url, "/");
    push_str(&mut url, "npm/");
    push_str(&mut url, "@kortecx/sdk");
    push_str(&mut url, "/-/sdk-");
    push_str(&mut url, version);
    push_str(&mut url, ".tgz");

    let mut out = String::from_str("{\"dist-tags\":{\"latest\":");
    push_json_string(&mut out, version);
    push_str(&mut out, "},\"name\":");
    push_json_string(&mut out, "@kortecx/sdk");
    push_str(&mut out, ",\"versions\":{");
    push_json_string(&mut out, version);
    push_str(&mut out, ":{\"dist\":{\"integrity\":");
    push_json_string(&mut out, integrity.as_str());
    push_str(&mut out, ",\"tarball\":");
    push_json_string(&mut out, url.as_str());
    push_str(&mut out, "},\"name\":");
    push_json_string(&mut out, "@kortecx/sdk");
    push_str(&mut out, ",\"version\":");
    push_json_string(&mut out, version);
    push_str(&mut out, "}}}");
    assert(integrity@ == "sha512-"@ + base64_spec(sha512(tarball@)));
    assert(url@ =~= "http://"@ + authority@ + "/"@ + npm_root() + tarball_name(version@));
    assert(out@ =~= packument_spec(authority@, version@, tarball@));
    out
}


// ----- responses -------------------------------------------------------------------------------

/// The abstract value of a header list.
pub open spec fn headers_view(h: Seq<(String, String)>) -> Seq<(Seq<char>, Seq<char>)> {
    h.map_values(|p: (String, String)| (p.0@, p.1@))
}

/// The message a build without an embedded SDK answers registry requests with.
pub open spec fn no_sdk_message() -> Seq<char> {
    "this build carries no @kortecx/sdk package (build with `just console-dist`, or set KX_SDK_TARBALL to an `npm pack` tarball)"@
}

/// The abstract response: status, headers, and body (with `Bytes` abstracted to its bytes).
pub struct PlanView {
    pub status: u16,
    pub headers: Seq<(Seq<char>, Seq<char>)>,
    pub body: BodyView,
}

pub enum BodyView {
    Empty,
    Asset(usize),
    Tarball,
    Bytes(Seq<u8>),
}

impl ResponsePlan {
    pub open spec fn spec_view(&self) -> PlanView {
        PlanView {
            status: self.status,
            headers: headers_view(self.headers@),
            body: match self.body {
                Body::Empty => BodyView::Empty,
                Body::Asset(i) => BodyView::Asset(i),
                Body::Tarball => BodyView::Tarball,
                Body::Bytes(b) => BodyView::Bytes(b@),
            },
        }
    }
}

/// The registry response: `501` with a remedy when no SDK was packed; otherwise the tarball
/// bytes for a tarball path, or the packument built against the request's `Host` (loopback
/// default when absent).
pub open spec fn npm_plan(c: Console, path: Seq<char>, host: Option<Seq<char>>) -> PlanView {
    match c.sdk_tarball {
        None => PlanView {
            status: 501,
            headers: seq![("content-type"@, "text/plain; charset=utf-8"@), ("x-content-type-options"@, "nosniff"@)],
            body: BodyView::Bytes(crate::text::utf8_bytes(no_sdk_message())),
        },
        Some(t) => {
            let tarball_path = classify_spec(c.assets@, c.sdk_version@, path) == Resolution::SdkTarball;
            let authority = match host { Some(h) => h, None => "127.0.0.1:8888"@ };
            PlanView {
                status: 200,
                headers: seq![
                    ("content-type"@, if tarball_path { "application/octet-stream"@ } else { "application/json; charset=utf-8"@ }),
                    ("cache-control"@, "no-cache"@),
                    ("x-content-type-options"@, "nosniff"@),
                ],
                body: if tarball_path {
                    BodyView::Tarball
                } else {
                    BodyView::Bytes(crate::text::utf8_bytes(packument_spec(authority, c.sdk_version@, t@)))
                },
            }
        },
    }
}

/// `405` for a method other than GET/HEAD.
pub open spec fn not_allowed_plan() -> PlanView {
    PlanView {
        status: 405,
        headers: seq![("allow"@, "GET, HEAD"@), ("x-content-type-options"@, "nosniff"@)],
        body: BodyView::Empty,
    }
}

/// `404` for an extension-bearing path that is not embedded.
pub open spec fn not_found_plan() -> PlanView {
    PlanView {
        status: 404,
        headers: seq![("content-type"@, "text/plain; charset=utf-8"@), ("x-content-type-options"@, "nosniff"@)],
        body: BodyView::Bytes(crate::text::utf8_bytes("not found"@)),
    }
}

/// `200` with the embedded asset at `idx`, cached immutably only for hash-named assets.
pub open spec fn asset_plan(c: Console, idx: usize) -> PlanView {
    let a = c.assets@[idx as int];
    PlanView {
        status: 200,
        headers: seq![
            ("content-type"@, a.content_type@),
            ("cache-control"@, if a.immutable { "public, max-age=31536000, immutable"@ } else { "no-cache"@ }),
            ("x-content-type-options"@, "nosniff"@),
        ],
        body: BodyView::Asset(idx),
    }
}

/// The response to one request.
pub open spec fn respond_spec(c: Console, method: Method, path: Seq<char>, host: Option<Seq<char>>) -> PlanView {
    if method == Method::Other {
        not_allowed_plan()
    } else {
        match classify_spec(c.assets@, c.sdk_version@, path) {
            Resolution::SdkPackument | Resolution::SdkTarball => npm_plan(c, path, host),
            Resolution::NotFound => not_found_plan(),
            Resolution::Asset(i) => asset_plan(c, i),
            Resolution::SpaFallback => asset_plan(c, asset_position(c.assets@, "index.html"@)->0 as usize),
        }
    }
}

proof fn lemma_asset_position_range(assets: Seq<Asset>, rel: Seq<char>)
    ensures
        asset_position(assets, rel) matches Some(i) ==> 0 <= i < assets.len() && assets[i].path@ == rel,
{
    if exists|i: int| 0 <= i < assets.len() && assets[i].path@ == rel {
        let w = choose|i: int| 0 <= i < assets.len() && assets[i].path@ == rel;
        lemma_first_match(assets, rel, w);
    }
}

proof fn lemma_first_match(assets: Seq<Asset>, rel: Seq<char>, w: int)
    requires
        0 <= w < assets.len(),
        assets[w].path@ == rel,
    ensures
        exists|i: int| 0 <= i < assets.len() && assets[i].path@ == rel && forall|j: int| 0 <= j < i ==> assets[j].path@ != rel,
    decreases w,
{
    if exists|j: int| 0 <= j < w && assets[j].path@ == rel {
        let j = choose|j: int| 0 <= j < w && assets[j].path@ == rel;
        lemma_first_match(assets, rel, j);
    } else {
        assert(forall|j: int| 0 <= j < w ==> assets[j].path@ != rel);
    }
}

fn header(name: &str, value: &str) -> (r: (String, String))
    ensures
        r.0@ == name@,
        r.1@ == value@,
{
    (String::from_str(name), String::from_str(value))
}

impl Console {
    /// Whether the manifest holds the SPA entrypoint.
    pub open spec fn has_index(&self) -> bool {
        asset_position(self.assets@, "index.html"@) is Some
    }

    /// The registry response.
    fn npm_response(&self, path: &str, host: Option<&str>) -> (r: ResponsePlan)
        ensures
            r.spec_view() == npm_plan(*self, path@, match host { Some(h) => Some(h@), None => None }),
    {
        match &self.sdk_tarball {
            None => {
                let h = vec![header("content-type", "text/plain; charset=utf-8"), header("x-content-type-options", "nosniff")];
                let msg = "this build carries no @kortecx/sdk package (build with `just console-dist`, or set KX_SDK_TARBALL to an `npm pack` tarball)";
                let body = msg.as_bytes_vec();
                let r = ResponsePlan { status: 501, headers: h, body: Body::Bytes(body) };
                assert(headers_view(r.headers@) =~= seq![("content-type"@, "text/plain; charset=utf-8"@), ("x-content-type-options"@, "nosniff"@)]);
                r
            },
            Some(t) => {
                let tarball_path = self.classify(path) == Resolution::SdkTarball;
                let ctype = if tarball_path { "application/octet-stream" } else { "application/json; charset=utf-8" };
                let h = vec![header("content-type", ctype), header("cache-control", "no-cache"), header("x-content-type-options", "nosniff")];
                let body = if tarball_path {
                    Body::Tarball
                } else {
                    let authority = match host { Some(a) => a, None => "127.0.0.1:8888" };
                    let doc = packument(authority, self.sdk_version.as_str(), t.as_slice());
                    Body::Bytes(doc.as_str().as_bytes_vec())
                };
                let r = ResponsePlan { status: 200, headers: h, body };
                assert(headers_view(r.headers@) =~= seq![
                    ("content-type"@, if tarball_path { "application/octet-stream"@ } else { "application/json; charset=utf-8"@ }),
                    ("cache-control"@, "no-cache"@),
                    ("x-content-type-options"@, "nosniff"@),
                ]);
                r
            },
        }
    }

    fn not_allowed_response() -> (r: ResponsePlan)
        ensures
            r.spec_view() == not_allowed_plan(),
    {
        let h = vec![header("allow", "GET, HEAD"), header("x-content-type-options", "nosniff")];
        let r = ResponsePlan { status: 405, headers: h, body: Body::Empty };
        assert(headers_view(r.headers@) =~= seq![("allow"@, "GET, HEAD"@), ("x-content-type-options"@, "nosniff"@)]);
        r
    }

    fn not_found_response() -> (r: ResponsePlan)
        ensures
            r.spec_view() == not_found_plan(),
    {
        let h = vec![header("content-type", "text/plain; charset=utf-8"), header("x-content-type-options", "nosniff")];
        let r = ResponsePlan { status: 404, headers: h, body: Body::Bytes("not found".as_bytes_vec()) };
        assert(headers_view(r.headers@) =~= seq![("content-type"@, "text/plain; charset=utf-8"@), ("x-content-type-options"@, "nosniff"@)]);
        r
    }

    fn asset_response(&self, idx: usize) -> (r: ResponsePlan)
        requires
            idx < self.assets@.len(),
        ensures
            r.spec_view() == asset_plan(*self, idx),
    {
        let a = &self.assets[idx];
        let cache = if a.immutable { "public, max-age=31536000, immutable" } else { "no-cache" };
        let h = vec![header("content-type", a.content_type.as_str()), header("cache-control", cache), header("x-content-type-options", "nosniff")];
        let r = ResponsePlan { status: 200, headers: h, body: Body::Asset(idx) };
        assert(headers_view(r.headers@) =~= seq![
            ("content-type"@, a.content_type@),
            ("cache-control"@, if a.immutable { "public, max-age=31536000, immutable"@ } else { "no-cache"@ }),
            ("x-content-type-options"@, "nosniff"@),
        ]);
        r
    }

    /// Build the response for one request (pure over the embedded manifest). `host` is the
    /// request's `Host` header, when present and readable.
    pub fn respond(&self, method: Method, path: &str, host: Option<&str>) -> (r: ResponsePlan)
        requires
            self.has_index(),
        ensures
            r.spec_view() == respond_spec(*self, method, path@, match host { Some(h) => Some(h@), None => None }),
    {
        if method == Method::Other {
            return Self::not_allowed_response();
        }
        proof {
            lemma_asset_position_range(self.assets@, "index.html"@);
            lemma_asset_position_range(self.assets@, relative_path(path@));
        }
        match self.classify(path) {
            Resolution::Asset(i) => self.asset_response(i),
            Resolution::SpaFallback => match self.index_asset() {
                Some(i) => self.asset_response(i),
                None => self.asset_response(0),
            },
            Resolution::SdkPackument | Resolution::SdkTarball => self.npm_response(path, host),
            Resolution::NotFound => Self::not_found_response(),
        }
    }
}

/// Law: with an SDK tarball embedded, a GET or HEAD of the tarball path is answered `200` with
/// the tarball itself as `application/octet-stream`, and one of the package path `200` with the
/// packument (built against the request's `Host`, loopback when absent) as
/// `application/json; charset=utf-8`.
pub proof fn law_the_registry_serves_the_tarball_and_the_packument(c: Console, method: Method, path: Seq<char>, host: Option<Seq<char>>)
    requires
        c.sdk_tarball is Some,
        method != Method::Other,
    ensures
        classify_spec(c.assets@, c.sdk_version@, path) == Resolution::SdkTarball ==> ({
            let p = respond_spec(c, method, path, host);
            &&& p.status == 200
            &&& p.body == BodyView::Tarball
            &&& p.headers[0] == ("content-type"@, "application/octet-stream"@)
        }),
        classify_spec(c.assets@, c.sdk_version@, path) == Resolution::SdkPackument ==> ({
            let p = respond_spec(c, method, path, host);
            let authority = match host { Some(h) => h, None => "127.0.0.1:8888"@ };
            &&& p.status == 200
            &&& p.body == BodyView::Bytes(vstd::utf8::encode_utf8(packument_spec(authority, c.sdk_version@, c.sdk_tarball->Some_0@)))
            &&& p.headers[0] == ("content-type"@, "application/json; charset=utf-8"@)
        }),
{
}

/// Law: a method other than GET or HEAD is answered `405` allowing `GET, HEAD`; an
/// extension-bearing path that is not embedded `404`; an embedded file `200` with its own bytes
/// and content type; and any other path (a client-side route) `200` with `index.html`.
pub proof fn law_the_console_answers_by_what_the_path_names(c: Console, method: Method, path: Seq<char>, host: Option<Seq<char>>)
    ensures
        method == Method::Other ==> ({
            let p = respond_spec(c, method, path, host);
            p.status == 405 && p.body == BodyView::Empty && p.headers[0] == ("allow"@, "GET, HEAD"@)
        }),
        method != Method::Other && classify_spec(c.assets@, c.sdk_version@, path) == Resolution::NotFound ==> ({
            let p = respond_spec(c, method, path, host);
            p.status == 404 && p.body == BodyView::Bytes(vstd::utf8::encode_utf8("not found"@))
        }),
        method != Method::Other ==> (classify_spec(c.assets@, c.sdk_version@, path) matches Resolution::Asset(i) ==> ({
            let p = respond_spec(c, method, path, host);
            p.status == 200 && p.body == BodyView::Asset(i) && p.headers[0] == ("content-type"@, c.assets@[i as int].content_type@)
        })),
        method != Method::Other && classify_spec(c.assets@, c.sdk_version@, path) == Resolution::SpaFallback ==> ({
            let p = respond_spec(c, method, path, host);
            let i = asset_position(c.assets@, "index.html"@)->Some_0;
            p.status == 200 && p.body == BodyView::Asset(i as usize)
        }),
{
}

} // verus!
