//! Per-hosted-app scoped credentials and the live set of hosted loopback origins.
//!
//! A hosted app's page is served on its own `http://127.0.0.1:<port>`; the gateway's CORS
//! consults [`HostedOrigins`] so that only ports actually being served are allowed. The
//! supervisor mints one unguessable token per running app ([`AppTokenStore::mint`]), scoped to
//! that app, and drops it when the app stops.
use vstd::prelude::*;

use crate::text::{
    decimal, lemma_decimal_roundtrip, lemma_last_index_of, lemma_parse_decimal, chars_of, chars_start_with, find_last, hex_lower, hex_lower_spec, last_index_of,
    lemma_hex_lower_len, parse_uint, parse_uint_spec, starts_with,
};

verus! {

// ----- hosted origins -------------------------------------------------------------------------

/// The loopback ports hosted apps are CURRENTLY served on.
#[derive(Debug)]
pub struct HostedOrigins {
    ports: Vec<u16>,
}

impl View for HostedOrigins {
    type V = Set<u16>;

    closed spec fn view(&self) -> Set<u16> {
        Set::new(|p: u16| self.ports@.contains(p))
    }
}

/// The port of an `http://127.0.0.1:<port>` or `http://localhost:<port>` origin: the host is
/// everything between the scheme and the LAST `:`, and the port must parse as a `u16`.
pub open spec fn loopback_origin_port(origin: Seq<char>) -> Option<nat> {
    if !starts_with(origin, "http://"@) {
        None
    } else {
        let rest = origin.skip(("http://"@).len() as int);
        match last_index_of(rest, ':') {
            None => None,
            Some(k) => {
                let host = rest.take(k);
                if host == "127.0.0.1"@ || host == "localhost"@ {
                    parse_uint_spec(rest.skip(k + 1), 65535)
                } else {
                    None
                }
            },
        }
    }
}

/// Whether `origin` is a loopback origin on a live port.
pub open spec fn origin_allowed(origin: Seq<char>, live: Set<u16>) -> bool {
    match loopback_origin_port(origin) {
        Some(p) => live.contains(p as u16),
        None => false,
    }
}

impl Default for HostedOrigins {
    /// No port is live.
    fn default() -> (r: Self)
        ensures
            r@ == Set::<u16>::empty(),
    {
        HostedOrigins::new()
    }
}

impl HostedOrigins {
    /// No port is live.
    pub fn new() -> (r: Self)
        ensures
            r@ == Set::<u16>::empty(),
    {
        let r = HostedOrigins { ports: Vec::new() };
        assert(r@ =~= Set::<u16>::empty());
        r
    }

    /// Mark `port` as live (a hosted app started serving on it).
    pub fn insert(&mut self, port: u16)
        ensures
            final(self)@ == old(self)@.insert(port),
    {
        let mut i: usize = 0;
        while i < self.ports.len()
            invariant
                i <= self.ports.len(),
                forall|j: int| 0 <= j < i ==> self.ports@[j] != port,
            decreases self.ports.len() - i,
        {
            if self.ports[i] == port {
                assert(old(self)@ =~= old(self)@.insert(port));
                return;
            }
            i = i + 1;
        }
        let ghost before = self.ports@;
        self.ports.push(port);
        proof {
            assert forall|q: u16| final(self)@.contains(q) <==> old(self)@.insert(port).contains(q) by {
                if q == port {
                    assert(self.ports@[self.ports@.len() - 1] == port);
                }
                if before.contains(q) {
                    let k = choose|k: int| 0 <= k < before.len() && before[k] == q;
                    assert(self.ports@[k] == q);
                }
                if self.ports@.contains(q) && q != port {
                    let k = choose|k: int| 0 <= k < self.ports@.len() && self.ports@[k] == q;
                    assert(before[k] == q);
                }
            }
        }
        assert(final(self)@ =~= old(self)@.insert(port));
    }

    /// Mark `port` as gone (the app stopped or failed).
    pub fn remove(&mut self, port: u16)
        ensures
            final(self)@ == old(self)@.remove(port),
    {
        let mut kept: Vec<u16> = Vec::new();
        let mut i: usize = 0;
        while i < self.ports.len()
            invariant
                i <= self.ports.len(),
                forall|q: u16| kept@.contains(q) <==> (q != port && exists|j: int| 0 <= j < i && #[trigger] self.ports@[j] == q),
            decreases self.ports.len() - i,
        {
            let p = self.ports[i];
            let ghost old_kept = kept@;
            if p != port {
                kept.push(p);
            }
            proof {
                assert forall|q: u16| kept@.contains(q) <==> (q != port && exists|j: int| 0 <= j < i + 1 && #[trigger] self.ports@[j] == q) by {
                    if kept@.contains(q) {
                        let k = choose|k: int| 0 <= k < kept@.len() && kept@[k] == q;
                        if p != port && k == kept@.len() - 1 {
                            assert(self.ports@[i as int] == q);
                        } else {
                            assert(old_kept[k] == q);
                            assert(old_kept.contains(q));
                        }
                    }
                    if q != port && exists|j: int| 0 <= j < i + 1 && #[trigger] self.ports@[j] == q {
                        let j = choose|j: int| 0 <= j < i + 1 && #[trigger] self.ports@[j] == q;
                        if j == i {
                            assert(kept@[kept@.len() - 1] == q);
                        } else {
                            assert(old_kept.contains(q));
                            let k = choose|k: int| 0 <= k < old_kept.len() && old_kept[k] == q;
                            assert(kept@[k] == q);
                        }
                    }
                }
            }
            i = i + 1;
        }
        self.ports = kept;
        assert(final(self)@ =~= old(self)@.remove(port));
    }

    /// Whether `origin` is a loopback origin currently being served: exactly `http://`, a
    /// loopback host (`127.0.0.1` or `localhost`), and a live port. `https` is not accepted.
    pub fn allows(&self, origin: &str) -> (r: bool)
        ensures
            r == origin_allowed(origin@, self@),
    {
        let o = chars_of(origin);
        let scheme = chars_of("http://");
        if !chars_start_with(o.as_slice(), scheme.as_slice()) {
            return false;
        }
        let rest = &o.as_slice()[scheme.len()..o.len()];
        assert(rest@ == o@.skip(("http://"@).len() as int));
        proof { crate::text::lemma_last_index_of(rest@, ':'); }
        let k = match find_last(rest, ':') {
            None => return false,
            Some(k) => k,
        };
        let host = &rest[0..k];
        assert(host@ == rest@.take(k as int));
        let h1 = chars_of("127.0.0.1");
        let h2 = chars_of("localhost");
        if !(crate::text::chars_eq(host, h1.as_slice()) || crate::text::chars_eq(host, h2.as_slice())) {
            return false;
        }
        let port_chars = &rest[k + 1..rest.len()];
        assert(port_chars@ == rest@.skip(k + 1));
        match parse_uint(port_chars, 65535) {
            None => false,
            Some(p) => {
                let p16 = p as u16;
                self.contains(p16)
            },
        }
    }

    fn contains(&self, port: u16) -> (r: bool)
        ensures
            r == self@.contains(port),
    {
        let mut i: usize = 0;
        while i < self.ports.len()
            invariant
                i <= self.ports.len(),
                forall|j: int| 0 <= j < i ==> self.ports@[j] != port,
            decreases self.ports.len() - i,
        {
            if self.ports[i] == port {
                assert(self.ports@[i as int] == port);
                return true;
            }
            i = i + 1;
        }
        false
    }
}

/// Whether `origin` is `http://` + a loopback host + `:` + a port text with no `:` in it that
/// reads as a live `u16`.
pub open spec fn live_loopback_form(origin: Seq<char>, live: Set<u16>, host: Seq<char>, port_text: Seq<char>) -> bool {
    &&& host == "127.0.0.1"@ || host == "localhost"@
    &&& !port_text.contains(':')
    &&& origin == "http://"@ + host + ":"@ + port_text
    &&& parse_uint_spec(port_text, 65535) matches Some(p) && live.contains(p as u16)
}

/// Law: for any origin text, [`HostedOrigins::allows`] holds exactly when the origin is
/// `http://127.0.0.1:<port>` or `http://localhost:<port>` with a port text that reads as a live
/// port (no `https`, no other host, no second `:`).
pub proof fn law_allows_exactly_live_loopback_origins(origin: Seq<char>, live: Set<u16>)
    ensures
        origin_allowed(origin, live) <==> exists|h: Seq<char>, q: Seq<char>| #[trigger] live_loopback_form(origin, live, h, q),
{
    reveal_strlit("http://");
    reveal_strlit(":");
    reveal_strlit("127.0.0.1");
    reveal_strlit("localhost");
    if origin_allowed(origin, live) {
        let rest = origin.skip(7);
        lemma_last_index_of(rest, ':');
        let k = last_index_of(rest, ':')->0;
        let h = rest.take(k);
        let q = rest.skip(k + 1);
        assert(origin.take(7) == "http://"@);
        assert(origin =~= "http://"@ + h + ":"@ + q) by {
            assert(rest =~= h + ":"@ + q);
            assert(origin =~= origin.take(7) + rest);
        }
        assert(!q.contains(':')) by {
            if q.contains(':') {
                let j = choose|j: int| 0 <= j < q.len() && q[j] == ':';
                assert(rest[k + 1 + j] == ':');
            }
        }
        assert(live_loopback_form(origin, live, h, q));
    }
    if exists|h: Seq<char>, q: Seq<char>| #[trigger] live_loopback_form(origin, live, h, q) {
        let (h, q) = choose|h: Seq<char>, q: Seq<char>| #[trigger] live_loopback_form(origin, live, h, q);
        assert(starts_with(origin, "http://"@)) by {
            assert(origin.take(7) =~= "http://"@);
        }
        let rest = origin.skip(7);
        assert(rest =~= h + ":"@ + q);
        let k = h.len() as int;
        lemma_last_index_of(rest, ':');
        assert(rest[k] == ':');
        assert forall|j: int| k < j < rest.len() implies rest[j] != ':' by {
            assert(rest[j] == q[j - k - 1]);
        }
        match last_index_of(rest, ':') {
            Some(i) => {
                if i < k {
                    assert(rest[k] != ':');
                }
                assert(i == k);
            },
            None => {
                assert(rest[k] != ':');
            },
        }
        assert(rest.take(k) =~= h);
        assert(rest.skip(k + 1) =~= q);
    }
}

/// `http://{host}:{port}`.
pub open spec fn loopback_origin(host: Seq<char>, port: u16) -> Seq<char> {
    "http://"@ + host + ":"@ + decimal(port as nat)
}

/// Law: a hosted app's loopback origin is allowed exactly while its port is live. Serving on
/// `port` ([`HostedOrigins::insert`]) admits `http://127.0.0.1:<port>` and
/// `http://localhost:<port>`; stopping it ([`HostedOrigins::remove`]) refuses them again.
pub proof fn law_origin_allowed_iff_port_live(live: Set<u16>, port: u16)
    ensures
        origin_allowed(loopback_origin("127.0.0.1"@, port), live) == live.contains(port),
        origin_allowed(loopback_origin("localhost"@, port), live) == live.contains(port),
{
    reveal_strlit("http://");
    reveal_strlit(":");
    reveal_strlit("127.0.0.1");
    reveal_strlit("localhost");
    lemma_decimal_roundtrip(port as nat);
    lemma_parse_decimal(port as nat, 65535);
    let d = decimal(port as nat);
    let hosts = seq!["127.0.0.1"@, "localhost"@];
    assert forall|h: int| 0 <= h < 2 implies origin_allowed(loopback_origin(#[trigger] hosts[h], port), live) == live.contains(port) by {
        let host = hosts[h];
        let o = loopback_origin(host, port);
        assert(o.take(7) == "http://"@);
        let rest = o.skip(7);
        assert(rest == host + ":"@ + d);
        let k = host.len() as int;
        lemma_last_index_of(rest, ':');
        assert(rest[k] == ':');
        assert forall|j: int| k < j < rest.len() implies rest[j] != ':' by {
            assert(rest[j] == d[j - k - 1]);
        }
        match last_index_of(rest, ':') {
            Some(i) => {
                if i < k {
                    assert(rest[k] != ':');
                }
                assert(i == k);
            },
            None => {
                assert(rest[k] != ':');
            },
        }
        assert(rest.take(k) == host);
        assert(rest.skip(k + 1) == d);
    }
    assert(hosts[0] == "127.0.0.1"@);
    assert(hosts[1] == "localhost"@);
}

// ----- scoped app tokens -------------------------------------------------------------------

/// What one minted token is allowed to be.
#[derive(Clone, Debug, PartialEq, Eq)]
pub struct AppScope {
    /// The party the hosted app belongs to.
    pub party: String,
    /// The hosted app's own catalog handle.
    pub handle: String,
    /// The App handles this page may run, resolved once at mint.
    pub runnable: Vec<String>,
}

/// The abstract value of a scope.
pub struct ScopeView {
    pub party: Seq<char>,
    pub handle: Seq<char>,
    pub runnable: Seq<Seq<char>>,
}

impl AppScope {
    pub open spec fn spec_view(&self) -> ScopeView {
        ScopeView {
            party: self.party@,
            handle: self.handle@,
            runnable: self.runnable@.map_values(|s: String| s@),
        }
    }

    /// A field-by-field copy.
    pub fn duplicate(&self) -> (r: AppScope)
        ensures
            r.spec_view() == self.spec_view(),
    {
        AppScope {
            party: self.party.clone(),
            handle: self.handle.clone(),
            runnable: clone_strings(&self.runnable),
        }
    }
}

/// A copy of a list of strings.
pub fn clone_strings(v: &Vec<String>) -> (r: Vec<String>)
    ensures
        r@.map_values(|s: String| s@) == v@.map_values(|s: String| s@),
        r@.len() == v@.len(),
        forall|i: int| 0 <= i < v@.len() ==> #[trigger] r@[i]@ == v@[i]@,
{
    let mut out: Vec<String> = Vec::new();
    let mut i: usize = 0;
    while i < v.len()
        invariant
            i <= v.len(),
            out@.len() == i,
            forall|j: int| 0 <= j < i ==> #[trigger] out@[j]@ == v@[j]@,
        decreases v.len() - i,
    {
        out.push(v[i].clone());
        i = i + 1;
    }
    assert(out@.map_values(|s: String| s@) =~= v@.map_values(|s: String| s@));
    out
}

/// Whether a scope belongs to the hosted app `(party, handle)`.
pub open spec fn scope_of(s: ScopeView, party: Seq<char>, handle: Seq<char>) -> bool {
    s.party == party && s.handle == handle
}

/// `m` without any token of the hosted app `(party, handle)`.
pub open spec fn without_app(m: Map<Seq<char>, ScopeView>, party: Seq<char>, handle: Seq<char>) -> Map<Seq<char>, ScopeView> {
    Map::new(|t: Seq<char>| m.dom().contains(t) && !scope_of(m[t], party, handle), |t: Seq<char>| m[t])
}

/// The token → scope map an entry list denotes.
pub open spec fn entries_map(es: Seq<(String, AppScope)>) -> Map<Seq<char>, ScopeView>
    decreases es.len(),
{
    if es.len() == 0 {
        Map::empty()
    } else {
        entries_map(es.drop_last()).insert(es.last().0@, es.last().1.spec_view())
    }
}

/// No token appears twice.
pub open spec fn distinct_tokens(es: Seq<(String, AppScope)>) -> bool {
    forall|i: int, j: int| 0 <= i < j < es.len() ==> es[i].0@ != es[j].0@
}

/// Whether `t` is a token as minted: the lower-case hex of 32 bytes.
pub open spec fn minted_token(t: Seq<char>) -> bool {
    exists|raw: Seq<u8>| raw.len() == 32 && t == hex_lower_spec(raw)
}

/// Whether every live token of `m` is a minted one.
pub open spec fn only_minted(m: Map<Seq<char>, ScopeView>) -> bool {
    forall|t: Seq<char>| #[trigger] m.dom().contains(t) ==> minted_token(t)
}

/// The live token → scope map.
#[derive(Debug)]
pub struct AppTokenStore {
    by_token: Vec<(String, AppScope)>,
}

impl View for AppTokenStore {
    type V = Map<Seq<char>, ScopeView>;

    closed spec fn view(&self) -> Map<Seq<char>, ScopeView> {
        entries_map(self.by_token@)
    }
}

/// The OS entropy source failed, so no credential could be minted.
#[derive(Debug, Clone, Copy, PartialEq, Eq)]
pub struct EntropyUnavailable;

/// `getrandom::fill`: 32 bytes from the operating system's random source, or `None` when that
/// source fails. Nothing is promised of the bytes.
#[verifier::external_body]
fn os_random_32() -> (r: Option<[u8; 32]>) {
    let mut raw = [0u8; 32];
    match getrandom::fill(&mut raw) {
        Ok(()) => Some(raw),
        Err(_) => None,
    }
}

proof fn lemma_entries_map_dom(es: Seq<(String, AppScope)>, t: Seq<char>)
    ensures
        entries_map(es).dom().contains(t) <==> exists|i: int| 0 <= i < es.len() && es[i].0@ == t,
    decreases es.len(),
{
    if es.len() > 0 {
        let d = es.drop_last();
        lemma_entries_map_dom(d, t);
        if entries_map(es).dom().contains(t) {
            if es.last().0@ != t {
                let i = choose|i: int| 0 <= i < d.len() && d[i].0@ == t;
                assert(es[i].0@ == t);
            } else {
                assert(es[es.len() - 1].0@ == t);
            }
        }
        if exists|i: int| 0 <= i < es.len() && es[i].0@ == t {
            let i = choose|i: int| 0 <= i < es.len() && es[i].0@ == t;
            if i < es.len() - 1 {
                assert(d[i].0@ == t);
            }
        }
    }
}

proof fn lemma_entries_map_at(es: Seq<(String, AppScope)>, i: int)
    requires
        distinct_tokens(es),
        0 <= i < es.len(),
    ensures
        entries_map(es).dom().contains(es[i].0@),
        entries_map(es)[es[i].0@] == es[i].1.spec_view(),
    decreases es.len(),
{
    let d = es.drop_last();
    if i < es.len() - 1 {
        assert(distinct_tokens(d));
        assert(d[i] == es[i]);
        lemma_entries_map_at(d, i);
        assert(es[i].0@ != es.last().0@);
    }
}

impl Default for AppTokenStore {
    /// An empty store.
    fn default() -> (r: Self)
        ensures
            r.wf(),
            r@ == Map::<Seq<char>, ScopeView>::empty(),
    {
        AppTokenStore::new()
    }
}

impl AppTokenStore {
    /// An empty store.
    pub fn new() -> (r: Self)
        ensures
            r.wf(),
            r@ == Map::<Seq<char>, ScopeView>::empty(),
    {
        AppTokenStore { by_token: Vec::new() }
    }

    pub closed spec fn wf(&self) -> bool {
        &&& distinct_tokens(self.by_token@)
        &&& only_minted(entries_map(self.by_token@))
    }

    /// The entries that do NOT belong to `(party, handle)`, in order.
    fn retained(&self, party: &str, handle: &str) -> (r: Vec<(String, AppScope)>)
        requires
            self.wf(),
        ensures
            distinct_tokens(r@),
            entries_map(r@) == without_app(self@, party@, handle@),
    {
        let es = &self.by_token;
        let mut kept: Vec<(String, AppScope)> = Vec::new();
        let mut i: usize = 0;
        while i < es.len()
            invariant
                i <= es.len(),
                distinct_tokens(es@),
                distinct_tokens(kept@),
                forall|a: int| 0 <= a < kept@.len() ==> exists|b: int| 0 <= b < i && #[trigger] kept@[a].0@ == es@[b].0@,
                entries_map(kept@) == without_app(entries_map(es@.take(i as int)), party@, handle@),
            decreases es.len() - i,
        {
            let e = &es[i];
            let ghost pre = es@.take(i as int);
            proof {
                assert(es@.take(i + 1) == pre.push(es@[i as int]));
                assert(es@.take(i + 1).drop_last() == pre);
                assert(distinct_tokens(pre));
                lemma_entries_map_dom(pre, e.0@);
                if entries_map(pre).dom().contains(e.0@) {
                    let b = choose|b: int| 0 <= b < pre.len() && pre[b].0@ == e.0@;
                    assert(es@[b].0@ == es@[i as int].0@);
                }
            }
            let mine = crate::text::str_eq(e.1.party.as_str(), party) && crate::text::str_eq(e.1.handle.as_str(), handle);
            if !mine {
                let ghost old_kept = kept@;
                let entry = (e.0.clone(), e.1.duplicate());
                kept.push(entry);
                proof {
                    assert(kept@.drop_last() == old_kept);
                    assert forall|a: int, b: int| 0 <= a < b < kept@.len() implies kept@[a].0@ != kept@[b].0@ by {
                        if b == kept@.len() - 1 {
                            let c = choose|c: int| 0 <= c < i && #[trigger] old_kept[a].0@ == es@[c].0@;
                            assert(es@[c].0@ != es@[i as int].0@);
                        } else {
                            assert(old_kept[a] == kept@[a] && old_kept[b] == kept@[b]);
                        }
                    }
                    assert forall|a: int| 0 <= a < kept@.len() implies exists|b: int| 0 <= b < i + 1 && #[trigger] kept@[a].0@ == es@[b].0@ by {
                        if a == kept@.len() - 1 {
                            assert(kept@[a].0@ == es@[i as int].0@);
                        } else {
                            assert(old_kept[a] == kept@[a]);
                            let c = choose|c: int| 0 <= c < i && #[trigger] old_kept[a].0@ == es@[c].0@;
                            assert(kept@[a].0@ == es@[c].0@);
                        }
                    }
                    assert(entries_map(kept@) =~= without_app(entries_map(es@.take(i + 1)), party@, handle@));
                }
            } else {
                proof {
                    assert(entries_map(kept@) =~= without_app(entries_map(es@.take(i + 1)), party@, handle@));
                }
            }
            i = i + 1;
        }
        assert(es@.take(es.len() as int) == es@);
        kept
    }

    /// Drop every token of one hosted app (called when it stops).
    pub fn revoke(&mut self, party: &str, handle: &str)
        requires
            old(self).wf(),
        ensures
            final(self).wf(),
            final(self)@ == without_app(old(self)@, party@, handle@),
    {
        let kept = self.retained(party, handle);
        proof {
            assert forall|t: Seq<char>| #[trigger] entries_map(kept@).dom().contains(t) implies minted_token(t) by {
                assert(self@.dom().contains(t));
            }
        }
        self.by_token = kept;
    }

    /// Resolve a bearer token to its scope, or `None` when it is not one of ours.
    pub fn resolve(&self, token: &str) -> (r: Option<AppScope>)
        requires
            self.wf(),
        ensures
            match r {
                Some(s) => self@.dom().contains(token@) && s.spec_view() == self@[token@],
                None => !self@.dom().contains(token@),
            },
    {
        let es = &self.by_token;
        let mut i: usize = 0;
        while i < es.len()
            invariant
                i <= es.len(),
                es@ == self.by_token@,
                distinct_tokens(es@),
                forall|j: int| 0 <= j < i ==> es@[j].0@ != token@,
            decreases es.len() - i,
        {
            if crate::text::str_eq(es[i].0.as_str(), token) {
                proof { lemma_entries_map_at(es@, i as int); }
                let s = es[i].1.duplicate();
                return Some(s);
            }
            i = i + 1;
        }
        proof { lemma_entries_map_dom(es@, token@); }
        None
    }

    /// Mint a fresh token for a hosted app, replacing any it already had: 32 bytes of OS
    /// randomness, lower-case hex-encoded. Fails (and changes nothing) only when the OS entropy
    /// source is unavailable — a predictable fallback would be a guessable credential.
    pub fn mint(&mut self, party: &str, handle: &str, runnable: Vec<String>) -> (r: Result<String, EntropyUnavailable>)
        requires
            old(self).wf(),
        ensures
            final(self).wf(),
            match r {
                Ok(token) => {
                    &&& token@.len() == 64
                    &&& exists|raw: Seq<u8>| raw.len() == 32 && token@ == hex_lower_spec(raw)
                    &&& final(self)@ == without_app(old(self)@, party@, handle@).insert(
                        token@,
                        ScopeView { party: party@, handle: handle@, runnable: runnable@.map_values(|s: String| s@) },
                    )
                },
                Err(_) => final(self)@ == old(self)@,
            },
    {
        let raw = match os_random_32() {
            Some(raw) => raw,
            None => return Err(EntropyUnavailable),
        };
        let token = self.install_token(&raw, party, handle, runnable);
        proof { lemma_hex_lower_len(raw@); }
        Ok(token)
    }

    /// Install the token drawn as `raw` for a hosted app: its lower-case hex replaces every
    /// token the app held (and any other app's token that happens to equal it).
    pub fn install_token(&mut self, raw: &[u8; 32], party: &str, handle: &str, runnable: Vec<String>) -> (token: String)
        requires
            old(self).wf(),
        ensures
            final(self).wf(),
            token@ == hex_lower_spec(raw@),
            final(self)@ == without_app(old(self)@, party@, handle@).insert(
                token@,
                ScopeView { party: party@, handle: handle@, runnable: runnable@.map_values(|s: String| s@) },
            ),
    {
        let token = hex_lower(raw);
        proof { lemma_hex_lower_len(raw@); }
        let scope = AppScope {
            party: String::from_str(party),
            handle: String::from_str(handle),
            runnable,
        };
        let mut kept = self.retained(party, handle);
        // A colliding token of another app is replaced, as a map insert would.
        let mut next: Vec<(String, AppScope)> = Vec::new();
        let mut i: usize = 0;
        let ghost base = kept@;
        while i < kept.len()
            invariant
                kept@ == base,
                distinct_tokens(base),
                i <= base.len(),
                distinct_tokens(next@),
                forall|a: int| 0 <= a < next@.len() ==> #[trigger] next@[a].0@ != token@,
                forall|a: int| 0 <= a < next@.len() ==> exists|b: int| 0 <= b < i && #[trigger] next@[a].0@ == base[b].0@,
                entries_map(next@) == entries_map(base.take(i as int)).remove(token@),
            decreases base.len() - i,
        {
            let ghost pre = base.take(i as int);
            proof {
                assert(base.take(i + 1) == pre.push(base[i as int]));
                assert(base.take(i + 1).drop_last() == pre);
                assert(distinct_tokens(pre));
            }
            if !crate::text::str_eq(kept[i].0.as_str(), token.as_str()) {
                let ghost old_next = next@;
                let entry = (kept[i].0.clone(), kept[i].1.duplicate());
                next.push(entry);
                proof {
                    assert(next@.drop_last() == old_next);
                    assert forall|a: int, b: int| 0 <= a < b < next@.len() implies next@[a].0@ != next@[b].0@ by {
                        if b == next@.len() - 1 {
                            let c = choose|c: int| 0 <= c < i && #[trigger] old_next[a].0@ == base[c].0@;
                            assert(base[c].0@ != base[i as int].0@);
                        } else {
                            assert(old_next[a] == next@[a] && old_next[b] == next@[b]);
                        }
                    }
                    assert forall|a: int| 0 <= a < next@.len() implies exists|b: int| 0 <= b < i + 1 && #[trigger] next@[a].0@ == base[b].0@ by {
                        if a == next@.len() - 1 {
                            assert(next@[a].0@ == base[i as int].0@);
                        } else {
                            assert(old_next[a] == next@[a]);
                            let c = choose|c: int| 0 <= c < i && #[trigger] old_next[a].0@ == base[c].0@;
                            assert(next@[a].0@ == base[c].0@);
                        }
                    }
                    assert forall|a: int| 0 <= a < next@.len() implies #[trigger] next@[a].0@ != token@ by {
                        if a < next@.len() - 1 {
                            assert(old_next[a] == next@[a]);
                        }
                    }
                    assert(entries_map(next@) =~= entries_map(base.take(i + 1)).remove(token@));
                }
            } else {
                proof {
                    assert(entries_map(next@) =~= entries_map(base.take(i + 1)).remove(token@));
                }
            }
            i = i + 1;
        }
        assert(base.take(base.len() as int) == base);
        let ghost before = next@;
        let ghost scope_view = scope.spec_view();
        next.push((token.clone(), scope));
        proof {
            assert(next@.drop_last() == before);
            assert forall|a: int, b: int| 0 <= a < b < next@.len() implies next@[a].0@ != next@[b].0@ by {
                if b == next@.len() - 1 {
                    assert(before[a] == next@[a]);
                } else {
                    assert(before[a] == next@[a] && before[b] == next@[b]);
                }
            }
            assert(entries_map(next@) =~= entries_map(base).remove(token@).insert(token@, scope_view));
            assert(entries_map(next@) =~= entries_map(base).insert(token@, scope_view));
            assert(minted_token(token@));
            assert forall|t: Seq<char>| #[trigger] entries_map(next@).dom().contains(t) implies minted_token(t) by {
                if t != token@ {
                    assert(entries_map(base).dom().contains(t));
                    assert(old(self)@.dom().contains(t));
                }
            }
        }
        self.by_token = next;
        token
    }
}


/// Law: only minted tokens resolve — every token a store holds is the lower-case hex of 32
/// bytes (64 characters), so any other text, such as `not-a-token`, never resolves.
pub proof fn law_only_minted_tokens_resolve(store: AppTokenStore, t: Seq<char>)
    requires
        store.wf(),
        store@.dom().contains(t),
    ensures
        minted_token(t),
        t.len() == 64,
{
    let raw = choose|raw: Seq<u8>| raw.len() == 32 && t == hex_lower_spec(raw);
    lemma_hex_lower_len(raw);
}

/// Law: minting again for the same hosted app invalidates every token it held before —
/// whatever token the mint draws, an earlier token of that app no longer resolves.
pub proof fn law_remint_invalidates_previous_tokens(
    before: Map<Seq<char>, ScopeView>,
    party: Seq<char>,
    handle: Seq<char>,
    fresh: Seq<char>,
    scope: ScopeView,
    old_token: Seq<char>,
)
    requires
        before.dom().contains(old_token),
        scope_of(before[old_token], party, handle),
        old_token != fresh,
    ensures
        !without_app(before, party, handle).insert(fresh, scope).dom().contains(old_token),
{
}

/// Law: revoking one hosted app drops all of its tokens and leaves every other app's tokens
/// resolving exactly as before.
pub proof fn law_revoke_drops_only_that_app(
    before: Map<Seq<char>, ScopeView>,
    party: Seq<char>,
    handle: Seq<char>,
    token: Seq<char>,
)
    requires
        before.dom().contains(token),
    ensures
        scope_of(before[token], party, handle) ==> !without_app(before, party, handle).dom().contains(token),
        !scope_of(before[token], party, handle) ==> without_app(before, party, handle).dom().contains(token)
            && without_app(before, party, handle)[token] == before[token],
{
}

} // verus!
