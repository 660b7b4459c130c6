//! The auth seam: resolving a caller identity from the request's `authorization` header.
//!
//! The freshly bound gateway defaults to [`DenyAll`]; the operator may opt into
//! [`DevAllowLocal`] (loopback-only dev access) or configure bearer tokens
//! ([`TokenResolver`]). Identity is server-derived: the client supplies a credential, never a
//! claimed identity.
use vstd::prelude::*;
use vstd::string::*;

use crate::text::{chars_of, chars_start_with, starts_with, str_eq, string_of};

verus! {

// ----- a string → string map ------------------------------------------------------------------

/// The map a pair list denotes (later pairs win).
pub open spec fn pairs_map(es: Seq<(String, String)>) -> Map<Seq<char>, Seq<char>>
    decreases es.len(),
{
    if es.len() == 0 {
        Map::empty()
    } else {
        pairs_map(es.drop_last()).insert(es.last().0@, es.last().1@)
    }
}

pub open spec fn distinct_keys(es: Seq<(String, String)>) -> bool {
    forall|i: int, j: int| 0 <= i < j < es.len() ==> es[i].0@ != es[j].0@
}

proof fn lemma_pairs_map_at(es: Seq<(String, String)>, i: int)
    requires
        distinct_keys(es),
        0 <= i < es.len(),
    ensures
        pairs_map(es).dom().contains(es[i].0@),
        pairs_map(es)[es[i].0@] == es[i].1@,
    decreases es.len(),
{
    let d = es.drop_last();
    if i < es.len() - 1 {
        assert(d[i] == es[i]);
        lemma_pairs_map_at(d, i);
    }
}

proof fn lemma_pairs_map_dom(es: Seq<(String, String)>, t: Seq<char>)
    ensures
        pairs_map(es).dom().contains(t) <==> exists|i: int| 0 <= i < es.len() && es[i].0@ == t,
    decreases es.len(),
{
    if es.len() > 0 {
        let d = es.drop_last();
        lemma_pairs_map_dom(d, t);
        if pairs_map(es).dom().contains(t) {
            if es.last().0@ != t {
                let i = choose|i: int| 0 <= i < d.len() && d[i].0@ == t;
                assert(es[i].0@ == t);
            } else {
                assert(es[es.len() - 1].0@ == t);
            }
        }
        if exists|i: int| 0 <= i < es.len() && es[i].0@ == t {
            let i = choose|i: int| 0 <= i < es.len() && es[i].0@ == t;
            if i < es.len() - 1 {
                assert(d[i].0@ == t);
            }
        }
    }
}

/// Bearer tokens as `token → party handle`.
#[derive(Clone, Debug)]
pub struct TokenMap {
    entries: Vec<(String, String)>,
}

impl View for TokenMap {
    type V = Map<Seq<char>, Seq<char>>;

    closed spec fn view(&self) -> Map<Seq<char>, Seq<char>> {
        pairs_map(self.entries@)
    }
}

impl Default for TokenMap {
    /// An empty map.
    fn default() -> (r: Self)
        ensures
            r.wf(),
            r@ == Map::<Seq<char>, Seq<char>>::empty(),
    {
        TokenMap::new()
    }
}

impl TokenMap {
    pub closed spec fn wf(&self) -> bool {
        distinct_keys(self.entries@)
    }

    /// An empty map.
    pub fn new() -> (r: Self)
        ensures
            r.wf(),
            r@ == Map::<Seq<char>, Seq<char>>::empty(),
    {
        TokenMap { entries: Vec::new() }
    }

    /// Map `token` to `party`, replacing any earlier party for it.
    pub fn insert(&mut self, token: String, party: String)
        requires
            old(self).wf(),
        ensures
            final(self).wf(),
            final(self)@ == old(self)@.insert(token@, party@),
    {
        let mut next: Vec<(String, String)> = Vec::new();
        let mut i: usize = 0;
        let ghost base = self.entries@;
        while i < self.entries.len()
            invariant
                self.entries@ == base,
                distinct_keys(base),
                i <= base.len(),
                distinct_keys(next@),
                forall|a: int| 0 <= a < next@.len() ==> #[trigger] next@[a].0@ != token@,
                forall|a: int| 0 <= a < next@.len() ==> exists|b: int| 0 <= b < i && #[trigger] next@[a].0@ == base[b].0@,
                pairs_map(next@) == pairs_map(base.take(i as int)).remove(token@),
            decreases base.len() - i,
        {
            let ghost pre = base.take(i as int);
            proof {
                assert(base.take(i + 1) == pre.push(base[i as int]));
                assert(base.take(i + 1).drop_last() == pre);
            }
            if !str_eq(self.entries[i].0.as_str(), token.as_str()) {
                let ghost old_next = next@;
                let entry = (self.entries[i].0.clone(), self.entries[i].1.clone());
                next.push(entry);
                proof {
                    assert(next@.drop_last() == old_next);
                    assert forall|a: int, b: int| 0 <= a < b < next@.len() implies next@[a].0@ != next@[b].0@ by {
                        if b == next@.len() - 1 {
                            let c = choose|c: int| 0 <= c < i && #[trigger] old_next[a].0@ == base[c].0@;
                            assert(base[c].0@ != base[i as int].0@);
                        } else {
                            assert(old_next[a] == next@[a] && old_next[b] == next@[b]);
                        }
                    }
                    assert forall|a: int| 0 <= a < next@.len() implies exists|b: int| 0 <= b < i + 1 && #[trigger] next@[a].0@ == base[b].0@ by {
                        if a == next@.len() - 1 {
                            assert(next@[a].0@ == base[i as int].0@);
                        } else {
                            assert(old_next[a] == next@[a]);
                            let c = choose|c: int| 0 <= c < i && #[trigger] old_next[a].0@ == base[c].0@;
                            assert(next@[a].0@ == base[c].0@);
                        }
                    }
                    assert forall|a: int| 0 <= a < next@.len() implies #[trigger] next@[a].0@ != token@ by {
                        if a < next@.len() - 1 {
                            assert(old_next[a] == next@[a]);
                        }
                    }
                    assert(pairs_map(next@) =~= pairs_map(base.take(i + 1)).remove(token@));
                }
            } else {
                proof {
                    assert(pairs_map(next@) =~= pairs_map(base.take(i + 1)).remove(token@));
                }
            }
            i = i + 1;
        }
        assert(base.take(base.len() as int) == base);
        let ghost before = next@;
        let ghost kv = token@;
        let ghost pv = party@;
        next.push((token, party));
        proof {
            assert(next@.drop_last() == before);
            assert forall|a: int, b: int| 0 <= a < b < next@.len() implies next@[a].0@ != next@[b].0@ by {
                if b == next@.len() - 1 {
                    assert(before[a] == next@[a]);
                } else {
                    assert(before[a] == next@[a] && before[b] == next@[b]);
                }
            }
            assert(pairs_map(next@) =~= pairs_map(base).remove(kv).insert(kv, pv));
            assert(pairs_map(next@) =~= pairs_map(base).insert(kv, pv));
        }
        self.entries = next;
    }

    /// `true` when no token is configured.
    pub fn is_empty(&self) -> (r: bool)
        ensures
            r == (self@.dom() =~= Set::<Seq<char>>::empty()),
    {
        proof {
            if self.entries@.len() > 0 {
                lemma_pairs_map_dom(self.entries@, self.entries@[0].0@);
                assert(self@.dom().contains(self.entries@[0].0@));
            } else {
                assert(self@ =~= Map::<Seq<char>, Seq<char>>::empty());
            }
        }
        self.entries.len() == 0
    }

    /// The party `token` maps to.
    pub fn get(&self, token: &str) -> (r: Option<String>)
        requires
            self.wf(),
        ensures
            match r {
                Some(p) => self@.dom().contains(token@) && p@ == self@[token@],
                None => !self@.dom().contains(token@),
            },
    {
        let mut i: usize = 0;
        while i < self.entries.len()
            invariant
                i <= self.entries.len(),
                distinct_keys(self.entries@),
                forall|j: int| 0 <= j < i ==> self.entries@[j].0@ != token@,
            decreases self.entries.len() - i,
        {
            if str_eq(self.entries[i].0.as_str(), token) {
                proof { lemma_pairs_map_at(self.entries@, i as int); }
                return Some(self.entries[i].1.clone());
            }
            i = i + 1;
        }
        proof { lemma_pairs_map_dom(self.entries@, token@); }
        None
    }
}

// ----- resolvers ------------------------------------------------------------------------------

/// A resolved caller identity.
#[derive(Clone, Debug, PartialEq, Eq)]
pub struct Principal {
    /// The caller's subject: `"local-dev"` under [`DevAllowLocal`]; the party handle under
    /// [`TokenResolver`].
    pub subject: String,
    /// The party handle the caller acts as.
    pub party: String,
}

/// A refused request: the RPC fails `unauthenticated` with this message.
#[derive(Clone, Debug, PartialEq, Eq)]
pub struct Unauthenticated {
    pub message: String,
}

/// The safe default: reject every request.
#[derive(Clone, Copy, Debug, Default)]
pub struct DenyAll;

/// The explicit dev escape hatch: allow every request as a fixed `local-dev` principal.
#[derive(Clone, Copy, Debug, Default)]
pub struct DevAllowLocal;

/// A bearer-token resolver over a configured `token → party` map.
///
/// Every failure mode — missing header, wrong scheme, malformed value, unknown token — gets the
/// SAME refusal (no "valid-format-but-unknown" oracle).
#[derive(Clone, Debug)]
pub struct TokenResolver {
    tokens: TokenMap,
}

pub open spec fn deny_all_message() -> Seq<char> {
    "kx-gateway: no auth configured; pass --dev-allow-local for loopback-only dev access (R2 adds real auth)"@
}

pub open spec fn bearer_refusal() -> Seq<char> {
    "invalid or missing bearer token"@
}

/// What the token resolver makes of an `authorization` header value (`None` when the header
/// is absent or not visible ASCII): the party of a `Bearer <token>` whose token is configured.
pub open spec fn bearer_party(tokens: Map<Seq<char>, Seq<char>>, authorization: Option<Seq<char>>) -> Option<Seq<char>> {
    match authorization {
        None => None,
        Some(v) => if starts_with(v, "Bearer "@) && tokens.dom().contains(v.skip(("Bearer "@).len() as int)) {
            Some(tokens[v.skip(("Bearer "@).len() as int)])
        } else {
            None
        },
    }
}

pub open spec fn opt_view(a: Option<&str>) -> Option<Seq<char>> {
    match a {
        Some(s) => Some(s@),
        None => None,
    }
}

impl DenyAll {
    /// Refuse.
    pub fn resolve(&self, authorization: Option<&str>) -> (r: Result<Principal, Unauthenticated>)
        ensures
            r matches Err(e) && e.message@ == deny_all_message(),
    {
        Err(Unauthenticated { message: String::from_str("kx-gateway: no auth configured; pass --dev-allow-local for loopback-only dev access (R2 adds real auth)") })
    }
}

impl DevAllowLocal {
    /// Admit as `local-dev`.
    pub fn resolve(&self, authorization: Option<&str>) -> (r: Result<Principal, Unauthenticated>)
        ensures
            r matches Ok(p) && p.subject@ == "local-dev"@ && p.party@ == "local-dev"@,
    {
        Ok(Principal { subject: String::from_str("local-dev"), party: String::from_str("local-dev") })
    }
}

impl Default for TokenResolver {
    /// A resolver with no tokens (it refuses every request).
    fn default() -> (r: Self)
        ensures
            r.wf(),
            r.tokens() == Map::<Seq<char>, Seq<char>>::empty(),
    {
        TokenResolver { tokens: TokenMap::new() }
    }
}

impl TokenResolver {
    pub closed spec fn wf(&self) -> bool {
        self.tokens.wf()
    }

    pub closed spec fn tokens(&self) -> Map<Seq<char>, Seq<char>> {
        self.tokens@
    }

    /// Build a resolver from a `token → party` map.
    pub fn new(tokens: TokenMap) -> (r: Self)
        requires
            tokens.wf(),
        ensures
            r.wf(),
            r.tokens() == tokens@,
    {
        TokenResolver { tokens }
    }

    /// `true` when no tokens are configured (the host then keeps deny-all).
    pub fn is_empty(&self) -> (r: bool)
        ensures
            r == (self.tokens().dom() =~= Set::<Seq<char>>::empty()),
    {
        self.tokens.is_empty()
    }

    /// Resolve `authorization` (the header value; `None` when absent or not visible ASCII).
    pub fn resolve(&self, authorization: Option<&str>) -> (r: Result<Principal, Unauthenticated>)
        requires
            self.wf(),
        ensures
            match bearer_party(self.tokens(), opt_view(authorization)) {
                Some(p) => r matches Ok(pr) && pr.party@ == p && pr.subject@ == p,
                None => r matches Err(e) && e.message@ == bearer_refusal(),
            },
    {
        let refusal = || -> (e: Unauthenticated)
            ensures e.message@ == bearer_refusal()
        {
            Unauthenticated { message: String::from_str("invalid or missing bearer token") }
        };
        let value = match authorization {
            None => return Err(refusal()),
            Some(v) => v,
        };
        let vc = chars_of(value);
        let prefix = chars_of("Bearer ");
        if !chars_start_with(vc.as_slice(), prefix.as_slice()) {
            return Err(refusal());
        }
        let token = string_of(&vc.as_slice()[prefix.len()..vc.len()]);
        assert(token@ == value@.skip(("Bearer "@).len() as int));
        match self.tokens.get(token.as_str()) {
            None => Err(refusal()),
            Some(party) => Ok(Principal { subject: party.clone(), party }),
        }
    }
}

} // verus!
