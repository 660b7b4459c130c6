//! The read-only capability manifest of a stored App: the tools, connections, datasets and
//! model it asks for, each diffed against the caller's live policy with the same folds a run
//! applies, so a capability reported in policy is exactly one the run would grant.
use vstd::prelude::*;
use vstd::string::*;

use crate::bindings::{
    add_absent, add_absent_into, binding_view, combined_tool_wish, lemma_add_absent_union,
    skill_wish_spec, ConnectionRef, DatasetBinding, SkillRef, StepSpec,
};
use crate::collections::{pair_views, pairs_sorted, string_views, PairSet, StrMap, StrSet};
use crate::text::{chars_of, str_eq};

verus! {

/// One line of the manifest.
#[derive(Debug, Clone, PartialEq, Eq)]
pub struct AppCapability {
    pub id: String,
    /// Empty for a connection, a dataset or the model.
    pub version: String,
    /// The App asks for it.
    pub requested: bool,
    /// The caller's live policy grants it.
    pub in_policy: bool,
    /// Surfaced only because the App inherits the caller's whole tool ceiling.
    pub inherited: bool,
}

/// The manifest of one App.
#[derive(Debug, Clone, PartialEq, Eq)]
pub struct AppManifest {
    pub reach_inherit: bool,
    pub tools: Vec<AppCapability>,
    pub connections: Vec<AppCapability>,
    pub datasets: Vec<AppCapability>,
    pub model_route: String,
    pub model_route_served: bool,
}

/// A line as plain values: `(id, version, requested, in_policy, inherited)`.
pub open spec fn line_view(c: AppCapability) -> (Seq<char>, Seq<char>, bool, bool, bool) {
    (c.id@, c.version@, c.requested, c.in_policy, c.inherited)
}

/// The `(id, version)` of each line.
pub open spec fn line_keys(cs: Seq<AppCapability>) -> Seq<(Seq<char>, Seq<char>)> {
    cs.map_values(|c: AppCapability| (c.id@, c.version@))
}

// ----- the tool ceiling -----------------------------------------------------------------------

/// Whether the caller's allowlist admits a grant: no allowlist (no explicit grants) admits
/// everything.
pub open spec fn allowed(allowlist: Option<Set<(Seq<char>, Seq<char>)>>, g: (Seq<char>, Seq<char>)) -> bool {
    match allowlist {
        None => true,
        Some(a) => a.contains(g),
    }
}

/// The caller's tool ceiling: the fireable grants the tool registry knows (`in_registry`, by
/// position) that the caller's allowlist admits.
pub open spec fn ceiling_spec(fireable: Seq<(String, String)>, in_registry: Seq<bool>, allowlist: Option<Set<(Seq<char>, Seq<char>)>>) -> Set<(Seq<char>, Seq<char>)> {
    Set::new(|g: (Seq<char>, Seq<char>)| exists|i: int| 0 <= i < fireable.len() && #[trigger] pair_views(fireable)[i] == g
        && in_registry[i] && allowed(allowlist, g))
}

/// The grants the caller may fire at all, as a sorted set: each fireable grant the tool
/// registry resolves (`in_registry[i]` is the registry lookup of `fireable[i]`) and, when the
/// caller holds explicit tool grants, that the allowlist admits.
pub fn principal_tool_ceiling(fireable: &[(String, String)], in_registry: &[bool], allowlist: Option<&PairSet>) -> (r: PairSet)
    requires
        fireable.len() == in_registry.len(),
        match allowlist { Some(a) => a.wf(), None => true },
    ensures
        r.wf(),
        r@ == ceiling_spec(fireable@, in_registry@, match allowlist { Some(a) => Some(a@), None => None }),
{
    let ghost al = match allowlist { Some(a) => Some(a@), None => None::<Set<(Seq<char>, Seq<char>)>> };
    let mut out = PairSet::new();
    let mut i: usize = 0;
    while i < fireable.len()
        invariant
            i <= fireable.len(),
            fireable.len() == in_registry.len(),
            match allowlist { Some(a) => a.wf(), None => true },
            al == match allowlist { Some(a) => Some(a@), None => None::<Set<(Seq<char>, Seq<char>)>> },
            out.wf(),
            out@ == ceiling_spec(fireable@.take(i as int), in_registry@.take(i as int), al),
        decreases fireable.len() - i,
    {
        let ghost before = out@;
        let id = fireable[i].0.as_str();
        let ver = fireable[i].1.as_str();
        let take = in_registry[i] && match allowlist {
            None => true,
            Some(a) => a.contains(id, ver),
        };
        if take {
            out.insert(id, ver);
        }
        proof {
            let f0 = fireable@.take(i as int);
            let f1 = fireable@.take(i + 1);
            let r0 = in_registry@.take(i as int);
            let r1 = in_registry@.take(i + 1);
            assert(pair_views(f1)[i as int] == (id@, ver@));
            assert forall|g: (Seq<char>, Seq<char>)| #[trigger] out@.contains(g) <==> ceiling_spec(f1, r1, al).contains(g) by {
                if ceiling_spec(f0, r0, al).contains(g) {
                    let k = choose|k: int| 0 <= k < f0.len() && #[trigger] pair_views(f0)[k] == g && r0[k] && allowed(al, g);
                    assert(pair_views(f1)[k] == pair_views(f0)[k]);
                }
                if ceiling_spec(f1, r1, al).contains(g) {
                    let k = choose|k: int| 0 <= k < f1.len() && #[trigger] pair_views(f1)[k] == g && r1[k] && allowed(al, g);
                    if k < i {
                        assert(pair_views(f0)[k] == pair_views(f1)[k]);
                        assert(ceiling_spec(f0, r0, al).contains(g));
                    }
                }
            }
            assert(out@ =~= ceiling_spec(f1, r1, al));
        }
        i = i + 1;
    }
    assert(fireable@.take(fireable.len() as int) == fireable@);
    assert(in_registry@.take(in_registry.len() as int) == in_registry@);
    out
}

// ----- the declared wish ----------------------------------------------------------------------

/// The tool contracts of the blueprint's steps, the earliest step winning a shared tool id.
pub open spec fn step_contracts(steps: Seq<StepSpec>) -> Map<Seq<char>, Seq<char>>
    decreases steps.len(),
{
    if steps.len() == 0 {
        Map::empty()
    } else {
        steps.last().tool_contract@.union_prefer_right(step_contracts(steps.drop_last()))
    }
}

/// Everything an App asks to reach: the steering grants and skill wishes (as a run combines
/// them), plus each tool a blueprint step's own contract names; a version already wished for
/// wins over a step's, and an earlier step's over a later one's.
pub fn manifest_wish(skills: &[SkillRef], steering_grants: &StrMap, steps: &[StepSpec]) -> (r: StrMap)
    requires
        steering_grants.wf(),
        forall|i: int| 0 <= i < steps@.len() ==> (#[trigger] steps@[i]).tool_contract.wf(),
    ensures
        r.wf(),
        r@ == step_contracts(steps@).union_prefer_right(steering_grants@.union_prefer_right(skill_wish_spec(skills@))),
{
    let mut wish = combined_tool_wish(skills, steering_grants);
    let ghost base = wish@;
    let mut i: usize = 0;
    assert(step_contracts(steps@.take(0)) =~= Map::<Seq<char>, Seq<char>>::empty());
    assert(Map::<Seq<char>, Seq<char>>::empty().union_prefer_right(base) =~= base);
    while i < steps.len()
        invariant
            i <= steps.len(),
            forall|k: int| 0 <= k < steps@.len() ==> (#[trigger] steps@[k]).tool_contract.wf(),
            wish.wf(),
            wish@ == step_contracts(steps@.take(i as int)).union_prefer_right(base),
        decreases steps.len() - i,
    {
        let ghost before = wish@;
        let c = &steps[i].tool_contract;
        add_absent_into(&mut wish, c.entries());
        proof {
            c.lemma_view();
            lemma_add_absent_union(before, c.pairs());
            assert(steps@.take(i + 1).drop_last() == steps@.take(i as int));
            assert(steps@.take(i + 1).last() == steps@[i as int]);
            assert(wish@ =~= step_contracts(steps@.take(i + 1)).union_prefer_right(base));
        }
        i = i + 1;
    }
    assert(steps@.take(steps.len() as int) == steps@);
    wish
}

// ----- the lines ------------------------------------------------------------------------------

/// The `(id, version)` pairs a wish asks for.
pub open spec fn wish_pairs(wish: Map<Seq<char>, Seq<char>>) -> Set<(Seq<char>, Seq<char>)> {
    Set::new(|p: (Seq<char>, Seq<char>)| wish.contains_key(p.0) && wish[p.0] == p.1)
}

/// The tool keys a manifest lists: the wish, plus the ceiling when the App inherits it.
pub open spec fn tool_keys(wish: Map<Seq<char>, Seq<char>>, ceiling: Set<(Seq<char>, Seq<char>)>, reach_inherit: bool) -> Set<(Seq<char>, Seq<char>)> {
    if reach_inherit { wish_pairs(wish).union(ceiling) } else { wish_pairs(wish) }
}

/// The line of one tool key.
pub open spec fn tool_line(wish: Map<Seq<char>, Seq<char>>, ceiling: Set<(Seq<char>, Seq<char>)>, reach_inherit: bool, k: (Seq<char>, Seq<char>)) -> (Seq<char>, Seq<char>, bool, bool, bool) {
    let requested = wish.contains_key(k.0) && wish[k.0] == k.1;
    let in_policy = ceiling.contains(k);
    (k.0, k.1, requested, in_policy, reach_inherit && in_policy && !requested)
}

fn tool_line_of(wish: &StrMap, ceiling: &PairSet, reach_inherit: bool, id: &str, version: &str) -> (r: AppCapability)
    requires
        wish.wf(),
        ceiling.wf(),
    ensures
        line_view(r) == tool_line(wish@, ceiling@, reach_inherit, (id@, version@)),
{
    let requested = match wish.get(id) {
        Some(v) => str_eq(v.as_str(), version),
        None => false,
    };
    let in_policy = ceiling.contains(id, version);
    AppCapability {
        id: String::from_str(id),
        version: String::from_str(version),
        requested,
        in_policy,
        inherited: reach_inherit && in_policy && !requested,
    }
}

/// The tool lines, in `(id, version)` order: one per tool the App asks for (and, when it
/// inherits the caller's ceiling, one per ceiling grant), each marked requested (the wish
/// names that exact version), in policy (the ceiling holds it) and inherited (in policy only
/// through the inherited ceiling).
pub fn tool_manifest_lines(wish: &StrMap, ceiling: &PairSet, reach_inherit: bool) -> (r: Vec<AppCapability>)
    requires
        wish.wf(),
        ceiling.wf(),
    ensures
        pairs_sorted(line_keys(r@)),
        line_keys(r@).to_set() == tool_keys(wish@, ceiling@, reach_inherit),
        forall|i: int| 0 <= i < r@.len() ==> line_view(#[trigger] r@[i]) == tool_line(wish@, ceiling@, reach_inherit, line_keys(r@)[i]),
{
    let mut keys = PairSet::new();
    let es = wish.entries();
    let mut i: usize = 0;
    proof { wish.lemma_view(); }
    while i < es.len()
        invariant
            i <= es.len(),
            es@ == wish.pairs(),
            wish.wf(),
            keys.wf(),
            keys@ == Set::new(|p: (Seq<char>, Seq<char>)| exists|j: int| 0 <= j < i && #[trigger] pair_views(es@)[j] == p),
        decreases es.len() - i,
    {
        keys.insert(es[i].0.as_str(), es[i].1.as_str());
        proof {
            assert(pair_views(es@)[i as int] == (es@[i as int].0@, es@[i as int].1@));
            assert(keys@ =~= Set::new(|p: (Seq<char>, Seq<char>)| exists|j: int| 0 <= j < i + 1 && #[trigger] pair_views(es@)[j] == p));
        }
        i = i + 1;
    }
    proof {
        crate::collections::lemma_pairs_map(wish.pairs());
        assert forall|p: (Seq<char>, Seq<char>)| #[trigger] keys@.contains(p) <==> wish_pairs(wish@).contains(p) by {
            if keys@.contains(p) {
                let j = choose|j: int| 0 <= j < es@.len() && #[trigger] pair_views(es@)[j] == p;
                assert(wish@[es@[j].0@] == es@[j].1@);
            }
            if wish_pairs(wish@).contains(p) {
                let j = choose|j: int| 0 <= j < es@.len() && es@[j].0@ == p.0;
                assert(wish@[es@[j].0@] == es@[j].1@);
                assert(pair_views(es@)[j] == p);
            }
        }
        assert(keys@ =~= wish_pairs(wish@));
    }
    if reach_inherit {
        let cs = ceiling.items();
        let ghost wp = keys@;
        let mut k: usize = 0;
        while k < cs.len()
            invariant
                k <= cs.len(),
                cs@ == ceiling.elems(),
                ceiling.wf(),
                keys.wf(),
                keys@ == wp.union(Set::new(|p: (Seq<char>, Seq<char>)| exists|j: int| 0 <= j < k && #[trigger] pair_views(cs@)[j] == p)),
            decreases cs.len() - k,
        {
            keys.insert(cs[k].0.as_str(), cs[k].1.as_str());
            proof {
                assert(pair_views(cs@)[k as int] == (cs@[k as int].0@, cs@[k as int].1@));
                assert(keys@ =~= wp.union(Set::new(|p: (Seq<char>, Seq<char>)| exists|j: int| 0 <= j < k + 1 && #[trigger] pair_views(cs@)[j] == p)));
            }
            k = k + 1;
        }
        proof {
            ceiling.lemma_view();
            assert(keys@ =~= wp.union(ceiling@));
        }
    }
    let items = keys.items();
    let mut out: Vec<AppCapability> = Vec::new();
    let mut m: usize = 0;
    proof { keys.lemma_view(); }
    while m < items.len()
        invariant
            m <= items.len(),
            items@ == keys.elems(),
            keys.wf(),
            wish.wf(),
            ceiling.wf(),
            pairs_sorted(pair_views(items@)),
            out@.len() == m,
            forall|j: int| 0 <= j < m ==> (#[trigger] line_keys(out@)[j]) == pair_views(items@)[j],
            forall|j: int| 0 <= j < m ==> line_view(#[trigger] out@[j]) == tool_line(wish@, ceiling@, reach_inherit, pair_views(items@)[j]),
        decreases items.len() - m,
    {
        let line = tool_line_of(wish, ceiling, reach_inherit, items[m].0.as_str(), items[m].1.as_str());
        out.push(line);
        proof {
            assert(pair_views(items@)[m as int] == (items@[m as int].0@, items@[m as int].1@));
            assert forall|j: int| 0 <= j < m + 1 implies (#[trigger] line_keys(out@)[j]) == pair_views(items@)[j] by {
                assert(line_keys(out@)[j] == (out@[j].id@, out@[j].version@));
            }
        }
        m = m + 1;
    }
    proof {
        assert(line_keys(out@) =~= pair_views(items@));
        assert(line_keys(out@).to_set() =~= keys@);
    }
    out
}

/// A connection line: in policy when the caller registered its credential, or — for a
/// one-click bind that names only the endpoint — a connection at that endpoint.
pub open spec fn connection_line(c: ConnectionRef, creds: Set<Seq<char>>, endpoints: Set<Seq<char>>) -> (Seq<char>, Seq<char>, bool, bool, bool) {
    let in_policy = if c.credential_ref@.len() == 0 { endpoints.contains(c.descriptor@) } else { creds.contains(c.credential_ref@) };
    (c.descriptor@, Seq::empty(), true, in_policy, false)
}

/// One line per referenced connection, in declaration order.
pub fn connection_manifest_lines(conns: &[ConnectionRef], registered_credentials: &StrSet, registered_endpoints: &StrSet) -> (r: Vec<AppCapability>)
    requires
        registered_credentials.wf(),
        registered_endpoints.wf(),
    ensures
        r@.len() == conns@.len(),
        forall|i: int| 0 <= i < conns@.len() ==> line_view(#[trigger] r@[i]) == connection_line(conns@[i], registered_credentials@, registered_endpoints@),
{
    let mut out: Vec<AppCapability> = Vec::new();
    let mut i: usize = 0;
    while i < conns.len()
        invariant
            i <= conns.len(),
            registered_credentials.wf(),
            registered_endpoints.wf(),
            out@.len() == i,
            forall|j: int| 0 <= j < i ==> line_view(#[trigger] out@[j]) == connection_line(conns@[j], registered_credentials@, registered_endpoints@),
        decreases conns.len() - i,
    {
        let c = &conns[i];
        let in_policy = if chars_of(c.credential_ref.as_str()).len() == 0 {
            registered_endpoints.contains(c.descriptor.as_str())
        } else {
            registered_credentials.contains(c.credential_ref.as_str())
        };
        out.push(AppCapability {
            id: c.descriptor.clone(),
            version: String::new(),
            requested: true,
            in_policy,
            inherited: false,
        });
        i = i + 1;
    }
    out
}

/// A dataset line: in policy unless the run would refuse on it — a dataset that carries no
/// corpus of its own and is not ingested, where a retrieval view exists (`available` is
/// `None` on a build without one, where the run degrades to ungrounded instead).
pub open spec fn dataset_line(b: (Seq<char>, Seq<Seq<char>>), available: Option<Set<Seq<char>>>) -> (Seq<char>, Seq<char>, bool, bool, bool) {
    let in_policy = b.1.len() > 0 || match available { None => true, Some(a) => a.contains(b.0) };
    (b.0, Seq::empty(), true, in_policy, false)
}

/// One line per grounding dataset, in binding order.
pub fn dataset_manifest_lines(bindings: &[DatasetBinding], available: Option<&StrSet>) -> (r: Vec<AppCapability>)
    requires
        match available { Some(a) => a.wf(), None => true },
    ensures
        r@.len() == bindings@.len(),
        forall|i: int| 0 <= i < bindings@.len() ==> line_view(#[trigger] r@[i])
            == dataset_line(binding_view(bindings@[i]), match available { Some(a) => Some(a@), None => None }),
{
    let mut out: Vec<AppCapability> = Vec::new();
    let mut i: usize = 0;
    while i < bindings.len()
        invariant
            i <= bindings.len(),
            match available { Some(a) => a.wf(), None => true },
            out@.len() == i,
            forall|j: int| 0 <= j < i ==> line_view(#[trigger] out@[j])
                == dataset_line(binding_view(bindings@[j]), match available { Some(a) => Some(a@), None => None }),
        decreases bindings.len() - i,
    {
        let b = &bindings[i];
        let in_policy = b.cas_refs.len() > 0 || match available {
            None => true,
            Some(a) => a.contains(b.declared.as_str()),
        };
        proof {
            assert(string_views(b.cas_refs@).len() == b.cas_refs@.len());
        }
        out.push(AppCapability {
            id: b.declared.clone(),
            version: String::new(),
            requested: true,
            in_policy,
            inherited: false,
        });
        i = i + 1;
    }
    out
}

/// The model line: an empty route takes the served default; otherwise the serve must offer it.
pub fn model_route_served(route: &str, served: &[String]) -> (r: bool)
    ensures
        r == (route@.len() == 0 || string_views(served@).contains(route@)),
{
    if chars_of(route).len() == 0 {
        return true;
    }
    let mut i: usize = 0;
    while i < served.len()
        invariant
            i <= served.len(),
            forall|j: int| 0 <= j < i ==> (#[trigger] served@[j])@ != route@,
        decreases served.len() - i,
    {
        if str_eq(served[i].as_str(), route) {
            assert(string_views(served@)[i as int] == route@);
            return true;
        }
        i = i + 1;
    }
    proof {
        if string_views(served@).contains(route@) {
            let j = choose|j: int| 0 <= j < string_views(served@).len() && string_views(served@)[j] == route@;
            assert(served@[j]@ == route@);
        }
    }
    false
}


/// Under an inherited ceiling, the tools a manifest lists in policy are exactly the caller's
/// ceiling — the same set the run folds for an inheriting App — and without inheritance a
/// manifest lists only what the App asks for.
pub proof fn law_manifest_in_policy_tools_are_the_ceiling(wish: Map<Seq<char>, Seq<char>>, ceiling: Set<(Seq<char>, Seq<char>)>)
    ensures
        tool_keys(wish, ceiling, true).filter(|k: (Seq<char>, Seq<char>)| tool_line(wish, ceiling, true, k).3) == ceiling,
        tool_keys(wish, ceiling, false) == wish_pairs(wish),
{
    assert(tool_keys(wish, ceiling, true).filter(|k: (Seq<char>, Seq<char>)| tool_line(wish, ceiling, true, k).3) =~= ceiling);
}

/// The manifest of an App from what it asks for and the caller's live policy: its wish (see
/// [`manifest_wish`]), the caller's tool ceiling (`None` when the caller holds no tool
/// authority at all, which leaves nothing in policy), its referenced connections against the
/// caller's registered credentials and endpoints, its grounding datasets against the ingested
/// ones, and its model route against the served catalog.
pub fn app_manifest(
    reach_inherit: bool,
    wish: &StrMap,
    ceiling: Option<&PairSet>,
    conns: &[ConnectionRef],
    registered_credentials: &StrSet,
    registered_endpoints: &StrSet,
    datasets: &[DatasetBinding],
    available: Option<&StrSet>,
    route: &str,
    served: &[String],
) -> (r: AppManifest)
    requires
        wish.wf(),
        match ceiling { Some(c) => c.wf(), None => true },
        registered_credentials.wf(),
        registered_endpoints.wf(),
        match available { Some(a) => a.wf(), None => true },
    ensures
        r.reach_inherit == reach_inherit,
        ({
            let c = match ceiling { Some(c) => c@, None => Set::<(Seq<char>, Seq<char>)>::empty() };
            &&& pairs_sorted(line_keys(r.tools@))
            &&& line_keys(r.tools@).to_set() == tool_keys(wish@, c, reach_inherit)
            &&& forall|i: int| 0 <= i < r.tools@.len() ==> line_view(#[trigger] r.tools@[i]) == tool_line(wish@, c, reach_inherit, line_keys(r.tools@)[i])
        }),
        r.connections@.len() == conns@.len(),
        forall|i: int| 0 <= i < conns@.len() ==> line_view(#[trigger] r.connections@[i]) == connection_line(conns@[i], registered_credentials@, registered_endpoints@),
        r.datasets@.len() == datasets@.len(),
        forall|i: int| 0 <= i < datasets@.len() ==> line_view(#[trigger] r.datasets@[i])
            == dataset_line(binding_view(datasets@[i]), match available { Some(a) => Some(a@), None => None }),
        r.model_route@ == route@,
        r.model_route_served == (route@.len() == 0 || string_views(served@).contains(route@)),
{
    let empty = PairSet::new();
    let c = match ceiling {
        Some(c) => c,
        None => &empty,
    };
    AppManifest {
        reach_inherit,
        tools: tool_manifest_lines(wish, c, reach_inherit),
        connections: connection_manifest_lines(conns, registered_credentials, registered_endpoints),
        datasets: dataset_manifest_lines(datasets, available),
        model_route: String::from_str(route),
        model_route_served: model_route_served(route, served),
    }
}

} // verus!
