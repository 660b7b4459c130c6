//! Turning one prompt into an App design the author approves: the lane check, the author's brief, the
//! hosted framework choice, and the intersection of everything the design NAMED against what
//! the caller can actually use — each axis resolved independently, and each drop reported.
use vstd::prelude::*;
use vstd::string::*;

use crate::bindings::join;
use crate::collections::{keys_sorted, string_views, StrMap, StrSet};
use crate::text::{
    chars_of, debug_quoted, debug_str, decimal, push_decimal, push_str, str_eq, trim,
    trim_string,
};

verus! {

/// The hosted framework a design falls back to.
pub const DEFAULT_FRAMEWORK: &'static str = "vite_react";

pub open spec fn hosted_framework(f: Seq<char>) -> bool {
    f == "vite_react"@ || f == "next_js"@ || f == "svelte"@
}

pub open spec fn default_notice() -> Seq<char> {
    "framework: vite_react (the default — pick one explicitly to change it)"@
}

pub open spec fn replaced_notice(f: Seq<char>) -> Seq<char> {
    debug_str(f) + " is not an available template — using vite_react"@
}

/// The framework a hosted design gets: a vetted pin is honoured; blank or `auto` takes the
/// default with a notice saying so; anything else is REPLACED by the default with a notice.
pub fn resolve_framework(requested: &str, notices: &mut Vec<String>) -> (r: String)
    ensures
        ({
            let f = trim(requested@);
            if f.len() == 0 || f == "auto"@ {
                r@ == "vite_react"@ && final(notices)@.map_values(|s: String| s@) == old(notices)@.map_values(|s: String| s@).push(default_notice())
            } else if hosted_framework(f) {
                r@ == f && final(notices)@ == old(notices)@
            } else {
                r@ == "vite_react"@ && final(notices)@.map_values(|s: String| s@) == old(notices)@.map_values(|s: String| s@).push(replaced_notice(f))
            }
        }),
{
    let f = trim_string(requested);
    let fc = chars_of(f.as_str());
    if fc.len() == 0 || str_eq(f.as_str(), "auto") {
        let ghost before = notices@;
        let n = String::from_str("framework: vite_react (the default — pick one explicitly to change it)");
        notices.push(n);
        assert(notices@.map_values(|s: String| s@) =~= before.map_values(|s: String| s@).push(default_notice()));
        return String::from_str("vite_react");
    }
    if str_eq(f.as_str(), "vite_react") || str_eq(f.as_str(), "next_js") || str_eq(f.as_str(), "svelte") {
        return f;
    }
    let ghost before = notices@;
    let mut n = debug_quoted(f.as_str());
    push_str(&mut n, " is not an available template — using vite_react");
    notices.push(n);
    assert(notices@.map_values(|s: String| s@) =~= before.map_values(|s: String| s@).push(replaced_notice(f@)));
    String::from_str("vite_react")
}

/// What an author asks for.
pub struct DeriveInput {
    pub prompt: String,
    /// `scheduled` (or blank) or `hosted`.
    pub kind: String,
    /// `codified` for an app driven by configuration and code.
    pub mode: String,
    /// A pinned hosted framework, if any.
    pub framework: String,
    /// The filenames the app can read.
    pub attachments: Vec<String>,
}

pub open spec fn hosted_note() -> Seq<char> {
    "\n(This is a HOSTED web app — it is a served web page, not a scheduled automation.)"@
}

pub open spec fn codified_note() -> Seq<char> {
    "\n(This app is CODIFIED: its behaviour comes from configuration and code the runtime reads, not from prose alone.)"@
}

/// The author's brief: the trimmed prompt, the lane fact that changes what a good design looks
/// like, and the attachment FILENAMES (never their bytes).
pub open spec fn brief_spec(i: DeriveInput) -> Seq<char> {
    trim(i.prompt@)
        + (if trim(i.kind@) == "hosted"@ { hosted_note() } else if trim(i.mode@) == "codified"@ { codified_note() } else { Seq::empty() })
        + (if i.attachments@.len() == 0 { Seq::empty() } else { "\nFiles the app can read: "@ + join(string_views(i.attachments@), ", "@) })
}

pub fn brief(input: &DeriveInput) -> (r: String)
    ensures
        r@ == brief_spec(*input),
{
    let mut out = trim_string(input.prompt.as_str());
    let kind = trim_string(input.kind.as_str());
    let mode = trim_string(input.mode.as_str());
    if str_eq(kind.as_str(), "hosted") {
        push_str(&mut out, "\n(This is a HOSTED web app — it is a served web page, not a scheduled automation.)");
    } else if str_eq(mode.as_str(), "codified") {
        push_str(&mut out, "\n(This app is CODIFIED: its behaviour comes from configuration and code the runtime reads, not from prose alone.)");
    }
    let ghost mid = out@;
    if input.attachments.len() > 0 {
        push_str(&mut out, "\nFiles the app can read: ");
        let list = crate::bindings::join_strings(input.attachments.as_slice(), ", ");
        push_str(&mut out, list.as_str());
        assert(input.attachments@.map_values(|s: String| s@) == string_views(input.attachments@));
    } else {
        assert(out@ == mid + Seq::<char>::empty());
    }
    assert(out@ =~= brief_spec(*input));
    out
}

pub open spec fn lane_refusal(kind: Seq<char>) -> Seq<char> {
    "unknown app kind "@ + debug_str(kind) + " (expected \"scheduled\" or \"hosted\")"@
}

/// Which lane a request derives: `Ok(true)` for hosted, `Ok(false)` for scheduled. A blank
/// prompt is refused, and so is an unknown kind (never defaulted).
pub fn derive_lane(input: &DeriveInput) -> (r: Result<bool, String>)
    ensures
        ({
            let k = trim(input.kind@);
            if trim(input.prompt@).len() == 0 {
                r matches Err(m) && m@ == "describe what the app should do — the prompt is empty"@
            } else if k == "scheduled"@ || k.len() == 0 {
                r == Ok::<bool, String>(false)
            } else if k == "hosted"@ {
                r == Ok::<bool, String>(true)
            } else {
                r matches Err(m) && m@ == lane_refusal(k)
            }
        }),
{
    let p = trim_string(input.prompt.as_str());
    if chars_of(p.as_str()).len() == 0 {
        return Err(String::from_str("describe what the app should do — the prompt is empty"));
    }
    let k = trim_string(input.kind.as_str());
    if str_eq(k.as_str(), "scheduled") || chars_of(k.as_str()).len() == 0 {
        return Ok(false);
    }
    if str_eq(k.as_str(), "hosted") {
        return Ok(true);
    }
    let mut m = String::from_str("unknown app kind ");
    let q = debug_quoted(k.as_str());
    push_str(&mut m, q.as_str());
    push_str(&mut m, " (expected \"scheduled\" or \"hosted\")");
    Err(m)
}

// ----- the capability intersection ------------------------------------------------------------

/// One designed step after its names were resolved against the menu: what was kept and what
/// was dropped on each axis, and the model its role's recipe pins (empty when none).
pub struct ResolvedStep {
    pub role: String,
    pub intent: String,
    pub model_id: String,
    pub granted: StrMap,
    pub tools_dropped: Vec<String>,
    pub skills: Vec<String>,
    pub skills_dropped: Vec<String>,
    pub integrations: Vec<String>,
    pub integrations_dropped: Vec<String>,
    pub datasets: Vec<String>,
    pub datasets_dropped: Vec<String>,
}

/// A step of the designed App.
pub struct DerivedStep {
    pub role: String,
    pub intent: String,
    /// Always `plain`: the design authors no critics.
    pub kind: String,
    pub model_id: String,
    pub tool_contract: StrMap,
    pub skills: Vec<String>,
    pub integrations: Vec<String>,
    pub datasets: Vec<String>,
}

/// The designed App: the union of every step's capabilities, and the notices an author
/// must read.
pub struct DerivedApp {
    pub name: String,
    pub description: String,
    pub edges: Vec<(u32, u32)>,
    pub tools: StrMap,
    pub skills: Vec<String>,
    pub connections: Vec<String>,
    pub datasets: Vec<String>,
    pub notices: Vec<String>,
    pub framework: String,
}

/// `acc` extended by the names it does not hold yet, in order.
pub open spec fn ordered_union(acc: Seq<Seq<char>>, names: Seq<Seq<char>>) -> Seq<Seq<char>>
    decreases names.len(),
{
    if names.len() == 0 {
        acc
    } else {
        let prev = ordered_union(acc, names.drop_last());
        if prev.contains(names.last()) { prev } else { prev.push(names.last()) }
    }
}

pub open spec fn step_tools_union(steps: Seq<ResolvedStep>) -> Map<Seq<char>, Seq<char>>
    decreases steps.len(),
{
    if steps.len() == 0 { Map::empty() } else { step_tools_union(steps.drop_last()).union_prefer_right(steps.last().granted@) }
}

/// Which axis of a step: 0 skills, 1 integrations, 2 datasets.
pub open spec fn kept_on(s: ResolvedStep, axis: int) -> Seq<Seq<char>> {
    if axis == 0 { string_views(s.skills@) } else if axis == 1 { string_views(s.integrations@) } else { string_views(s.datasets@) }
}

/// Dropped names on an axis: 0 skills, 1 integrations, 2 datasets, 3 tools.
pub open spec fn dropped_on(s: ResolvedStep, axis: int) -> Seq<Seq<char>> {
    if axis == 0 { string_views(s.skills_dropped@) } else if axis == 1 { string_views(s.integrations_dropped@) }
    else if axis == 2 { string_views(s.datasets_dropped@) } else { string_views(s.tools_dropped@) }
}

pub open spec fn app_axis(steps: Seq<ResolvedStep>, axis: int) -> Seq<Seq<char>>
    decreases steps.len(),
{
    if steps.len() == 0 { Seq::empty() } else { ordered_union(app_axis(steps.drop_last(), axis), kept_on(steps.last(), axis)) }
}

pub open spec fn all_dropped(steps: Seq<ResolvedStep>, axis: int) -> Set<Seq<char>> {
    Set::new(|n: Seq<char>| exists|i: int| 0 <= i < steps.len() && #[trigger] dropped_on(steps[i], axis).contains(n))
}

/// `listing` is the set in ascending order.
pub open spec fn sorted_listing(listing: Seq<Seq<char>>, s: Set<Seq<char>>) -> bool {
    keys_sorted(listing) && listing.to_set() == s
}

pub open spec fn omitted_notice(n: nat) -> Seq<char> {
    decimal(n) + " more registered tools exist than fit the design prompt — attach any that are missing below before creating the app"@
}

pub open spec fn folded_notice() -> Seq<char> {
    "the design attached some capabilities to the app rather than to a step — they were placed on the first step; open any step to move them"@
}

/// The drop notice of an axis (3 is tools), over the ascending listing of its names.
pub open spec fn drop_notice(axis: int, listing: Seq<Seq<char>>) -> Seq<char> {
    if axis == 3 {
        "not attached — outside what this account can fire: "@ + join(listing, ", "@)
    } else {
        (if axis == 0 { "skills"@ } else if axis == 1 { "integrations"@ } else { "datasets"@ })
            + " not found, so not attached: "@ + join(listing, ", "@)
    }
}

pub open spec fn axis_notice(steps: Seq<ResolvedStep>, axis: int, listing: Seq<Seq<char>>) -> Seq<Seq<char>> {
    if all_dropped(steps, axis) == Set::<Seq<char>>::empty() { Seq::empty() } else { seq![drop_notice(axis, listing)] }
}

/// The notices in order: omitted tools, the app-level fold, then each axis with drops in the
/// order of the axis names (datasets, integrations, skills, tools), each over the ascending
/// listing `ls[k]` of that axis's dropped names (deduped across the whole design).
pub open spec fn notices_with(steps: Seq<ResolvedStep>, tools_omitted: nat, folded: bool, ls: Seq<Seq<Seq<char>>>) -> Seq<Seq<char>> {
    (if tools_omitted > 0 { seq![omitted_notice(tools_omitted)] } else { Seq::empty() })
        + (if folded { seq![folded_notice()] } else { Seq::empty() })
        + axis_notice(steps, 2, ls[0]) + axis_notice(steps, 1, ls[1]) + axis_notice(steps, 0, ls[2]) + axis_notice(steps, 3, ls[3])
}

pub open spec fn listings_ok(steps: Seq<ResolvedStep>, ls: Seq<Seq<Seq<char>>>) -> bool {
    &&& ls.len() == 4
    &&& sorted_listing(ls[0], all_dropped(steps, 2))
    &&& sorted_listing(ls[1], all_dropped(steps, 1))
    &&& sorted_listing(ls[2], all_dropped(steps, 0))
    &&& sorted_listing(ls[3], all_dropped(steps, 3))
}

pub open spec fn notices_ok(notices: Seq<Seq<char>>, steps: Seq<ResolvedStep>, tools_omitted: nat, folded: bool) -> bool {
    exists|ls: Seq<Seq<Seq<char>>>| listings_ok(steps, ls) && notices == #[trigger] notices_with(steps, tools_omitted, folded, ls)
}

/// The edges that fit `u32` positions.
pub open spec fn edges_u32(edges: Seq<(usize, usize)>) -> Seq<(u32, u32)>
    decreases edges.len(),
{
    if edges.len() == 0 {
        Seq::empty()
    } else {
        let prev = edges_u32(edges.drop_last());
        let e = edges.last();
        if e.0 <= u32::MAX && e.1 <= u32::MAX { prev.push((e.0 as u32, e.1 as u32)) } else { prev }
    }
}

pub open spec fn step_ok(d: DerivedStep, s: ResolvedStep) -> bool {
    &&& d.role@ == s.role@ && d.intent@ == s.intent@ && d.kind@ == "plain"@ && d.model_id@ == s.model_id@
    &&& d.tool_contract.wf() && d.tool_contract@ == s.granted@
    &&& string_views(d.skills@) == string_views(s.skills@)
    &&& string_views(d.integrations@) == string_views(s.integrations@)
    &&& string_views(d.datasets@) == string_views(s.datasets@)
}

pub open spec fn steps_wf(steps: Seq<ResolvedStep>) -> bool {
    forall|i: int| 0 <= i < steps.len() ==> (#[trigger] steps[i]).granted.wf()
}

fn union_into(acc: &mut Vec<String>, names: &Vec<String>)
    ensures
        string_views(final(acc)@) == ordered_union(string_views(old(acc)@), string_views(names@)),
{
    let ghost start = string_views(acc@);
    let mut i: usize = 0;
    while i < names.len()
        invariant
            i <= names.len(),
            string_views(acc@) == ordered_union(start, string_views(names@).take(i as int)),
        decreases names.len() - i,
    {
        let ghost prev = string_views(acc@);
        let mut k: usize = 0;
        let mut found = false;
        while k < acc.len()
            invariant
                k <= acc.len(),
                i < names.len(),
                prev == string_views(acc@),
                found ==> prev.contains(names@[i as int]@),
                !found ==> forall|j: int| 0 <= j < k ==> prev[j] != names@[i as int]@,
            decreases acc.len() - k,
        {
            if str_eq(acc[k].as_str(), names[i].as_str()) {
                assert(prev[k as int] == names@[i as int]@);
                found = true;
            }
            k = k + 1;
        }
        proof {
            assert(string_views(names@).take(i + 1).drop_last() == string_views(names@).take(i as int));
            assert(string_views(names@).take(i + 1).last() == names@[i as int]@);
        }
        if !found {
            acc.push(names[i].clone());
            assert(string_views(acc@) =~= prev.push(names@[i as int]@));
        }
        i = i + 1;
    }
    assert(string_views(names@).take(names.len() as int) == string_views(names@));
}

fn clone_list(v: &Vec<String>) -> (r: Vec<String>)
    ensures
        string_views(r@) == string_views(v@),
{
    let mut out: Vec<String> = Vec::new();
    union_into_all(&mut out, v);
    out
}

fn union_into_all(out: &mut Vec<String>, v: &Vec<String>)
    requires
        old(out)@.len() == 0,
    ensures
        string_views(final(out)@) == string_views(old(out)@) + string_views(v@),
{
    let mut i: usize = 0;
    while i < v.len()
        invariant
            i <= v.len(),
            string_views(out@) == string_views(v@.take(i as int)),
        decreases v.len() - i,
    {
        let ghost before = out@;
        out.push(v[i].clone());
        assert(string_views(out@) =~= string_views(before).push(v@[i as int]@));
        assert(string_views(v@.take(i + 1)) =~= string_views(v@.take(i as int)).push(v@[i as int]@));
        i = i + 1;
    }
    assert(v@.take(v.len() as int) == v@);
    assert(string_views(out@) =~= Seq::<Seq<char>>::empty() + string_views(v@));
}

fn copy_map(m: &StrMap) -> (r: StrMap)
    requires
        m.wf(),
    ensures
        r.wf(),
        r@ == m@,
{
    let mut out = StrMap::new();
    let e = m.entries();
    let mut i: usize = 0;
    while i < e.len()
        invariant
            i <= e.len(),
            e@ == m.pairs(),
            out.wf(),
            out@ == crate::collections::pairs_map(e@.take(i as int)),
        decreases e.len() - i,
    {
        out.insert(e[i].0.clone(), e[i].1.clone());
        assert(e@.take(i + 1).drop_last() == e@.take(i as int));
        i = i + 1;
    }
    assert(e@.take(e.len() as int) == e@);
    out
}


fn dropped_set(steps: &[ResolvedStep], axis: usize) -> (r: StrSet)
    requires
        axis < 4,
    ensures
        r.wf(),
        r@ == all_dropped(steps@, axis as int),
{
    let mut out = StrSet::new();
    let mut i: usize = 0;
    while i < steps.len()
        invariant
            i <= steps.len(),
            axis < 4,
            out.wf(),
            out@ == Set::new(|n: Seq<char>| exists|j: int| 0 <= j < i && #[trigger] dropped_on(steps@[j], axis as int).contains(n)),
        decreases steps.len() - i,
    {
        let names: &Vec<String> = if axis == 0 { &steps[i].skills_dropped } else if axis == 1 { &steps[i].integrations_dropped }
            else if axis == 2 { &steps[i].datasets_dropped } else { &steps[i].tools_dropped };
        assert(string_views(names@) == dropped_on(steps@[i as int], axis as int));
        let ghost before = out@;
        let mut k: usize = 0;
        while k < names.len()
            invariant
                k <= names.len(),
                out.wf(),
                out@ == before.union(string_views(names@).take(k as int).to_set()),
            decreases names.len() - k,
        {
            out.insert(names[k].as_str());
            proof {
                assert(string_views(names@).take(k + 1) =~= string_views(names@).take(k as int).push(names@[k as int]@));
                string_views(names@).take(k as int).lemma_push_to_set_commute(names@[k as int]@);
            }
            assert(out@ =~= before.union(string_views(names@).take(k + 1).to_set()));
            k = k + 1;
        }
        proof {
            assert(string_views(names@).take(names.len() as int) == string_views(names@));
            let target = Set::new(|n: Seq<char>| exists|j: int| 0 <= j < i + 1 && #[trigger] dropped_on(steps@[j], axis as int).contains(n));
            assert forall|n: Seq<char>| #[trigger] out@.contains(n) <==> target.contains(n) by {
                if string_views(names@).to_set().contains(n) {
                    assert(dropped_on(steps@[i as int], axis as int).contains(n));
                }
                if target.contains(n) {
                    let j = choose|j: int| 0 <= j < i + 1 && #[trigger] dropped_on(steps@[j], axis as int).contains(n);
                    if j == i {
                        assert(string_views(names@).to_set().contains(n));
                    }
                }
            }
            assert(out@ =~= target);
        }
        i = i + 1;
    }
    assert(out@ =~= all_dropped(steps@, axis as int));
    out
}

fn push_axis_notice(notices: &mut Vec<String>, steps: &[ResolvedStep], axis: usize) -> (ls: Ghost<Seq<Seq<char>>>)
    requires
        axis < 4,
    ensures
        sorted_listing(ls@, all_dropped(steps@, axis as int)),
        string_views(final(notices)@) == string_views(old(notices)@) + axis_notice(steps@, axis as int, ls@),
{
    let d = dropped_set(steps, axis);
    let items = d.items();
    proof { d.lemma_view(); }
    let ghost listing = string_views(items@);
    assert(sorted_listing(listing, all_dropped(steps@, axis as int)));
    if d.is_empty() {
        assert(string_views(notices@) =~= string_views(notices@) + Seq::<Seq<char>>::empty());
        return Ghost(listing);
    }
    let mut m: String = if axis == 3 {
        String::from_str("not attached — outside what this account can fire: ")
    } else {
        let mut h = if axis == 0 { String::from_str("skills") } else if axis == 1 { String::from_str("integrations") } else { String::from_str("datasets") };
        push_str(&mut h, " not found, so not attached: ");
        h
    };
    let list = crate::bindings::join_strings(items, ", ");
    push_str(&mut m, list.as_str());
    let ghost before = notices@;
    notices.push(m);
    assert(string_views(notices@) =~= string_views(before) + seq![drop_notice(axis as int, listing)]);
    Ghost(listing)
}

/// Turns a design whose names were resolved per step into the designed App: each step keeps
/// what it resolved; the App carries the union of every axis (tools: a later step's version
/// overrides; names: first occurrence order); and every dropped name is reported ONCE per axis.
pub fn intersect_capabilities(
    name: String,
    description: String,
    edges: &[(usize, usize)],
    steps: &[ResolvedStep],
    tools_omitted: usize,
    folded_app_level: bool,
) -> (r: (Vec<DerivedStep>, DerivedApp))
    requires
        steps_wf(steps@),
    ensures
        r.0@.len() == steps@.len(),
        forall|i: int| 0 <= i < steps@.len() ==> step_ok(#[trigger] r.0@[i], steps@[i]),
        r.1.name@ == name@,
        r.1.description@ == description@,
        r.1.edges@ == edges_u32(edges@),
        r.1.tools.wf(),
        r.1.tools@ == step_tools_union(steps@),
        string_views(r.1.skills@) == app_axis(steps@, 0),
        string_views(r.1.connections@) == app_axis(steps@, 1),
        string_views(r.1.datasets@) == app_axis(steps@, 2),
        notices_ok(string_views(r.1.notices@), steps@, tools_omitted as nat, folded_app_level),
        r.1.framework@.len() == 0,
{
    let mut notices: Vec<String> = Vec::new();
    if tools_omitted > 0 {
        let mut m = String::new();
        push_decimal(&mut m, tools_omitted as u64);
        push_str(&mut m, " more registered tools exist than fit the design prompt — attach any that are missing below before creating the app");
        notices.push(m);
    }
    if folded_app_level {
        notices.push(String::from_str("the design attached some capabilities to the app rather than to a step — they were placed on the first step; open any step to move them"));
    }
    let ghost head = string_views(notices@);
    assert(head =~= (if tools_omitted > 0 { seq![omitted_notice(tools_omitted as nat)] } else { Seq::empty() })
        + (if folded_app_level { seq![folded_notice()] } else { Seq::empty() }));

    let mut app_tools = StrMap::new();
    let mut app_skills: Vec<String> = Vec::new();
    let mut app_connections: Vec<String> = Vec::new();
    let mut app_datasets: Vec<String> = Vec::new();
    let mut out: Vec<DerivedStep> = Vec::new();
    let mut i: usize = 0;
    while i < steps.len()
        invariant
            i <= steps.len(),
            steps_wf(steps@),
            out@.len() == i,
            forall|j: int| 0 <= j < i ==> step_ok(#[trigger] out@[j], steps@[j]),
            app_tools.wf(),
            app_tools@ == step_tools_union(steps@.take(i as int)),
            string_views(app_skills@) == app_axis(steps@.take(i as int), 0),
            string_views(app_connections@) == app_axis(steps@.take(i as int), 1),
            string_views(app_datasets@) == app_axis(steps@.take(i as int), 2),
        decreases steps.len() - i,
    {
        let s = &steps[i];
        proof {
            assert(steps@.take(i + 1).drop_last() == steps@.take(i as int));
            assert(steps@.take(i + 1).last() == steps@[i as int]);
            assert(s.granted.wf());
        }
        let e = s.granted.entries();
        let mut k: usize = 0;
        let ghost before = app_tools@;
        proof { s.granted.lemma_view(); }
        while k < e.len()
            invariant
                k <= e.len(),
                e@ == s.granted.pairs(),
                app_tools.wf(),
                app_tools@ == before.union_prefer_right(crate::collections::pairs_map(e@.take(k as int))),
            decreases e.len() - k,
        {
            let ghost mid = app_tools@;
            app_tools.insert(e[k].0.clone(), e[k].1.clone());
            proof {
                assert(e@.take(k + 1).drop_last() == e@.take(k as int));
                assert(app_tools@ =~= before.union_prefer_right(crate::collections::pairs_map(e@.take(k + 1))));
            }
            k = k + 1;
        }
        assert(e@.take(e.len() as int) == e@);
        union_into(&mut app_skills, &s.skills);
        union_into(&mut app_connections, &s.integrations);
        union_into(&mut app_datasets, &s.datasets);
        let d = DerivedStep {
            role: s.role.clone(),
            intent: s.intent.clone(),
            kind: String::from_str("plain"),
            model_id: s.model_id.clone(),
            tool_contract: copy_map(&s.granted),
            skills: clone_list(&s.skills),
            integrations: clone_list(&s.integrations),
            datasets: clone_list(&s.datasets),
        };
        out.push(d);
        i = i + 1;
    }
    assert(steps@.take(steps.len() as int) == steps@);

    let l0 = push_axis_notice(&mut notices, steps, 2);
    let l1 = push_axis_notice(&mut notices, steps, 1);
    let l2 = push_axis_notice(&mut notices, steps, 0);
    let l3 = push_axis_notice(&mut notices, steps, 3);
    proof {
        let ls = seq![l0@, l1@, l2@, l3@];
        assert(listings_ok(steps@, ls));
        assert(string_views(notices@) =~= notices_with(steps@, tools_omitted as nat, folded_app_level, ls));
    }

    let mut kept: Vec<(u32, u32)> = Vec::new();
    let mut j: usize = 0;
    while j < edges.len()
        invariant
            j <= edges.len(),
            kept@ == edges_u32(edges@.take(j as int)),
        decreases edges.len() - j,
    {
        let (p, c) = edges[j];
        proof {
            assert(edges@.take(j + 1).drop_last() == edges@.take(j as int));
            assert(edges@.take(j + 1).last() == edges@[j as int]);
        }
        if p <= 4294967295usize && c <= 4294967295usize {
            kept.push((p as u32, c as u32));
        }
        j = j + 1;
    }
    assert(edges@.take(edges.len() as int) == edges@);

    let app = DerivedApp {
        name,
        description,
        edges: kept,
        tools: app_tools,
        skills: app_skills,
        connections: app_connections,
        datasets: app_datasets,
        notices,
        framework: String::new(),
    };
    (out, app)
}


/// A hosted design keeps its name and description but no DAG and no capability axes (a hosted
/// app reads none of them); its framework is resolved; the returned goal (`description. prompt`)
/// is what the file plan is asked for.
pub fn hosted_design(derived: &mut DerivedApp, input: &DeriveInput) -> (goal: String)
    ensures
        final(derived).name == old(derived).name,
        final(derived).description == old(derived).description,
        final(derived).edges@.len() == 0,
        final(derived).tools.wf() && final(derived).tools@ == Map::<Seq<char>, Seq<char>>::empty(),
        final(derived).skills@.len() == 0,
        final(derived).connections@.len() == 0,
        final(derived).datasets@.len() == 0,
        ({
            let f = trim(input.framework@);
            if f.len() == 0 || f == "auto"@ {
                final(derived).framework@ == "vite_react"@
                    && string_views(final(derived).notices@) == string_views(old(derived).notices@).push(default_notice())
            } else if hosted_framework(f) {
                final(derived).framework@ == f && final(derived).notices@ == old(derived).notices@
            } else {
                final(derived).framework@ == "vite_react"@
                    && string_views(final(derived).notices@) == string_views(old(derived).notices@).push(replaced_notice(f))
            }
        }),
        goal@ == trim(old(derived).description@) + ". "@ + trim(input.prompt@),
{
    let ghost n0 = derived.notices@;
    let framework = resolve_framework(input.framework.as_str(), &mut derived.notices);
    proof {
        assert(string_views(n0) == n0.map_values(|s: String| s@));
        assert(string_views(derived.notices@) == derived.notices@.map_values(|s: String| s@));
    }
    derived.framework = framework;
    derived.edges = Vec::new();
    derived.tools = StrMap::new();
    derived.skills = Vec::new();
    derived.connections = Vec::new();
    derived.datasets = Vec::new();
    let mut goal = trim_string(derived.description.as_str());
    push_str(&mut goal, ". ");
    let p = trim_string(input.prompt.as_str());
    push_str(&mut goal, p.as_str());
    goal
}

pub open spec fn file_plan_notice(e: Seq<char>) -> Seq<char> {
    "the file plan could not be prepared ("@ + e + ") — the scaffold will plan the project when you create the app"@
}

/// A failed hosted file plan degrades to a notice rather than a refusal: the design survives
/// and the scaffold plans the project later.
pub fn note_file_plan_failure(derived: &mut DerivedApp, e: &str)
    ensures
        string_views(final(derived).notices@) == string_views(old(derived).notices@).push(file_plan_notice(e@)),
        final(derived).name == old(derived).name,
        final(derived).framework == old(derived).framework,
{
    let mut m = String::from_str("the file plan could not be prepared (");
    push_str(&mut m, e);
    push_str(&mut m, ") — the scaffold will plan the project when you create the app");
    let ghost before = derived.notices@;
    derived.notices.push(m);
    assert(string_views(derived.notices@) =~= string_views(before).push(file_plan_notice(e@)));
}

} // verus!
