//! How an App's declared capabilities bind onto its blueprint: which step is the entry agentic
//! step, where tool grants fold, how grounding and inputs steer a prompt, which steps name a
//! capability, and what secret scope each step receives.
//!
//! Every function here is pure: the same envelope gives the same bindings, so a recovered run
//! re-derives byte-identical steps.
use vstd::prelude::*;
use vstd::string::*;

use crate::collections::{
    keys_sorted, lemma_pairs_map, pair_keys, pairs_map, string_views, StrMap, StrSet,
};
use crate::text::{
    chars_eq_ignore_case, chars_of, eq_ignore_case, push_str, string_of, trim, trim_string,
    lemma_seq_lt_irreflexive,
};

verus! {

// ----- the blueprint --------------------------------------------------------------------------

/// One blueprint step, as far as binding reads it.
pub struct StepSpec {
    /// An explicit kind (`model`, `pure`, `tool`, ...), if the author wrote one.
    pub kind: Option<String>,
    pub model_id: String,
    pub prompt: String,
    /// Tool id → version the step may call.
    pub tool_contract: StrMap,
    /// Step configuration (key → value).
    pub params: StrMap,
    /// The capability names this step binds, per axis (taken off before lowering).
    pub skills: Vec<String>,
    pub connections: Vec<String>,
    pub datasets: Vec<String>,
    pub apps: Vec<String>,
}

/// A dependency edge: `child` runs after `parent`.
#[derive(Clone, Copy, Debug, PartialEq, Eq, Structural)]
pub struct EdgeSpec {
    pub parent: u32,
    pub child: u32,
}

/// A blueprint: its steps and edges.
pub struct DagSpec {
    pub steps: Vec<StepSpec>,
    pub edges: Vec<EdgeSpec>,
}

impl StepSpec {
    /// A step with the given kind, model and prompt, and an empty tool contract.
    pub fn new(kind: Option<&str>, model_id: &str, prompt: &str) -> (r: Self)
        ensures
            match kind { Some(k) => r.kind matches Some(s) && s@ == k@, None => r.kind is None },
            r.model_id@ == model_id@,
            r.prompt@ == prompt@,
            r.tool_contract.wf(),
            r.tool_contract@ == Map::<Seq<char>, Seq<char>>::empty(),
            r.params.wf(),
            r.params@ == Map::<Seq<char>, Seq<char>>::empty(),
            r.skills@.len() == 0 && r.connections@.len() == 0 && r.datasets@.len() == 0 && r.apps@.len() == 0,
    {
        StepSpec {
            kind: match kind { Some(k) => Some(String::from_str(k)), None => None },
            model_id: String::from_str(model_id),
            prompt: String::from_str(prompt),
            tool_contract: StrMap::new(),
            params: StrMap::new(),
            skills: Vec::new(),
            connections: Vec::new(),
            datasets: Vec::new(),
            apps: Vec::new(),
        }
    }
}

pub open spec fn dag_wf(steps: Seq<StepSpec>) -> bool {
    forall|i: int| 0 <= i < steps.len() ==> (#[trigger] steps[i]).tool_contract.wf() && steps[i].params.wf()
}

/// A MODEL step: an explicit `model` kind, or (with no kind) a model id or a prompt.
pub open spec fn is_model(s: StepSpec) -> bool {
    match s.kind {
        Some(k) => k@ == "model"@,
        None => s.model_id@.len() > 0 || s.prompt@.len() > 0,
    }
}

/// The `u32` a step position is compared against edge children with (saturating).
pub open spec fn step_key(i: int) -> u32 {
    if i <= u32::MAX { i as u32 } else { u32::MAX }
}

pub open spec fn has_incoming(edges: Seq<EdgeSpec>, c: u32) -> bool {
    exists|e: int| 0 <= e < edges.len() && #[trigger] edges[e].child == c
}

/// A model step that is a DAG root.
pub open spec fn root_model(steps: Seq<StepSpec>, edges: Seq<EdgeSpec>, i: int) -> bool {
    0 <= i < steps.len() && is_model(steps[i]) && !has_incoming(edges, step_key(i))
}

/// `i` is the ENTRY agentic step: the first model step that is a DAG root.
pub open spec fn is_entry(steps: Seq<StepSpec>, edges: Seq<EdgeSpec>, i: int) -> bool {
    root_model(steps, edges, i) && forall|j: int| 0 <= j < i ==> !#[trigger] root_model(steps, edges, j)
}

pub open spec fn has_entry(steps: Seq<StepSpec>, edges: Seq<EdgeSpec>) -> bool {
    exists|i: int| #[trigger] is_entry(steps, edges, i)
}

pub fn is_model_step(s: &StepSpec) -> (r: bool)
    ensures
        r == is_model(*s),
{
    match &s.kind {
        Some(k) => crate::text::str_eq(k.as_str(), "model"),
        None => chars_of(s.model_id.as_str()).len() > 0 || chars_of(s.prompt.as_str()).len() > 0,
    }
}

fn edges_reach(edges: &[EdgeSpec], c: u32) -> (r: bool)
    ensures
        r == has_incoming(edges@, c),
{
    let mut e: usize = 0;
    while e < edges.len()
        invariant
            e <= edges.len(),
            forall|k: int| 0 <= k < e ==> edges@[k].child != c,
        decreases edges.len() - e,
    {
        if edges[e].child == c {
            return true;
        }
        e = e + 1;
    }
    false
}

/// The ENTRY agentic step: the first model step with no incoming edge.
pub fn entry_agentic_step_index(dag: &DagSpec) -> (r: Option<usize>)
    ensures
        match r {
            Some(i) => is_entry(dag.steps@, dag.edges@, i as int),
            None => !has_entry(dag.steps@, dag.edges@),
        },
{
    let mut i: usize = 0;
    while i < dag.steps.len()
        invariant
            i <= dag.steps.len(),
            forall|j: int| 0 <= j < i ==> !#[trigger] root_model(dag.steps@, dag.edges@, j),
        decreases dag.steps.len() - i,
    {
        let key: u32 = if i <= 4294967295usize { i as u32 } else { 4294967295u32 };
        if is_model_step(&dag.steps[i]) && !edges_reach(dag.edges.as_slice(), key) {
            return Some(i);
        }
        i = i + 1;
    }
    proof {
        if has_entry(dag.steps@, dag.edges@) {
            let k = choose|k: int| #[trigger] is_entry(dag.steps@, dag.edges@, k);
            assert(root_model(dag.steps@, dag.edges@, k));
        }
    }
    None
}

// ----- folding grants onto a step -------------------------------------------------------------

/// `m` with each absent key of `ps` added (an earlier value always wins).
pub open spec fn add_absent(m: Map<Seq<char>, Seq<char>>, ps: Seq<(String, String)>) -> Map<Seq<char>, Seq<char>>
    decreases ps.len(),
{
    if ps.len() == 0 {
        m
    } else {
        let prev = add_absent(m, ps.drop_last());
        if prev.contains_key(ps.last().0@) { prev } else { prev.insert(ps.last().0@, ps.last().1@) }
    }
}

/// With distinct keys, adding the absent pairs is the union in which `m` wins.
pub proof fn lemma_add_absent_union(m: Map<Seq<char>, Seq<char>>, ps: Seq<(String, String)>)
    requires
        keys_sorted(pair_keys(ps)),
    ensures
        add_absent(m, ps) == pairs_map(ps).union_prefer_right(m),
    decreases ps.len(),
{
    if ps.len() == 0 {
        assert(pairs_map(ps).union_prefer_right(m) =~= m);
    } else {
        let q = ps.drop_last();
        assert forall|a: int, b: int| 0 <= a < b < pair_keys(q).len() implies crate::text::seq_lt(#[trigger] pair_keys(q)[a], #[trigger] pair_keys(q)[b]) by {
            assert(pair_keys(q)[a] == pair_keys(ps)[a]);
            assert(pair_keys(q)[b] == pair_keys(ps)[b]);
        }
        lemma_add_absent_union(m, q);
        lemma_pairs_map(q);
        let k = ps.last().0@;
        assert(!pairs_map(q).contains_key(k)) by {
            if pairs_map(q).contains_key(k) {
                let j = choose|j: int| 0 <= j < q.len() && q[j].0@ == k;
                assert(pair_keys(ps)[j] == q[j].0@);
                assert(pair_keys(ps)[ps.len() - 1] == k);
                lemma_seq_lt_irreflexive(k);
            }
        }
        assert(add_absent(m, ps) =~= pairs_map(ps).union_prefer_right(m));
    }
}

/// Folds granted tools into one step's contract; an author-declared pin always wins, and an
/// empty grant set (or a position past the last step) changes nothing.
pub fn fold_step_tools(dag: &mut DagSpec, idx: usize, granted: &StrMap)
    requires
        dag_wf(old(dag).steps@),
        granted.wf(),
    ensures
        dag_wf(final(dag).steps@),
        final(dag).edges@ == old(dag).edges@,
        final(dag).steps@.len() == old(dag).steps@.len(),
        forall|j: int| 0 <= j < old(dag).steps@.len() && j != idx ==> #[trigger] final(dag).steps@[j] == old(dag).steps@[j],
        granted@ == Map::<Seq<char>, Seq<char>>::empty() || idx >= old(dag).steps@.len() ==> final(dag).steps@ == old(dag).steps@,
        idx < old(dag).steps@.len() ==> {
            let (o, n) = (old(dag).steps@[idx as int], final(dag).steps@[idx as int]);
            &&& n == (StepSpec { tool_contract: n.tool_contract, ..o })
            &&& n.tool_contract@ == granted@.union_prefer_right(o.tool_contract@)
        },
{
    if granted.is_empty() || idx >= dag.steps.len() {
        proof {
            if idx < dag.steps@.len() {
                assert(granted@.union_prefer_right(dag.steps@[idx as int].tool_contract@) =~= dag.steps@[idx as int].tool_contract@);
            }
        }
        return;
    }
    let ghost old_steps = dag.steps@;
    let mut step = dag.steps.remove(idx);
    assert(step == old_steps[idx as int]);
    assert(step.tool_contract.wf() && step.params.wf());
    let ghost start = step.tool_contract@;
    let entries = granted.entries();
    let mut i: usize = 0;
    while i < entries.len()
        invariant
            i <= entries.len(),
            entries@ == granted.pairs(),
            step.tool_contract.wf(),
            step.tool_contract@ == add_absent(start, entries@.take(i as int)),
            step == (StepSpec { tool_contract: step.tool_contract, ..old_steps[idx as int] }),
        decreases entries.len() - i,
    {
        step.tool_contract.insert_if_absent(entries[i].0.as_str(), entries[i].1.as_str());
        assert(entries@.take(i + 1).drop_last() == entries@.take(i as int));
        i = i + 1;
    }
    assert(entries@.take(entries.len() as int) == entries@);
    proof {
        granted.lemma_view();
        lemma_add_absent_union(start, granted.pairs());
    }
    dag.steps.insert(idx, step);
    proof {
        assert forall|j: int| 0 <= j < dag.steps@.len() implies (#[trigger] dag.steps@[j]).tool_contract.wf() && dag.steps@[j].params.wf() by {
            if j < idx { assert(dag.steps@[j] == old_steps[j]); }
            else if j > idx { assert(dag.steps@[j] == old_steps[j]); }
        }
        assert forall|j: int| 0 <= j < old_steps.len() && j != idx implies #[trigger] dag.steps@[j] == old_steps[j] by {}
    }
}

/// Folds granted tools into the ENTRY agentic step, the step the instructions bind to; with
/// no entry step, or nothing granted, nothing changes.
pub fn fold_skill_tools(dag: &mut DagSpec, granted: &StrMap)
    requires
        dag_wf(old(dag).steps@),
        granted.wf(),
    ensures
        dag_wf(final(dag).steps@),
        final(dag).edges@ == old(dag).edges@,
        final(dag).steps@.len() == old(dag).steps@.len(),
        granted@ == Map::<Seq<char>, Seq<char>>::empty() || !has_entry(old(dag).steps@, old(dag).edges@) ==> final(dag).steps@ == old(dag).steps@,
        forall|i: int| #[trigger] is_entry(old(dag).steps@, old(dag).edges@, i) ==> {
            &&& forall|j: int| 0 <= j < old(dag).steps@.len() && j != i ==> #[trigger] final(dag).steps@[j] == old(dag).steps@[j]
            &&& final(dag).steps@[i].tool_contract@ == granted@.union_prefer_right(old(dag).steps@[i].tool_contract@)
            &&& final(dag).steps@[i] == (StepSpec { tool_contract: final(dag).steps@[i].tool_contract, ..old(dag).steps@[i] })
        },
{
    if granted.is_empty() {
        proof {
            assert forall|i: int| #[trigger] is_entry(dag.steps@, dag.edges@, i) implies dag.steps@[i].tool_contract@ == granted@.union_prefer_right(dag.steps@[i].tool_contract@) by {
                assert(granted@.union_prefer_right(dag.steps@[i].tool_contract@) =~= dag.steps@[i].tool_contract@);
            }
        }
        return;
    }
    match entry_agentic_step_index(dag) {
        None => {},
        Some(idx) => {
            proof { lemma_entry_unique(dag.steps@, dag.edges@, idx as int); }
            fold_step_tools(dag, idx, granted);
        },
    }
}

/// There is at most one entry step.
pub proof fn lemma_entry_unique(steps: Seq<StepSpec>, edges: Seq<EdgeSpec>, i: int)
    requires
        is_entry(steps, edges, i),
    ensures
        forall|j: int| #[trigger] is_entry(steps, edges, j) ==> j == i,
{
    assert forall|j: int| #[trigger] is_entry(steps, edges, j) implies j == i by {
        if j < i {
            assert(!root_model(steps, edges, j));
        } else if j > i {
            assert(!root_model(steps, edges, i));
        }
    }
}

// ----- steering a prompt ----------------------------------------------------------------------

/// `items` joined with `sep`.
pub open spec fn join(items: Seq<Seq<char>>, sep: Seq<char>) -> Seq<char>
    decreases items.len(),
{
    if items.len() == 0 {
        Seq::empty()
    } else if items.len() == 1 {
        items[0]
    } else {
        join(items.drop_last(), sep) + sep + items.last()
    }
}

pub fn join_strings(items: &[String], sep: &str) -> (r: String)
    ensures
        r@ == join(items@.map_values(|s: String| s@), sep@),
{
    let ghost v = items@.map_values(|s: String| s@);
    let mut out = String::new();
    let mut i: usize = 0;
    while i < items.len()
        invariant
            i <= items.len(),
            v == items@.map_values(|s: String| s@),
            out@ == join(v.take(i as int), sep@),
        decreases items.len() - i,
    {
        if i > 0 {
            push_str(&mut out, sep);
        }
        push_str(&mut out, items[i].as_str());
        proof {
            assert(v.take(i + 1).drop_last() == v.take(i as int));
            assert(v.take(i + 1).last() == items@[i as int]@);
            if i == 0 {
                assert(v.take(1)[0] == items@[0]@);
                assert(out@ == items@[0]@);
            }
        }
        i = i + 1;
    }
    assert(v.take(items.len() as int) == v);
    out
}

pub open spec fn grounding_directive(names: Seq<Seq<char>>) -> Seq<char> {
    "Grounding: use the `retrieve` tool to search the dataset(s) ["@ + join(names, ", "@)
        + "] for relevant passages BEFORE answering, and ground your answer in what you retrieve."@
}

/// Steers one step to ground its answer with `retrieve` over the named datasets; nothing
/// changes for an empty list or a position past the last step.
pub fn steer_step_dataset_prompt(dag: &mut DagSpec, idx: usize, dataset_names: &[String])
    ensures
        final(dag).edges@ == old(dag).edges@,
        final(dag).steps@.len() == old(dag).steps@.len(),
        forall|j: int| 0 <= j < old(dag).steps@.len() && j != idx ==> #[trigger] final(dag).steps@[j] == old(dag).steps@[j],
        dataset_names@.len() == 0 || idx >= old(dag).steps@.len() ==> final(dag).steps@ == old(dag).steps@,
        dataset_names@.len() > 0 && idx < old(dag).steps@.len() ==> {
            let (o, n) = (old(dag).steps@[idx as int], final(dag).steps@[idx as int]);
            &&& n == (StepSpec { prompt: n.prompt, ..o })
            &&& n.prompt@ == trim(o.prompt@ + "\n\n"@ + grounding_directive(dataset_names@.map_values(|s: String| s@)))
        },
{
    if dataset_names.len() == 0 || idx >= dag.steps.len() {
        return;
    }
    let ghost old_steps = dag.steps@;
    let list = join_strings(dataset_names, ", ");
    let mut step = dag.steps.remove(idx);
    assert(step == old_steps[idx as int]);
    let mut text = step.prompt.clone();
    push_str(&mut text, "\n\n");
    push_str(&mut text, "Grounding: use the `retrieve` tool to search the dataset(s) [");
    push_str(&mut text, list.as_str());
    push_str(&mut text, "] for relevant passages BEFORE answering, and ground your answer in what you retrieve.");
    step.prompt = trim_string(text.as_str());
    proof {
        let d = dataset_names@.map_values(|s: String| s@);
        assert(text@ == old_steps[idx as int].prompt@ + "\n\n"@ + grounding_directive(d));
    }
    dag.steps.insert(idx, step);
    assert forall|j: int| 0 <= j < old_steps.len() && j != idx implies #[trigger] dag.steps@[j] == old_steps[j] by {}
}

/// Steers the ENTRY agentic step to ground on the named datasets (no entry step: no change).
pub fn steer_dataset_prompt(dag: &mut DagSpec, dataset_names: &[String])
    ensures
        final(dag).edges@ == old(dag).edges@,
        final(dag).steps@.len() == old(dag).steps@.len(),
        dataset_names@.len() == 0 || !has_entry(old(dag).steps@, old(dag).edges@) ==> final(dag).steps@ == old(dag).steps@,
        forall|i: int| #[trigger] is_entry(old(dag).steps@, old(dag).edges@, i) && dataset_names@.len() > 0 ==> {
            &&& forall|j: int| 0 <= j < old(dag).steps@.len() && j != i ==> #[trigger] final(dag).steps@[j] == old(dag).steps@[j]
            &&& final(dag).steps@[i].prompt@ == trim(old(dag).steps@[i].prompt@ + "\n\n"@ + grounding_directive(dataset_names@.map_values(|s: String| s@)))
            &&& final(dag).steps@[i] == (StepSpec { prompt: final(dag).steps@[i].prompt, ..old(dag).steps@[i] })
        },
{
    match entry_agentic_step_index(dag) {
        None => {},
        Some(idx) => {
            proof { lemma_entry_unique(dag.steps@, dag.edges@, idx as int); }
            steer_step_dataset_prompt(dag, idx, dataset_names);
        },
    }
}

// ----- naming steps ---------------------------------------------------------------------------

/// Whether one of `named` is `name`, ASCII case ignored.
pub open spec fn names_it(named: Seq<String>, name: Seq<char>) -> bool {
    exists|k: int| 0 <= k < named.len() && eq_ignore_case(#[trigger] named[k]@, name)
}

/// The positions (ascending) among the first `n` steps whose bindings name `name`.
pub open spec fn naming_upto(per_step: Seq<Vec<String>>, name: Seq<char>, n: int) -> Seq<usize>
    decreases n,
{
    if n <= 0 {
        Seq::empty()
    } else {
        let prev = naming_upto(per_step, name, n - 1);
        if names_it(per_step[n - 1]@, name) { prev.push((n - 1) as usize) } else { prev }
    }
}

pub open spec fn steps_naming_spec(per_step: Seq<Vec<String>>, name: Seq<char>) -> Seq<usize> {
    naming_upto(per_step, name, per_step.len() as int)
}

fn named_here(named: &[String], name: &[char]) -> (r: bool)
    ensures
        r == names_it(named@, name@),
{
    let mut k: usize = 0;
    while k < named.len()
        invariant
            k <= named.len(),
            forall|j: int| 0 <= j < k ==> !eq_ignore_case(#[trigger] named@[j]@, name@),
        decreases named.len() - k,
    {
        let nc = chars_of(named[k].as_str());
        if chars_eq_ignore_case(nc.as_slice(), name) {
            return true;
        }
        k = k + 1;
    }
    false
}

/// The steps that NAME `name` on one binding axis, in ascending order, matching the
/// canonical declared name with ASCII case ignored. Empty means no step named it.
pub fn steps_naming(per_step: &[Vec<String>], name: &str) -> (r: Vec<usize>)
    ensures
        r@ == steps_naming_spec(per_step@, name@),
{
    let nc = chars_of(name);
    let mut out: Vec<usize> = Vec::new();
    let mut i: usize = 0;
    while i < per_step.len()
        invariant
            i <= per_step.len(),
            nc@ == name@,
            out@ == naming_upto(per_step@, name@, i as int),
        decreases per_step.len() - i,
    {
        if named_here(per_step[i].as_slice(), nc.as_slice()) {
            out.push(i);
        }
        i = i + 1;
    }
    out
}


/// The steps a capability may legally bind to: the naming steps that exist and are MODEL
/// steps (a pure or tool step reads no instructions, so a binding to one is dropped).
pub open spec fn model_naming_spec(per_step: Seq<Vec<String>>, name: Seq<char>, steps: Seq<StepSpec>) -> Seq<usize> {
    steps_naming_spec(per_step, name).filter(model_pos(steps))
}

pub open spec fn model_pos(steps: Seq<StepSpec>) -> spec_fn(usize) -> bool {
    |i: usize| (i as int) < steps.len() && is_model(steps[i as int])
}

pub fn model_steps_naming(per_step: &[Vec<String>], name: &str, dag: &DagSpec) -> (r: Vec<usize>)
    ensures
        r@ == model_naming_spec(per_step@, name@, dag.steps@),
{
    let all = steps_naming(per_step, name);
    let mut out: Vec<usize> = Vec::new();
    let mut k: usize = 0;
    while k < all.len()
        invariant
            k <= all.len(),
            out@ == all@.take(k as int).filter(model_pos(dag.steps@)),
        decreases all.len() - k,
    {
        let i = all[k];
        proof {
            assert(all@.take(k + 1).drop_last() == all@.take(k as int));
            assert(all@.take(k + 1).last() == i);
            reveal(Seq::filter);
            assert(all@.take(k + 1) == all@.take(k as int).push(i));
        }
        if i < dag.steps.len() && is_model_step(&dag.steps[i]) {
            out.push(i);
        }
        k = k + 1;
    }
    assert(all@.take(all.len() as int) == all@);
    out
}

// ----- errors ---------------------------------------------------------------------------------

/// Why an App could not be bound for a run.
#[derive(Debug, Clone, PartialEq, Eq)]
pub enum AppRunError {
    /// Malformed arguments or a mis-authored envelope.
    InvalidArgs(String),
    /// A referenced connection is not registered.
    MissingIntegration(String),
    /// The App names a model route this serve does not offer.
    UnservedModelRoute(String),
    /// A dependency the run reads is broken (not the caller's input).
    Internal(String),
}

// ----- entry inputs ---------------------------------------------------------------------------

/// What `serde_json` makes of `bytes` read as an object of strings: its entries in the map's
/// own (ascending key) order, or the parser's error message.
pub uninterp spec fn string_map_parse(bytes: Seq<u8>) -> Result<Seq<(Seq<char>, Seq<char>)>, Seq<char>>;

pub open spec fn pair_views(v: Seq<(String, String)>) -> Seq<(Seq<char>, Seq<char>)> {
    v.map_values(|p: (String, String)| (p.0@, p.1@))
}

/// `serde_json::from_slice::<BTreeMap<String, String>>`, its entries as a vector; the error is
/// the parser's `Display` text. The contract names the result and states the map's order: keys
/// unique and ascending. The grammar is not restated.
#[verifier::external_body]
fn parse_string_map(bytes: &[u8]) -> (r: Result<Vec<(String, String)>, String>)
    ensures
        match r {
            Ok(v) => string_map_parse(bytes@) == Ok::<Seq<(Seq<char>, Seq<char>)>, Seq<char>>(pair_views(v@))
                && keys_sorted(pair_keys(v@)),
            Err(e) => string_map_parse(bytes@) == Err::<Seq<(Seq<char>, Seq<char>)>, Seq<char>>(e@),
        },
{
    match serde_json::from_slice::<std::collections::BTreeMap<String, String>>(bytes) {
        Ok(m) => Ok(m.into_iter().collect()),
        Err(e) => Err(e.to_string()),
    }
}

/// The `Inputs` block: one `- key: value` line per entry.
pub open spec fn inputs_block(entries: Seq<(Seq<char>, Seq<char>)>) -> Seq<char> {
    join(entries.map_values(|e: (Seq<char>, Seq<char>)| "- "@ + e.0 + ": "@ + e.1), "\n"@)
}

/// `i` is the first model step.
pub open spec fn is_first_model(steps: Seq<StepSpec>, i: int) -> bool {
    0 <= i < steps.len() && is_model(steps[i]) && forall|j: int| 0 <= j < i ==> !is_model(#[trigger] steps[j])
}

fn first_model(steps: &[StepSpec]) -> (r: Option<usize>)
    ensures
        match r {
            Some(i) => is_first_model(steps@, i as int),
            None => forall|j: int| 0 <= j < steps@.len() ==> !is_model(#[trigger] steps@[j]),
        },
{
    let mut i: usize = 0;
    while i < steps.len()
        invariant
            i <= steps.len(),
            forall|j: int| 0 <= j < i ==> !is_model(#[trigger] steps@[j]),
        decreases steps.len() - i,
    {
        if is_model_step(&steps[i]) {
            return Some(i);
        }
        i = i + 1;
    }
    None
}

/// What folding entry `args` into the blueprint does.
pub open spec fn inject_ok(old_steps: Seq<StepSpec>, new_steps: Seq<StepSpec>, args: Seq<u8>, r: Result<(), AppRunError>) -> bool {
    if args.len() == 0 {
        r is Ok && new_steps == old_steps
    } else {
        match string_map_parse(args) {
            Err(e) => r matches Err(AppRunError::InvalidArgs(m)) && m@ == "app args must be a JSON object of strings: "@ + e
                && new_steps == old_steps,
            Ok(entries) => r is Ok && if entries.len() == 0 || !(exists|i: int| #[trigger] is_first_model(old_steps, i)) {
                new_steps == old_steps
            } else {
                new_steps.len() == old_steps.len() && forall|i: int| #[trigger] is_first_model(old_steps, i) ==> {
                    &&& forall|j: int| 0 <= j < old_steps.len() && j != i ==> #[trigger] new_steps[j] == old_steps[j]
                    &&& new_steps[i].prompt@ == trim(old_steps[i].prompt@ + "\n\nInputs:\n"@ + inputs_block(entries))
                    &&& new_steps[i].tool_contract == old_steps[i].tool_contract && new_steps[i].kind == old_steps[i].kind
                }
            },
        }
    }
}

/// Folds entry `args` (a JSON object of strings) into the FIRST model step's prompt as a
/// key-sorted `Inputs` block. Empty args, an empty object, or no model step change nothing.
pub fn inject_app_args(dag: &mut DagSpec, args: &[u8]) -> (r: Result<(), AppRunError>)
    ensures
        final(dag).edges@ == old(dag).edges@,
        inject_ok(old(dag).steps@, final(dag).steps@, args@, r),
{
    if args.len() == 0 {
        return Ok(());
    }
    let parsed = match parse_string_map(args) {
        Ok(p) => p,
        Err(e) => {
            let mut m = String::from_str("app args must be a JSON object of strings: ");
            push_str(&mut m, e.as_str());
            return Err(AppRunError::InvalidArgs(m));
        },
    };
    if parsed.len() == 0 {
        return Ok(());
    }
    let i = match first_model(dag.steps.as_slice()) {
        Some(i) => i,
        None => {
            proof {
                if exists|k: int| #[trigger] is_first_model(dag.steps@, k) {
                    let k = choose|k: int| #[trigger] is_first_model(dag.steps@, k);
                    assert(!is_model(dag.steps@[k]));
                }
            }
            return Ok(());
        },
    };
    let ghost old_steps = dag.steps@;
    let ghost pv = pair_views(parsed@);
    let mut lines: Vec<String> = Vec::new();
    let mut k: usize = 0;
    while k < parsed.len()
        invariant
            k <= parsed.len(),
            pv == pair_views(parsed@),
            lines@.map_values(|s: String| s@) == pv.take(k as int).map_values(|e: (Seq<char>, Seq<char>)| "- "@ + e.0 + ": "@ + e.1),
        decreases parsed.len() - k,
    {
        let mut line = String::from_str("- ");
        push_str(&mut line, parsed[k].0.as_str());
        push_str(&mut line, ": ");
        push_str(&mut line, parsed[k].1.as_str());
        let ghost before = lines@;
        lines.push(line);
        proof {
            assert(pv.take(k + 1) == pv.take(k as int).push(pv[k as int]));
            assert(lines@.map_values(|s: String| s@) =~= before.map_values(|s: String| s@).push(line@));
        }
        k = k + 1;
    }
    assert(pv.take(parsed.len() as int) == pv);
    let block = join_strings(lines.as_slice(), "\n");
    let mut step = dag.steps.remove(i);
    let mut text = step.prompt.clone();
    push_str(&mut text, "\n\nInputs:\n");
    push_str(&mut text, block.as_str());
    step.prompt = trim_string(text.as_str());
    dag.steps.insert(i, step);
    proof {
        assert(is_first_model(old_steps, i as int));
        assert forall|x: int| #[trigger] is_first_model(old_steps, x) implies x == i by {
            if x < i { assert(!is_model(old_steps[x])); }
            if x > i { assert(is_model(old_steps[i as int])); }
        }
        assert forall|j: int| 0 <= j < old_steps.len() && j != i implies #[trigger] dag.steps@[j] == old_steps[j] by {}
    }
    Ok(())
}

// ----- tool wishes ----------------------------------------------------------------------------

/// A skill an App references: its instructions blob and the tools it wishes for.
pub struct SkillRef {
    pub name: String,
    /// The 64-hex content ref of the instructions.
    pub instructions_ref: String,
    /// `(tool id, version)` wishes, in declaration order.
    pub tools: Vec<(String, String)>,
}

/// The deduped wish union over skills, in order: the first skill to wish for a tool id fixes
/// its version.
pub open spec fn skill_wish_spec(skills: Seq<SkillRef>) -> Map<Seq<char>, Seq<char>>
    decreases skills.len(),
{
    if skills.len() == 0 {
        Map::empty()
    } else {
        add_absent(skill_wish_spec(skills.drop_last()), skills.last().tools@)
    }
}

pub(crate) fn add_absent_into(m: &mut StrMap, ps: &[(String, String)])
    requires
        old(m).wf(),
    ensures
        final(m).wf(),
        final(m)@ == add_absent(old(m)@, ps@),
{
    let ghost start = m@;
    let mut i: usize = 0;
    while i < ps.len()
        invariant
            i <= ps.len(),
            m.wf(),
            m@ == add_absent(start, ps@.take(i as int)),
        decreases ps.len() - i,
    {
        m.insert_if_absent(ps[i].0.as_str(), ps[i].1.as_str());
        assert(ps@.take(i + 1).drop_last() == ps@.take(i as int));
        i = i + 1;
    }
    assert(ps@.take(ps.len() as int) == ps@);
}

/// The multi-skill tool WISH union (first occurrence wins on a version conflict).
pub fn skill_wish_union(skills: &[SkillRef]) -> (r: StrMap)
    ensures
        r.wf(),
        r@ == skill_wish_spec(skills@),
{
    let mut wish = StrMap::new();
    let mut i: usize = 0;
    while i < skills.len()
        invariant
            i <= skills.len(),
            wish.wf(),
            wish@ == skill_wish_spec(skills@.take(i as int)),
        decreases skills.len() - i,
    {
        add_absent_into(&mut wish, skills[i].tools.as_slice());
        assert(skills@.take(i + 1).drop_last() == skills@.take(i as int));
        i = i + 1;
    }
    assert(skills@.take(skills.len() as int) == skills@);
    wish
}

/// The skill wish union, then the steering wishes; a skill's version wins a conflict.
pub fn combined_tool_wish(skills: &[SkillRef], steering_grants: &StrMap) -> (r: StrMap)
    requires
        steering_grants.wf(),
    ensures
        r.wf(),
        r@ == steering_grants@.union_prefer_right(skill_wish_spec(skills@)),
{
    let mut wish = skill_wish_union(skills);
    add_absent_into(&mut wish, steering_grants.entries());
    proof {
        steering_grants.lemma_view();
        lemma_add_absent_union(skill_wish_spec(skills@), steering_grants.pairs());
    }
    wish
}

/// How an App reaches for tools.
#[derive(Debug, Clone, Copy, PartialEq, Eq, Structural)]
pub enum Reach {
    /// The declared wish, verbatim.
    Explicit,
    /// The caller's whole tool ceiling, in place of the declared wish.
    InheritPrincipal,
}

/// `Explicit` keeps the declared wish; `InheritPrincipal` REPLACES it with the ceiling (never a
/// union), and with no ceiling yields nothing.
pub fn effective_tool_wish(reach: Reach, declared: StrMap, ceiling: Option<&[(String, String)]>) -> (r: StrMap)
    requires
        declared.wf(),
    ensures
        r.wf(),
        r@ == (match reach {
            Reach::Explicit => declared@,
            Reach::InheritPrincipal => match ceiling {
                Some(c) => pairs_map(c@),
                None => Map::empty(),
            },
        }),
{
    match reach {
        Reach::Explicit => declared,
        Reach::InheritPrincipal => {
            let mut out = StrMap::new();
            match ceiling {
                None => {},
                Some(c) => {
                    let mut i: usize = 0;
                    while i < c.len()
                        invariant
                            i <= c.len(),
                            out.wf(),
                            out@ == pairs_map(c@.take(i as int)),
                        decreases c.len() - i,
                    {
                        out.insert(c[i].0.clone(), c[i].1.clone());
                        assert(c@.take(i + 1).drop_last() == c@.take(i as int));
                        i = i + 1;
                    }
                    assert(c@.take(c.len() as int) == c@);
                },
            }
            out
        },
    }
}


// ----- secret scopes --------------------------------------------------------------------------

/// A connection an App references: a descriptor (the transport endpoint) and, optionally, the
/// credential it names.
pub struct ConnectionRef {
    pub descriptor: String,
    /// Empty for a one-click bind that names only the endpoint.
    pub credential_ref: String,
}

/// The credential a referenced connection provides, or the name under which it is missing: an
/// explicit `credential_ref` must be registered; an endpoint-only bind adopts the credential of
/// the registered connection at that endpoint (possibly empty).
pub open spec fn cred_of(c: ConnectionRef, registered: Set<Seq<char>>, endpoints: Map<Seq<char>, Seq<char>>) -> Result<Seq<char>, Seq<char>> {
    if c.credential_ref@.len() == 0 {
        if endpoints.contains_key(c.descriptor@) { Ok(endpoints[c.descriptor@]) } else { Err(c.descriptor@) }
    } else if registered.contains(c.credential_ref@) {
        Ok(c.credential_ref@)
    } else {
        Err(c.credential_ref@)
    }
}

/// Each referenced connection's `(descriptor, credential)` (`None` when it carries none), or
/// the first connection that is missing.
pub open spec fn credentials_spec(refs: Seq<ConnectionRef>, registered: Set<Seq<char>>, endpoints: Map<Seq<char>, Seq<char>>) -> Result<Seq<(Seq<char>, Option<Seq<char>>)>, Seq<char>>
    decreases refs.len(),
{
    if refs.len() == 0 {
        Ok(Seq::empty())
    } else {
        match credentials_spec(refs.drop_last(), registered, endpoints) {
            Err(m) => Err(m),
            Ok(prev) => match cred_of(refs.last(), registered, endpoints) {
                Err(m) => Err(m),
                Ok(c) => Ok(prev.push((refs.last().descriptor@, if c.len() == 0 { None } else { Some(c) }))),
            },
        }
    }
}

pub open spec fn provided_view(v: Seq<(String, Option<String>)>) -> Seq<(Seq<char>, Option<Seq<char>>)> {
    v.map_values(|p: (String, Option<String>)| (p.0@, match p.1 { Some(c) => Some(c@), None => None::<Seq<char>> }))
}

/// The credentials that connections actually provide at run time.
pub fn connection_credentials(refs: &[ConnectionRef], registered_credentials: &StrSet, endpoint_credentials: &StrMap) -> (r: Result<Vec<(String, Option<String>)>, AppRunError>)
    requires
        registered_credentials.wf(),
        endpoint_credentials.wf(),
    ensures
        match credentials_spec(refs@, registered_credentials@, endpoint_credentials@) {
            Ok(pb) => r matches Ok(v) && provided_view(v@) == pb,
            Err(m) => r matches Err(AppRunError::MissingIntegration(n)) && n@ == m,
        },
{
    let mut out: Vec<(String, Option<String>)> = Vec::new();
    let mut i: usize = 0;
    assert(refs@.take(0) =~= Seq::<ConnectionRef>::empty());
    assert(provided_view(out@) =~= Seq::<(Seq<char>, Option<Seq<char>>)>::empty());
    while i < refs.len()
        invariant
            i <= refs.len(),
            registered_credentials.wf(),
            endpoint_credentials.wf(),
            credentials_spec(refs@.take(i as int), registered_credentials@, endpoint_credentials@) == Ok::<Seq<(Seq<char>, Option<Seq<char>>)>, Seq<char>>(provided_view(out@)),
        decreases refs.len() - i,
    {
        let c = &refs[i];
        proof {
            assert(refs@.take(i + 1).drop_last() == refs@.take(i as int));
            assert(refs@.take(i + 1).last() == refs@[i as int]);
        }
        let cred: String = if chars_of(c.credential_ref.as_str()).len() == 0 {
            match endpoint_credentials.get(c.descriptor.as_str()) {
                Some(x) => x.clone(),
                None => {
                    proof { lemma_credentials_prefix_err(refs@, registered_credentials@, endpoint_credentials@, i as int); }
                    return Err(AppRunError::MissingIntegration(c.descriptor.clone()));
                },
            }
        } else if registered_credentials.contains(c.credential_ref.as_str()) {
            c.credential_ref.clone()
        } else {
            proof { lemma_credentials_prefix_err(refs@, registered_credentials@, endpoint_credentials@, i as int); }
            return Err(AppRunError::MissingIntegration(c.credential_ref.clone()));
        };
        let is_empty = chars_of(cred.as_str()).len() == 0;
        let ghost before = out@;
        let ghost cv = cred@;
        out.push((c.descriptor.clone(), if is_empty { None } else { Some(cred) }));
        assert(provided_view(out@) =~= provided_view(before).push((c.descriptor@, if cv.len() == 0 { None } else { Some(cv) })));
        i = i + 1;
    }
    assert(refs@.take(refs.len() as int) == refs@);
    Ok(out)
}

/// A failure on the first `i + 1` references is the failure of all of them.
proof fn lemma_credentials_prefix_err(refs: Seq<ConnectionRef>, registered: Set<Seq<char>>, endpoints: Map<Seq<char>, Seq<char>>, i: int)
    requires
        0 <= i < refs.len(),
        credentials_spec(refs.take(i), registered, endpoints) is Ok,
        cred_of(refs[i], registered, endpoints) is Err,
    ensures
        credentials_spec(refs, registered, endpoints) == Err::<Seq<(Seq<char>, Option<Seq<char>>)>, Seq<char>>(cred_of(refs[i], registered, endpoints)->Err_0),
    decreases refs.len() - i,
{
    assert(refs.take(i + 1).drop_last() == refs.take(i));
    assert(refs.take(i + 1).last() == refs[i]);
    lemma_credentials_err_extends(refs, registered, endpoints, i + 1);
}

proof fn lemma_credentials_err_extends(refs: Seq<ConnectionRef>, registered: Set<Seq<char>>, endpoints: Map<Seq<char>, Seq<char>>, n: int)
    requires
        0 <= n <= refs.len(),
        credentials_spec(refs.take(n), registered, endpoints) is Err,
    ensures
        credentials_spec(refs, registered, endpoints) == credentials_spec(refs.take(n), registered, endpoints),
    decreases refs.len() - n,
{
    if n < refs.len() {
        assert(refs.take(n + 1).drop_last() == refs.take(n));
        lemma_credentials_err_extends(refs, registered, endpoints, n + 1);
    } else {
        assert(refs.take(n) == refs);
    }
}

/// The credentials a list of `(descriptor, credential)` pairs provides.
pub open spec fn provided_set(pb: Seq<(Seq<char>, Option<Seq<char>>)>) -> Set<Seq<char>> {
    Set::new(|c: Seq<char>| exists|k: int| 0 <= k < pb.len() && #[trigger] pb[k].1 == Some(c))
}

/// `provided` narrowed by an explicit scope: an empty scope takes everything provided; a
/// non-empty one keeps only the provided names it lists.
pub open spec fn narrowed(provided: Set<Seq<char>>, names: Seq<Seq<char>>) -> Set<Seq<char>> {
    if names.len() == 0 { provided } else { names.to_set().intersect(provided) }
}

pub open spec fn narrow_ok(provided: Set<Seq<char>>, names: Seq<Seq<char>>, r: Option<StrSet>) -> bool {
    match r {
        Some(s) => s.wf() && s@ == narrowed(provided, names) && s@ != Set::<Seq<char>>::empty(),
        None => narrowed(provided, names) == Set::<Seq<char>>::empty(),
    }
}

/// `provided` narrowed by an explicit `guards.secret_scope` (intersect); an empty result is
/// `None`, so a credentialed tool fails closed.
pub fn narrow_scope(provided: &StrSet, scope_names: &[String]) -> (r: Option<StrSet>)
    requires
        provided.wf(),
    ensures
        narrow_ok(provided@, string_views(scope_names@), r),
{
    let ghost names = string_views(scope_names@);
    let mut allowed = StrSet::new();
    if scope_names.len() == 0 {
        let items = provided.items();
        let mut i: usize = 0;
        proof { provided.lemma_view(); }
        while i < items.len()
            invariant
                i <= items.len(),
                items@ == provided.elems(),
                provided.wf(),
                allowed.wf(),
                allowed@ == string_views(items@.take(i as int)).to_set(),
            decreases items.len() - i,
        {
            allowed.insert(items[i].as_str());
            proof {
                assert(string_views(items@.take(i + 1)) =~= string_views(items@.take(i as int)).push(items@[i as int]@));
                string_views(items@.take(i as int)).lemma_push_to_set_commute(items@[i as int]@);
            }
            i = i + 1;
        }
        assert(items@.take(items.len() as int) == items@);
    } else {
        let mut i: usize = 0;
        while i < scope_names.len()
            invariant
                i <= scope_names.len(),
                names == string_views(scope_names@),
                provided.wf(),
                allowed.wf(),
                allowed@ == names.take(i as int).to_set().intersect(provided@),
            decreases scope_names.len() - i,
        {
            let n = scope_names[i].as_str();
            proof {
                assert(names.take(i + 1) =~= names.take(i as int).push(n@));
                names.take(i as int).lemma_push_to_set_commute(n@);
            }
            if provided.contains(n) {
                allowed.insert(n);
                assert(allowed@ =~= names.take(i + 1).to_set().intersect(provided@));
            } else {
                assert(allowed@ =~= names.take(i + 1).to_set().intersect(provided@));
            }
            i = i + 1;
        }
        assert(names.take(scope_names.len() as int) == names);
    }
    if allowed.is_empty() {
        None
    } else {
        Some(allowed)
    }
}

/// The first scope name no referenced connection provides.
pub open spec fn first_outside(names: Seq<Seq<char>>, provided: Set<Seq<char>>) -> Option<Seq<char>>
    decreases names.len(),
{
    if names.len() == 0 {
        None
    } else if !provided.contains(names[0]) {
        Some(names[0])
    } else {
        first_outside(names.drop_first(), provided)
    }
}

pub open spec fn scope_refusal(name: Seq<char>) -> Seq<char> {
    "guards.secret_scope names "@ + crate::text::debug_str(name) + " but no referenced connection provides that credential"@
}

/// The run's secret scope: what the referenced connections provide, narrowed by the App's
/// `guards.secret_scope`, which may only name credentials those connections provide.
pub open spec fn secret_scope_ok(refs: Seq<ConnectionRef>, names: Seq<Seq<char>>, registered: Set<Seq<char>>, endpoints: Map<Seq<char>, Seq<char>>, r: Result<Option<StrSet>, AppRunError>) -> bool {
    match credentials_spec(refs, registered, endpoints) {
        Err(m) => r matches Err(AppRunError::MissingIntegration(n)) && n@ == m,
        Ok(pb) => match first_outside(names, provided_set(pb)) {
            Some(n) => r matches Err(AppRunError::InvalidArgs(msg)) && msg@ == scope_refusal(n),
            None => r matches Ok(o) && narrow_ok(provided_set(pb), names, o),
        },
    }
}

fn provided_creds(pb: &[(String, Option<String>)]) -> (r: StrSet)
    ensures
        r.wf(),
        r@ == provided_set(provided_view(pb@)),
{
    let ghost pv = provided_view(pb@);
    let mut out = StrSet::new();
    let mut i: usize = 0;
    while i < pb.len()
        invariant
            i <= pb.len(),
            pv == provided_view(pb@),
            out.wf(),
            out@ == provided_set(pv.take(i as int)),
        decreases pb.len() - i,
    {
        let ghost before = out@;
        match &pb[i].1 {
            Some(c) => { out.insert(c.as_str()); },
            None => {},
        }
        proof {
            let t = pv.take(i as int);
            let t1 = pv.take(i + 1);
            assert(t1 == t.push(pv[i as int]));
            assert forall|c: Seq<char>| #[trigger] out@.contains(c) <==> provided_set(t1).contains(c) by {
                if provided_set(t).contains(c) {
                    let k = choose|k: int| 0 <= k < t.len() && #[trigger] t[k].1 == Some(c);
                    assert(t1[k] == t[k]);
                }
                if provided_set(t1).contains(c) {
                    let k = choose|k: int| 0 <= k < t1.len() && #[trigger] t1[k].1 == Some(c);
                    if k < i { assert(t[k] == t1[k]); }
                }
                if pv[i as int].1 == Some(c) {
                    assert(t1[i as int].1 == Some(c));
                }
            }
            assert(out@ =~= provided_set(t1));
        }
        i = i + 1;
    }
    assert(pv.take(pb.len() as int) == pv);
    out
}

/// Resolves an App's referenced connections and `guards.secret_scope` into the run's scope.
pub fn resolve_secret_scope(refs: &[ConnectionRef], scope_names: &[String], registered_credentials: &StrSet, endpoint_credentials: &StrMap) -> (r: Result<Option<StrSet>, AppRunError>)
    requires
        registered_credentials.wf(),
        endpoint_credentials.wf(),
    ensures
        secret_scope_ok(refs@, string_views(scope_names@), registered_credentials@, endpoint_credentials@, r),
{
    let provided_by = match connection_credentials(refs, registered_credentials, endpoint_credentials) {
        Ok(v) => v,
        Err(e) => { return Err(e); },
    };
    let provided = provided_creds(provided_by.as_slice());
    let ghost names = string_views(scope_names@);
    let mut i: usize = 0;
    assert(names.skip(0) == names);
    while i < scope_names.len()
        invariant
            i <= scope_names.len(),
            names == string_views(scope_names@),
            provided.wf(),
            credentials_spec(refs@, registered_credentials@, endpoint_credentials@) == Ok::<Seq<(Seq<char>, Option<Seq<char>>)>, Seq<char>>(provided_view(provided_by@)),
            provided@ == provided_set(provided_view(provided_by@)),
            first_outside(names, provided@) == first_outside(names.skip(i as int), provided@),
        decreases scope_names.len() - i,
    {
        assert(names.skip(i as int)[0] == scope_names@[i as int]@);
        assert(names.skip(i as int).drop_first() == names.skip(i + 1));
        if !provided.contains(scope_names[i].as_str()) {
            assert(first_outside(names.skip(i as int), provided@) == Some(scope_names@[i as int]@));
            let mut m = String::from_str("guards.secret_scope names ");
            let q = crate::text::debug_quoted(scope_names[i].as_str());
            push_str(&mut m, q.as_str());
            push_str(&mut m, " but no referenced connection provides that credential");
            return Err(AppRunError::InvalidArgs(m));
        }
        i = i + 1;
    }
    assert(names.skip(i as int).len() == 0);
    Ok(narrow_scope(&provided, scope_names))
}

/// The credentials provided by connections no step binds.
pub open spec fn unbound_creds(pb: Seq<(Seq<char>, Option<Seq<char>>)>, bindings: Seq<Vec<String>>) -> Set<Seq<char>> {
    Set::new(|c: Seq<char>| exists|k: int| 0 <= k < pb.len() && #[trigger] pb[k].1 == Some(c)
        && steps_naming_spec(bindings, pb[k].0).len() == 0)
}

/// The credentials provided by the connections step `i` binds.
pub open spec fn bound_creds(pb: Seq<(Seq<char>, Option<Seq<char>>)>, bindings: Seq<Vec<String>>, i: int) -> Set<Seq<char>> {
    Set::new(|c: Seq<char>| exists|k: int| 0 <= k < pb.len() && #[trigger] pb[k].1 == Some(c)
        && 0 <= i < bindings.len() && names_it(bindings[i]@, pb[k].0))
}

fn creds_matching(pb: &[(String, Option<String>)], bindings: &[Vec<String>], step: usize, unbound: bool, into: &mut StrSet)
    requires
        old(into).wf(),
    ensures
        final(into).wf(),
        final(into)@ == old(into)@.union(if unbound { unbound_creds(provided_view(pb@), bindings@) } else { bound_creds(provided_view(pb@), bindings@, step as int) }),
{
    let ghost pv = provided_view(pb@);
    let ghost start = into@;
    let ghost target = if unbound { unbound_creds(pv, bindings@) } else { bound_creds(pv, bindings@, step as int) };
    let mut i: usize = 0;
    while i < pb.len()
        invariant
            i <= pb.len(),
            pv == provided_view(pb@),
            target == (if unbound { unbound_creds(pv, bindings@) } else { bound_creds(pv, bindings@, step as int) }),
            into.wf(),
            forall|c: Seq<char>| #[trigger] into@.contains(c) <==> (start.contains(c) || (target.contains(c)
                && exists|k: int| 0 <= k < i && #[trigger] pv[k].1 == Some(c) && (if unbound { steps_naming_spec(bindings@, pv[k].0).len() == 0 } else { 0 <= step < bindings@.len() && names_it(bindings@[step as int]@, pv[k].0) }))),
        decreases pb.len() - i,
    {
        let d = pb[i].0.as_str();
        let hit = if unbound {
            steps_naming(bindings, d).len() == 0
        } else if step < bindings.len() {
            let dc = chars_of(d);
            named_here(bindings[step].as_slice(), dc.as_slice())
        } else {
            false
        };
        let ghost before = into@;
        if hit {
            match &pb[i].1 {
                Some(c) => { into.insert(c.as_str()); },
                None => {},
            }
        }
        proof {
            assert forall|c: Seq<char>| #[trigger] into@.contains(c) <==> (start.contains(c) || (target.contains(c)
                && exists|k: int| 0 <= k < i + 1 && #[trigger] pv[k].1 == Some(c) && (if unbound { steps_naming_spec(bindings@, pv[k].0).len() == 0 } else { 0 <= step < bindings@.len() && names_it(bindings@[step as int]@, pv[k].0) }))) by {
                if pv[i as int].1 == Some(c) && hit {
                    assert(target.contains(c));
                }
            }
        }
        i = i + 1;
    }
    proof {
        assert forall|c: Seq<char>| #[trigger] into@.contains(c) <==> start.union(target).contains(c) by {
            if target.contains(c) {
                let k = choose|k: int| 0 <= k < pv.len() && #[trigger] pv[k].1 == Some(c) && (if unbound { steps_naming_spec(bindings@, pv[k].0).len() == 0 } else { 0 <= step < bindings@.len() && names_it(bindings@[step as int]@, pv[k].0) });
            }
        }
        assert(into@ =~= start.union(target));
    }
}

/// The secret scope of every step: what its own bound connections provide plus every
/// connection no step binds, narrowed by the App's `guards.secret_scope`.
pub fn per_step_secret_scopes(provided_by: &[(String, Option<String>)], bindings: &[Vec<String>], scope_names: &[String], step_count: usize) -> (r: Vec<Option<StrSet>>)
    ensures
        r@.len() == step_count,
        forall|i: int| 0 <= i < step_count ==> narrow_ok(
            unbound_creds(provided_view(provided_by@), bindings@).union(bound_creds(provided_view(provided_by@), bindings@, i)),
            string_views(scope_names@),
            #[trigger] r@[i],
        ),
{
    let mut unbound = StrSet::new();
    creds_matching(provided_by, bindings, 0, true, &mut unbound);
    assert(unbound@ =~= unbound_creds(provided_view(provided_by@), bindings@));
    let mut out: Vec<Option<StrSet>> = Vec::new();
    let mut i: usize = 0;
    while i < step_count
        invariant
            i <= step_count,
            out@.len() == i,
            unbound.wf(),
            unbound@ == unbound_creds(provided_view(provided_by@), bindings@),
            forall|j: int| 0 <= j < i ==> narrow_ok(
                unbound_creds(provided_view(provided_by@), bindings@).union(bound_creds(provided_view(provided_by@), bindings@, j)),
                string_views(scope_names@),
                #[trigger] out@[j],
            ),
        decreases step_count - i,
    {
        let mut provided = StrSet::new();
        let items = unbound.items();
        let mut k: usize = 0;
        proof { unbound.lemma_view(); }
        while k < items.len()
            invariant
                k <= items.len(),
                items@ == unbound.elems(),
                unbound.wf(),
                provided.wf(),
                provided@ == string_views(items@.take(k as int)).to_set(),
            decreases items.len() - k,
        {
            provided.insert(items[k].as_str());
            proof {
                assert(string_views(items@.take(k + 1)) =~= string_views(items@.take(k as int)).push(items@[k as int]@));
                string_views(items@.take(k as int)).lemma_push_to_set_commute(items@[k as int]@);
            }
            k = k + 1;
        }
        proof {
            assert(items@.take(items.len() as int) == items@);
            assert forall|c: Seq<char>| #[trigger] provided@.contains(c) <==> unbound@.contains(c) by {
                if provided@.contains(c) {
                    let j = choose|j: int| 0 <= j < string_views(items@).len() && string_views(items@)[j] == c;
                    assert(items@[j]@ == c);
                }
                if unbound@.contains(c) {
                    let j = choose|j: int| 0 <= j < items@.len() && items@[j]@ == c;
                    assert(string_views(items@)[j] == c);
                }
            }
            assert(provided@ =~= unbound@);
        }
        creds_matching(provided_by, bindings, i, false, &mut provided);
        let scope = narrow_scope(&provided, scope_names);
        out.push(scope);
        i = i + 1;
    }
    out
}

// ----- grounding datasets ---------------------------------------------------------------------

/// A dataset an App references: the name it declared and the content refs it carries (empty
/// for a reference to an existing dataset).
pub struct DatasetRef {
    pub dataset_ref: String,
    pub cas_refs: Vec<String>,
}

/// One dataset an App grounds over.
#[derive(Debug, Clone, PartialEq, Eq)]
pub struct DatasetBinding {
    pub declared: String,
    pub cas_refs: Vec<String>,
}

pub open spec fn binding_view(b: DatasetBinding) -> (Seq<char>, Seq<Seq<char>>) {
    (b.declared@, string_views(b.cas_refs@))
}

/// The candidates in declaration order: the referenced datasets, then the steering names
/// (which carry no corpus).
pub open spec fn dataset_candidates(datasets: Seq<DatasetRef>, steering: Seq<String>) -> Seq<(Seq<char>, Seq<Seq<char>>)> {
    datasets.map_values(|d: DatasetRef| (d.dataset_ref@, string_views(d.cas_refs@)))
        + steering.map_values(|n: String| (n@, Seq::<Seq<char>>::empty()))
}

/// The candidates deduped by name in order (the first declaration wins), empty names skipped.
pub open spec fn dedup_bindings(cands: Seq<(Seq<char>, Seq<Seq<char>>)>) -> Seq<(Seq<char>, Seq<Seq<char>>)>
    decreases cands.len(),
{
    if cands.len() == 0 {
        Seq::empty()
    } else {
        let prev = dedup_bindings(cands.drop_last());
        let c = cands.last();
        if c.0.len() == 0 || exists|k: int| 0 <= k < prev.len() && #[trigger] prev[k].0 == c.0 { prev } else { prev.push(c) }
    }
}

fn clone_strings(v: &Vec<String>) -> (r: Vec<String>)
    ensures
        string_views(r@) == string_views(v@),
{
    let mut out: Vec<String> = Vec::new();
    let mut i: usize = 0;
    while i < v.len()
        invariant
            i <= v.len(),
            string_views(out@) == string_views(v@.take(i as int)),
        decreases v.len() - i,
    {
        let ghost before = out@;
        out.push(v[i].clone());
        assert(string_views(out@) =~= string_views(before).push(v@[i as int]@));
        assert(string_views(v@.take(i + 1)) =~= string_views(v@.take(i as int)).push(v@[i as int]@));
        i = i + 1;
    }
    assert(v@.take(v.len() as int) == v@);
    out
}

fn push_binding(out: &mut Vec<DatasetBinding>, declared: &String, cas_refs: &Vec<String>)
    ensures
        ({
            let prev = old(out)@.map_values(|b: DatasetBinding| binding_view(b));
            final(out)@.map_values(|b: DatasetBinding| binding_view(b)) == (
                if declared@.len() == 0 || exists|k: int| 0 <= k < prev.len() && #[trigger] prev[k].0 == declared@ { prev }
                else { prev.push((declared@, string_views(cas_refs@))) })
        }),
{
    let ghost prev = out@.map_values(|b: DatasetBinding| binding_view(b));
    if chars_of(declared.as_str()).len() == 0 {
        return;
    }
    let mut k: usize = 0;
    while k < out.len()
        invariant
            k <= out.len(),
            prev == out@.map_values(|b: DatasetBinding| binding_view(b)),
            forall|j: int| 0 <= j < k ==> prev[j].0 != declared@,
        decreases out.len() - k,
    {
        if crate::text::str_eq(out[k].declared.as_str(), declared.as_str()) {
            assert(prev[k as int].0 == declared@);
            return;
        }
        k = k + 1;
    }
    let b = DatasetBinding { declared: declared.clone(), cas_refs: clone_strings(cas_refs) };
    out.push(b);
    assert(out@.map_values(|b: DatasetBinding| binding_view(b)) =~= prev.push((declared@, string_views(cas_refs@))));
}

/// The datasets an App grounds over: the referenced datasets, then the steering names, deduped
/// in declaration order (the first declaration wins, so a corpus-bearing entry is not
/// displaced by a later bare mention), empty names skipped.
pub fn collect_dataset_bindings(datasets: &[DatasetRef], steering_dataset_refs: &[String]) -> (r: Vec<DatasetBinding>)
    ensures
        r@.map_values(|b: DatasetBinding| binding_view(b)) == dedup_bindings(dataset_candidates(datasets@, steering_dataset_refs@)),
{
    let ghost cands = dataset_candidates(datasets@, steering_dataset_refs@);
    let mut out: Vec<DatasetBinding> = Vec::new();
    let mut i: usize = 0;
    while i < datasets.len()
        invariant
            i <= datasets.len(),
            cands == dataset_candidates(datasets@, steering_dataset_refs@),
            out@.map_values(|b: DatasetBinding| binding_view(b)) == dedup_bindings(cands.take(i as int)),
        decreases datasets.len() - i,
    {
        push_binding(&mut out, &datasets[i].dataset_ref, &datasets[i].cas_refs);
        proof {
            assert(cands.take(i + 1).drop_last() == cands.take(i as int));
            assert(cands.take(i + 1).last() == cands[i as int]);
        }
        i = i + 1;
    }
    let empty: Vec<String> = Vec::new();
    let mut j: usize = 0;
    while j < steering_dataset_refs.len()
        invariant
            j <= steering_dataset_refs.len(),
            cands == dataset_candidates(datasets@, steering_dataset_refs@),
            empty@.len() == 0,
            out@.map_values(|b: DatasetBinding| binding_view(b)) == dedup_bindings(cands.take(datasets@.len() + j)),
        decreases steering_dataset_refs.len() - j,
    {
        push_binding(&mut out, &steering_dataset_refs[j], &empty);
        proof {
            let n = datasets@.len() + j;
            assert(cands.take(n + 1).drop_last() == cands.take(n));
            assert(cands.take(n + 1).last() == cands[n]);
            assert(cands[n] == (steering_dataset_refs@[j as int]@, Seq::<Seq<char>>::empty()));
            assert(string_views(empty@) =~= Seq::<Seq<char>>::empty());
        }
        j = j + 1;
    }
    assert(cands.take(cands.len() as int) == cands);
    out
}


// ----- taking bindings off the blueprint ------------------------------------------------------

/// The per-step capability bindings, by step position, per axis.
pub struct AppBindings {
    pub skills: Vec<Vec<String>>,
    pub connections: Vec<Vec<String>>,
    pub datasets: Vec<Vec<String>>,
    pub apps: Vec<Vec<String>>,
}

/// The blueprint with the bindings taken off: every step's binding lists emptied, all else kept.
pub open spec fn unbound_step(o: StepSpec, n: StepSpec) -> bool {
    &&& n.kind == o.kind && n.model_id == o.model_id && n.prompt == o.prompt
    &&& n.tool_contract == o.tool_contract && n.params == o.params
    &&& n.skills@.len() == 0 && n.connections@.len() == 0 && n.datasets@.len() == 0 && n.apps@.len() == 0
}

/// Moves the per-step bindings out of `dag`, leaving a blueprint that lowers exactly as one
/// authored before per-step binding existed.
#[verifier::spinoff_prover]
pub fn take_bindings(dag: &mut DagSpec) -> (r: AppBindings)
    ensures
        final(dag).edges@ == old(dag).edges@,
        final(dag).steps@.len() == old(dag).steps@.len(),
        forall|i: int| 0 <= i < old(dag).steps@.len() ==> unbound_step(old(dag).steps@[i], #[trigger] final(dag).steps@[i]),
        r.skills@.len() == old(dag).steps@.len() && r.connections@.len() == old(dag).steps@.len()
            && r.datasets@.len() == old(dag).steps@.len() && r.apps@.len() == old(dag).steps@.len(),
        forall|i: int| 0 <= i < old(dag).steps@.len() ==> {
            &&& (#[trigger] r.skills@[i])@ == old(dag).steps@[i].skills@
            &&& r.connections@[i]@ == old(dag).steps@[i].connections@
            &&& r.datasets@[i]@ == old(dag).steps@[i].datasets@
            &&& r.apps@[i]@ == old(dag).steps@[i].apps@
        },
{
    let ghost old_steps = dag.steps@;
    let mut out = AppBindings { skills: Vec::new(), connections: Vec::new(), datasets: Vec::new(), apps: Vec::new() };
    let mut i: usize = 0;
    while i < dag.steps.len()
        invariant
            i <= dag.steps.len(),
            dag.steps@.len() == old_steps.len(),
            dag.edges@ == old(dag).edges@,
            old_steps == old(dag).steps@,
            out.skills@.len() == i && out.connections@.len() == i && out.datasets@.len() == i && out.apps@.len() == i,
            forall|j: int| 0 <= j < i ==> unbound_step(old_steps[j], #[trigger] dag.steps@[j]),
            forall|j: int| i <= j < old_steps.len() ==> #[trigger] dag.steps@[j] == old_steps[j],
            forall|j: int| 0 <= j < i ==> {
                &&& (#[trigger] out.skills@[j])@ == old_steps[j].skills@
                &&& out.connections@[j]@ == old_steps[j].connections@
                &&& out.datasets@[j]@ == old_steps[j].datasets@
                &&& out.apps@[j]@ == old_steps[j].apps@
            },
        decreases dag.steps.len() - i,
    {
        let mut step = dag.steps.remove(i);
        assert(step == old_steps[i as int]);
        let mut sk: Vec<String> = Vec::new();
        std::mem::swap(&mut sk, &mut step.skills);
        let mut co: Vec<String> = Vec::new();
        std::mem::swap(&mut co, &mut step.connections);
        let mut da: Vec<String> = Vec::new();
        std::mem::swap(&mut da, &mut step.datasets);
        let mut ap: Vec<String> = Vec::new();
        std::mem::swap(&mut ap, &mut step.apps);
        dag.steps.insert(i, step);
        out.skills.push(sk);
        out.connections.push(co);
        out.datasets.push(da);
        out.apps.push(ap);
        proof {
            assert forall|j: int| 0 <= j < i + 1 implies unbound_step(old_steps[j], #[trigger] dag.steps@[j]) by {}
            assert forall|j: int| i + 1 <= j < old_steps.len() implies #[trigger] dag.steps@[j] == old_steps[j] by {}
        }
        i = i + 1;
    }
    out
}

// ----- the model route ------------------------------------------------------------------------

/// An App's model route: empty leaves the blueprint alone; a route this serve does not offer
/// refuses the run; otherwise every model step without its own model takes the route.
pub fn pin_model_route(dag: &mut DagSpec, route: &str, served: &[String]) -> (r: Result<(), AppRunError>)
    ensures
        final(dag).edges@ == old(dag).edges@,
        final(dag).steps@.len() == old(dag).steps@.len(),
        route@.len() == 0 ==> r is Ok && final(dag).steps@ == old(dag).steps@,
        route@.len() > 0 && !string_views(served@).contains(route@) ==> (r matches Err(AppRunError::UnservedModelRoute(m))
            && m@ == route@) && final(dag).steps@ == old(dag).steps@,
        route@.len() > 0 && string_views(served@).contains(route@) ==> r is Ok && forall|i: int| 0 <= i < old(dag).steps@.len() ==> {
            let (o, n) = (old(dag).steps@[i], #[trigger] final(dag).steps@[i]);
            &&& n.kind == o.kind && n.prompt == o.prompt && n.tool_contract == o.tool_contract && n.params == o.params
            &&& n.model_id@ == (if is_model(o) && o.model_id@.len() == 0 { route@ } else { o.model_id@ })
        },
{
    if chars_of(route).len() == 0 {
        return Ok(());
    }
    let mut k: usize = 0;
    let mut found = false;
    while k < served.len()
        invariant
            k <= served.len(),
            found <==> exists|j: int| 0 <= j < k && (#[trigger] served@[j])@ == route@,
        decreases served.len() - k,
    {
        if crate::text::str_eq(served[k].as_str(), route) {
            found = true;
        }
        k = k + 1;
    }
    proof {
        if found {
            let j = choose|j: int| 0 <= j < served@.len() && (#[trigger] served@[j])@ == route@;
            assert(string_views(served@)[j] == route@);
        }
        if string_views(served@).contains(route@) {
            let j = choose|j: int| 0 <= j < string_views(served@).len() && string_views(served@)[j] == route@;
            assert(served@[j]@ == route@);
        }
    }
    if !found {
        return Err(AppRunError::UnservedModelRoute(String::from_str(route)));
    }
    let ghost old_steps = dag.steps@;
    let mut i: usize = 0;
    while i < dag.steps.len()
        invariant
            i <= dag.steps.len(),
            dag.steps@.len() == old_steps.len(),
            dag.edges@ == old(dag).edges@,
            forall|j: int| 0 <= j < old_steps.len() ==> {
                let (o, n) = (old_steps[j], #[trigger] dag.steps@[j]);
                &&& n.kind == o.kind && n.prompt == o.prompt && n.tool_contract == o.tool_contract && n.params == o.params
                &&& n.model_id@ == (if j < i && is_model(o) && o.model_id@.len() == 0 { route@ } else { o.model_id@ })
                &&& (j >= i ==> n == o)
            },
        decreases dag.steps.len() - i,
    {
        let mut step = dag.steps.remove(i);
        if is_model_step(&step) && chars_of(step.model_id.as_str()).len() == 0 {
            step.model_id = String::from_str(route);
        }
        dag.steps.insert(i, step);
        proof {
            assert forall|j: int| 0 <= j < old_steps.len() implies {
                let (o, n) = (old_steps[j], #[trigger] dag.steps@[j]);
                &&& n.kind == o.kind && n.prompt == o.prompt && n.tool_contract == o.tool_contract && n.params == o.params
                &&& n.model_id@ == (if j < i + 1 && is_model(o) && o.model_id@.len() == 0 { route@ } else { o.model_id@ })
                &&& (j >= i + 1 ==> n == o)
            } by {}
        }
        i = i + 1;
    }
    Ok(())
}

// ----- skills by site -------------------------------------------------------------------------

/// Skills no model step binds resolve App-wide (`unbound`); the rest onto each model step that
/// names them (`bound[i]`), by skill position.
pub fn partition_skills(skills: &[SkillRef], skill_bindings: &[Vec<String>], dag: &DagSpec, step_count: usize) -> (r: (Vec<usize>, Vec<Vec<usize>>))
    ensures
        r.1@.len() == step_count,
        r.0@ == Seq::new(skills@.len() as nat, |s: int| s as usize).filter(|s: usize| model_naming_spec(skill_bindings@, skills@[s as int].name@, dag.steps@).len() == 0),
        forall|i: int| 0 <= i < step_count ==> (#[trigger] r.1@[i])@ == Seq::new(skills@.len() as nat, |s: int| s as usize).filter(|s: usize| model_naming_spec(skill_bindings@, skills@[s as int].name@, dag.steps@).contains(i as usize)),
{
    let ghost all = Seq::new(skills@.len() as nat, |s: int| s as usize);
    let ghost unb = |s: usize| model_naming_spec(skill_bindings@, skills@[s as int].name@, dag.steps@).len() == 0;
    let mut unbound: Vec<usize> = Vec::new();
    let mut bound: Vec<Vec<usize>> = Vec::new();
    let mut b: usize = 0;
    while b < step_count
        invariant
            b <= step_count,
            bound@.len() == b,
            forall|i: int| 0 <= i < b ==> (#[trigger] bound@[i])@.len() == 0,
        decreases step_count - b,
    {
        bound.push(Vec::new());
        b = b + 1;
    }
    let mut s: usize = 0;
    while s < skills.len()
        invariant
            s <= skills.len(),
            all == Seq::new(skills@.len() as nat, |s: int| s as usize),
            bound@.len() == step_count,
            unbound@ == all.take(s as int).filter(|x: usize| model_naming_spec(skill_bindings@, skills@[x as int].name@, dag.steps@).len() == 0),
            forall|i: int| 0 <= i < step_count ==> (#[trigger] bound@[i])@ == all.take(s as int).filter(|x: usize| model_naming_spec(skill_bindings@, skills@[x as int].name@, dag.steps@).contains(i as usize)),
        decreases skills.len() - s,
    {
        let targets = model_steps_naming(skill_bindings, skills[s].name.as_str(), dag);
        proof {
            reveal(Seq::filter);
            assert(all.take(s + 1).drop_last() == all.take(s as int));
            assert(all.take(s + 1).last() == s);
        }
        if targets.len() == 0 {
            unbound.push(s);
            proof {
                assert forall|i: int| 0 <= i < step_count implies (#[trigger] bound@[i])@ == all.take(s + 1).filter(|x: usize| model_naming_spec(skill_bindings@, skills@[x as int].name@, dag.steps@).contains(i as usize)) by {
                    assert(!targets@.contains(i as usize));
                }
            }
        } else {
            let ghost before = bound@;
            let mut t: usize = 0;
            while t < step_count
                invariant
                    t <= step_count,
                    bound@.len() == step_count,
                    targets@ == model_naming_spec(skill_bindings@, skills@[s as int].name@, dag.steps@),
                    forall|i: int| 0 <= i < t ==> (#[trigger] bound@[i])@ == (if targets@.contains(i as usize) { before[i]@.push(s) } else { before[i]@ }),
                    forall|i: int| t <= i < step_count ==> #[trigger] bound@[i] == before[i],
                decreases step_count - t,
            {
                let mut hit = false;
                let mut q: usize = 0;
                while q < targets.len()
                    invariant
                        q <= targets.len(),
                        hit <==> exists|x: int| 0 <= x < q && targets@[x] == t,
                    decreases targets.len() - q,
                {
                    if targets[q] == t {
                        hit = true;
                    }
                    q = q + 1;
                }
                if hit {
                    let mut v = bound.remove(t);
                    v.push(s);
                    bound.insert(t, v);
                }
                proof {
                    assert(hit == targets@.contains(t));
                    assert forall|i: int| 0 <= i < t + 1 implies (#[trigger] bound@[i])@ == (if targets@.contains(i as usize) { before[i]@.push(s) } else { before[i]@ }) by {}
                    assert forall|i: int| t + 1 <= i < step_count implies #[trigger] bound@[i] == before[i] by {}
                }
                t = t + 1;
            }
        }
        s = s + 1;
    }
    assert(all.take(skills.len() as int) == all);
    (unbound, bound)
}

// ----- the approval posture -------------------------------------------------------------------

/// Stamps the per-run approval requirement onto the ENTRY agentic step's configuration
/// (`key` = `"true"`); `false`, or no entry step, changes nothing.
pub fn stamp_require_approval(dag: &mut DagSpec, require_approval: bool, key: &str)
    requires
        dag_wf(old(dag).steps@),
    ensures
        dag_wf(final(dag).steps@),
        final(dag).edges@ == old(dag).edges@,
        final(dag).steps@.len() == old(dag).steps@.len(),
        !require_approval || !has_entry(old(dag).steps@, old(dag).edges@) ==> final(dag).steps@ == old(dag).steps@,
        forall|i: int| #[trigger] is_entry(old(dag).steps@, old(dag).edges@, i) && require_approval ==> {
            &&& forall|j: int| 0 <= j < old(dag).steps@.len() && j != i ==> #[trigger] final(dag).steps@[j] == old(dag).steps@[j]
            &&& final(dag).steps@[i].params@ == old(dag).steps@[i].params@.insert(key@, "true"@)
            &&& final(dag).steps@[i].tool_contract == old(dag).steps@[i].tool_contract
            &&& final(dag).steps@[i].prompt == old(dag).steps@[i].prompt
        },
{
    if !require_approval {
        return;
    }
    match entry_agentic_step_index(dag) {
        None => {},
        Some(i) => {
            proof { lemma_entry_unique(dag.steps@, dag.edges@, i as int); }
            let ghost old_steps = dag.steps@;
            let mut step = dag.steps.remove(i);
            assert(step == old_steps[i as int]);
            step.params.insert(String::from_str(key), String::from_str("true"));
            dag.steps.insert(i, step);
            proof {
                assert forall|j: int| 0 <= j < dag.steps@.len() implies (#[trigger] dag.steps@[j]).tool_contract.wf() && dag.steps@[j].params.wf() by {
                    if j != i { assert(dag.steps@[j] == old_steps[j]); }
                }
                assert forall|j: int| 0 <= j < old_steps.len() && j != i implies #[trigger] dag.steps@[j] == old_steps[j] by {}
            }
        },
    }
}

// ----- the caller's registry ------------------------------------------------------------------

/// The caller's registered connections as the scope resolution reads them: the set of their
/// credential names, and each transport endpoint's credential (empty when it carries none; a
/// later connection at the same endpoint wins).
pub fn registry_views(registered: &[(String, Option<String>)]) -> (r: (StrSet, StrMap))
    ensures
        r.0.wf() && r.1.wf(),
        r.0@ == provided_set(provided_view(registered@)),
        r.1@ == endpoint_map(registered@),
{
    let ghost pv = provided_view(registered@);
    let mut creds = StrSet::new();
    let mut eps = StrMap::new();
    let mut i: usize = 0;
    while i < registered.len()
        invariant
            i <= registered.len(),
            pv == provided_view(registered@),
            creds.wf() && eps.wf(),
            creds@ == provided_set(pv.take(i as int)),
            eps@ == endpoint_map(registered@.take(i as int)),
        decreases registered.len() - i,
    {
        let ghost before = creds@;
        let c: String = match &registered[i].1 {
            Some(x) => { creds.insert(x.as_str()); x.clone() },
            None => String::new(),
        };
        eps.insert(registered[i].0.clone(), c);
        proof {
            let t = pv.take(i as int);
            let t1 = pv.take(i + 1);
            assert(t1 == t.push(pv[i as int]));
            assert forall|x: Seq<char>| #[trigger] creds@.contains(x) <==> provided_set(t1).contains(x) by {
                if provided_set(t).contains(x) {
                    let k = choose|k: int| 0 <= k < t.len() && #[trigger] t[k].1 == Some(x);
                    assert(t1[k] == t[k]);
                }
                if provided_set(t1).contains(x) {
                    let k = choose|k: int| 0 <= k < t1.len() && #[trigger] t1[k].1 == Some(x);
                    if k < i { assert(t[k] == t1[k]); }
                }
                if pv[i as int].1 == Some(x) {
                    assert(t1[i as int].1 == Some(x));
                }
            }
            assert(creds@ =~= provided_set(t1));
            assert(registered@.take(i + 1).drop_last() == registered@.take(i as int));
            assert(registered@.take(i + 1).last() == registered@[i as int]);
        }
        i = i + 1;
    }
    assert(registered@.take(registered.len() as int) == registered@);
    assert(pv.take(registered.len() as int) == pv);
    (creds, eps)
}

/// Each endpoint's credential (empty for none), a later entry overriding an earlier one.
pub open spec fn endpoint_map(registered: Seq<(String, Option<String>)>) -> Map<Seq<char>, Seq<char>>
    decreases registered.len(),
{
    if registered.len() == 0 {
        Map::empty()
    } else {
        let e = registered.last();
        endpoint_map(registered.drop_last()).insert(e.0@, match e.1 { Some(c) => c@, None => Seq::empty() })
    }
}

// ----- grounding -------------------------------------------------------------------------------

pub open spec fn not_ingested_message(name: Seq<char>) -> Seq<char> {
    "app grounds on dataset "@ + crate::text::debug_str(name) + " but no such dataset is ingested; run `kx datasets ingest "@
        + name + " \u{2026}` first, then re-run"@
}

/// The first resolved dataset that is not ingested, if any.
pub open spec fn first_missing_dataset(resolved: Seq<String>, available: Set<Seq<char>>) -> Option<int> {
    if exists|k: int| 0 <= k < resolved.len() && !available.contains(#[trigger] resolved[k]@) {
        Some(choose|k: int| 0 <= k < resolved.len() && !available.contains(#[trigger] resolved[k]@)
            && forall|j: int| 0 <= j < k ==> available.contains(#[trigger] resolved[j]@))
    } else {
        None
    }
}

/// The datasets no step names (they ground the entry step), in order.
pub open spec fn app_wide_grounding(resolved: Seq<String>, targets: Seq<Vec<usize>>) -> Seq<Seq<char>>
    decreases resolved.len(),
{
    if resolved.len() == 0 {
        Seq::empty()
    } else {
        let prev = app_wide_grounding(resolved.drop_last(), targets.drop_last());
        if targets.last()@.len() == 0 { prev.push(resolved.last()@) } else { prev }
    }
}

/// The datasets step `j`'s own bindings ground it on, in order (once per naming).
pub open spec fn step_grounding(resolved: Seq<String>, targets: Seq<Vec<usize>>, j: usize) -> Seq<Seq<char>>
    decreases resolved.len(),
{
    if resolved.len() == 0 {
        Seq::empty()
    } else {
        let prev = step_grounding(resolved.drop_last(), targets.drop_last(), j);
        prev + copies(hits(targets.last()@, j), resolved.last()@)
    }
}

/// How often `j` occurs in `t`.
pub open spec fn hits(t: Seq<usize>, j: usize) -> nat {
    t.filter(|x: usize| x == j).len()
}

/// `n` copies of `s`.
pub open spec fn copies(n: nat, s: Seq<char>) -> Seq<Seq<char>> {
    Seq::new(n, |_i: int| s)
}

proof fn lemma_hits_push(t: Seq<usize>, v: usize, j: usize)
    ensures
        hits(t.push(v), j) == hits(t, j) + (if v == j { 1nat } else { 0nat }),
{
    reveal(Seq::filter);
    assert(t.push(v).drop_last() == t);
}

pub open spec fn names_view(v: Seq<String>) -> Seq<Seq<char>> {
    v.map_values(|s: String| s@)
}

/// Where each resolved dataset grounds: every name must be ingested (else the run is refused
/// naming the first that is not); those no step names ground the entry step, the others each
/// step that names them (`targets[k]`, the steps naming `resolved[k]`).
pub fn dataset_grounding_plan(resolved: &[String], targets: &[Vec<usize>], available: &StrSet, step_count: usize) -> (r: Result<(Vec<String>, Vec<Vec<String>>), AppRunError>)
    requires
        resolved.len() == targets.len(),
        available.wf(),
    ensures
        match first_missing_dataset(resolved@, available@) {
            Some(k) => r matches Err(AppRunError::InvalidArgs(m)) && m@ == not_ingested_message(resolved@[k]@),
            None => r matches Ok((app, per)) && names_view(app@) == app_wide_grounding(resolved@, targets@)
                && per@.len() == step_count
                && forall|j: int| 0 <= j < step_count ==> names_view((#[trigger] per@[j])@) == step_grounding(resolved@, targets@, j as usize),
        },
{
    let mut k: usize = 0;
    while k < resolved.len()
        invariant
            k <= resolved.len(),
            available.wf(),
            forall|j: int| 0 <= j < k ==> available@.contains(#[trigger] resolved@[j]@),
        decreases resolved.len() - k,
    {
        if !available.contains(resolved[k].as_str()) {
            proof {
                let c = choose|c: int| 0 <= c < resolved@.len() && !available@.contains(#[trigger] resolved@[c]@)
                    && forall|j: int| 0 <= j < c ==> available@.contains(#[trigger] resolved@[j]@);
                assert(!available@.contains(resolved@[k as int]@));
                if c < k { assert(available@.contains(resolved@[c]@)); }
                if c > k { assert(available@.contains(resolved@[k as int]@)); }
            }
            let mut m = String::from_str("app grounds on dataset ");
            let q = crate::text::debug_quoted(resolved[k].as_str());
            push_str(&mut m, q.as_str());
            push_str(&mut m, " but no such dataset is ingested; run `kx datasets ingest ");
            push_str(&mut m, resolved[k].as_str());
            push_str(&mut m, " \u{2026}` first, then re-run");
            return Err(AppRunError::InvalidArgs(m));
        }
        k = k + 1;
    }
    let mut app: Vec<String> = Vec::new();
    let mut per: Vec<Vec<String>> = Vec::new();
    let mut j: usize = 0;
    while j < step_count
        invariant
            j <= step_count,
            per@.len() == j,
            forall|q: int| 0 <= q < j ==> (#[trigger] per@[q])@.len() == 0,
        decreases step_count - j,
    {
        per.push(Vec::new());
        j = j + 1;
    }
    let mut i: usize = 0;
    while i < resolved.len()
        invariant
            i <= resolved.len(),
            resolved.len() == targets.len(),
            per@.len() == step_count,
            names_view(app@) == app_wide_grounding(resolved@.take(i as int), targets@.take(i as int)),
            forall|q: int| 0 <= q < step_count ==> names_view((#[trigger] per@[q])@) == step_grounding(resolved@.take(i as int), targets@.take(i as int), q as usize),
        decreases resolved.len() - i,
    {
        let ghost r1 = resolved@.take(i + 1);
        let ghost t1 = targets@.take(i + 1);
        proof {
            assert(r1.drop_last() == resolved@.take(i as int));
            assert(t1.drop_last() == targets@.take(i as int));
            assert(r1.last() == resolved@[i as int]);
            assert(t1.last() == targets@[i as int]);
        }
        let ts = &targets[i];
        if ts.len() == 0 {
            let ghost before = app@;
            app.push(resolved[i].clone());
            assert(names_view(app@) =~= names_view(before).push(resolved@[i as int]@));
        }
        let mut q: usize = 0;
        while q < ts.len()
            invariant
                q <= ts.len(),
                i < resolved.len(),
                resolved.len() == targets.len(),
                ts@ == targets@[i as int]@,
                per@.len() == step_count,
                r1 == resolved@.take(i + 1),
                t1 == targets@.take(i + 1),
                forall|x: int| 0 <= x < step_count ==> names_view((#[trigger] per@[x])@) == step_grounding(resolved@.take(i as int), targets@.take(i as int), x as usize)
                    + copies(hits(ts@.take(q as int), x as usize), resolved@[i as int]@),
            decreases ts.len() - q,
        {
            let x = ts[q];
            proof {
                assert(ts@.take(q + 1) == ts@.take(q as int).push(x));
                assert forall|y: usize| true implies hits(ts@.take(q + 1), y) == hits(ts@.take(q as int), y) + (if x == y { 1nat } else { 0nat }) by {
                    lemma_hits_push(ts@.take(q as int), x, y);
                }
            }
            if x < step_count {
                let ghost before = per@;
                let mut v = per.remove(x);
                v.push(resolved[i].clone());
                per.insert(x, v);
                proof {
                    assert forall|y: int| 0 <= y < step_count implies names_view((#[trigger] per@[y])@) == step_grounding(resolved@.take(i as int), targets@.take(i as int), y as usize)
                        + copies(hits(ts@.take(q + 1), y as usize), resolved@[i as int]@) by {
                        if y == x {
                            assert(names_view(per@[y]@) =~= names_view(before[y]@).push(resolved@[i as int]@));
                            let n0 = hits(ts@.take(q as int), y as usize);
                            assert(copies(n0 + 1, resolved@[i as int]@) =~= copies(n0, resolved@[i as int]@).push(resolved@[i as int]@));
                        } else {
                            assert(per@[y] == before[y]);
                        }
                    }
                }
            } else {
                proof {
                    assert forall|y: int| 0 <= y < step_count implies names_view((#[trigger] per@[y])@) == step_grounding(resolved@.take(i as int), targets@.take(i as int), y as usize)
                        + copies(hits(ts@.take(q + 1), y as usize), resolved@[i as int]@) by {
                        assert(x != y as usize);
                    }
                }
            }
            q = q + 1;
        }
        proof {
            assert(ts@.take(ts@.len() as int) == ts@);
            assert forall|y: int| 0 <= y < step_count implies names_view((#[trigger] per@[y])@) == step_grounding(r1, t1, y as usize) by {
                assert(step_grounding(r1, t1, y as usize) == step_grounding(resolved@.take(i as int), targets@.take(i as int), y as usize)
                    + copies(hits(ts@, y as usize), resolved@[i as int]@));
            }
        }
        i = i + 1;
    }
    proof {
        assert(resolved@.take(resolved.len() as int) == resolved@);
        assert(targets@.take(targets.len() as int) == targets@);
    }
    Ok((app, per))
}

/// `retrieve@1`, the tool a grounded step is granted.
pub open spec fn retrieve_grant() -> Map<Seq<char>, Seq<char>> {
    Map::<Seq<char>, Seq<char>>::empty().insert("retrieve"@, "1"@)
}

/// A prompt steered to ground on `names`.
pub open spec fn steered(p: Seq<char>, names: Seq<Seq<char>>) -> Seq<char> {
    trim(p + "\n\n"@ + grounding_directive(names))
}

/// Step `o` grounded into `n`: the entry step (`entry`) by the App-wide datasets, then by its
/// own; each grounding grants `retrieve@1` (an authored version wins) and steers the prompt.
pub open spec fn grounded(o: StepSpec, entry: bool, app: Seq<Seq<char>>, own: Seq<Seq<char>>, n: StepSpec) -> bool {
    let e = entry && app.len() > 0;
    let p1 = if e { steered(o.prompt@, app) } else { o.prompt@ };
    &&& n == (StepSpec { tool_contract: n.tool_contract, prompt: n.prompt, ..o })
    &&& n.tool_contract@ == (if e || own.len() > 0 { retrieve_grant().union_prefer_right(o.tool_contract@) } else { o.tool_contract@ })
    &&& n.prompt@ == (if own.len() > 0 { steered(p1, own) } else { p1 })
}

/// Step `o` after the App-wide grounding (which touches only the entry step).
pub open spec fn app_grounded(o: StepSpec, entry: bool, app: Seq<Seq<char>>, n: StepSpec) -> bool {
    let e = entry && app.len() > 0;
    &&& n == (StepSpec { tool_contract: n.tool_contract, prompt: n.prompt, ..o })
    &&& n.tool_contract@ == (if e { retrieve_grant().union_prefer_right(o.tool_contract@) } else { o.tool_contract@ })
    &&& n.prompt@ == (if e { steered(o.prompt@, app) } else { o.prompt@ })
}

proof fn lemma_same_entries(a: Seq<StepSpec>, b: Seq<StepSpec>, edges: Seq<EdgeSpec>)
    requires
        a.len() == b.len(),
        forall|j: int| 0 <= j < a.len() ==> is_model(#[trigger] a[j]) == is_model(b[j]),
    ensures
        forall|i: int| #[trigger] is_entry(a, edges, i) == is_entry(b, edges, i),
{
    assert forall|i: int| #[trigger] root_model(a, edges, i) == root_model(b, edges, i) by {}
    assert forall|i: int| #[trigger] is_entry(a, edges, i) == is_entry(b, edges, i) by {
        if is_entry(a, edges, i) {
            assert forall|j: int| 0 <= j < i implies !#[trigger] root_model(b, edges, j) by {
                assert(root_model(a, edges, j) == root_model(b, edges, j));
            }
        }
        if is_entry(b, edges, i) {
            assert forall|j: int| 0 <= j < i implies !#[trigger] root_model(a, edges, j) by {
                assert(root_model(a, edges, j) == root_model(b, edges, j));
            }
        }
    }
}

/// Grounds the blueprint: the App-wide datasets onto the entry step, then each step's own
/// datasets onto it (`per_step[j]`), each granting `retrieve@1` and steering the prompt.
pub fn ground_steps(dag: &mut DagSpec, app_wide: &[String], per_step: &[Vec<String>])
    requires
        dag_wf(old(dag).steps@),
        per_step.len() == old(dag).steps@.len(),
    ensures
        dag_wf(final(dag).steps@),
        final(dag).edges@ == old(dag).edges@,
        final(dag).steps@.len() == old(dag).steps@.len(),
        forall|j: int| 0 <= j < old(dag).steps@.len() ==> grounded(old(dag).steps@[j], is_entry(old(dag).steps@, old(dag).edges@, j),
            names_view(app_wide@), names_view(per_step@[j]@), #[trigger] final(dag).steps@[j]),
{
    let mut granted = StrMap::new();
    granted.insert(String::from_str("retrieve"), String::from_str("1"));
    assert(granted@ == retrieve_grant());
    let ghost s0 = dag.steps@;
    let ghost edges = dag.edges@;
    let ghost app = names_view(app_wide@);
    if app_wide.len() > 0 {
        fold_skill_tools(dag, &granted);
        let ghost s1 = dag.steps@;
        proof {
            assert forall|j: int| 0 <= j < s0.len() implies is_model(#[trigger] s0[j]) == is_model(s1[j]) by {
                if is_entry(s0, edges, j) {
                } else if has_entry(s0, edges) {
                    let e = choose|e: int| #[trigger] is_entry(s0, edges, e);
                    if j == e {} else { assert(s1[j] == s0[j]); }
                }
            }
            lemma_same_entries(s0, s1, edges);
        }
        steer_dataset_prompt(dag, app_wide);
        assert(app_wide@.map_values(|s: String| s@) == app);
    }
    let ghost s2 = dag.steps@;
    proof {
        assert forall|j: int| 0 <= j < s0.len() implies app_grounded(s0[j], is_entry(s0, edges, j), app, #[trigger] s2[j]) by {
            if app.len() > 0 && has_entry(s0, edges) {
                let e = choose|e: int| #[trigger] is_entry(s0, edges, e);
                lemma_entry_unique(s0, edges, e);
                if j != e {
                    assert(!is_entry(s0, edges, j));
                }
            }
        }
    }
    let mut idx: usize = 0;
    while idx < per_step.len()
        invariant
            idx <= per_step.len(),
            per_step.len() == s0.len(),
            dag.steps@.len() == s0.len(),
            dag.edges@ == edges,
            edges == old(dag).edges@,
            s0 == old(dag).steps@,
            app == names_view(app_wide@),
            dag_wf(dag.steps@),
            granted.wf(),
            granted@ == retrieve_grant(),
            forall|j: int| 0 <= j < s0.len() ==> app_grounded(s0[j], is_entry(s0, edges, j), app, #[trigger] s2[j]),
            forall|j: int| 0 <= j < idx ==> grounded(s0[j], is_entry(s0, edges, j), app, names_view(per_step@[j]@), #[trigger] dag.steps@[j]),
            forall|j: int| idx <= j < s0.len() ==> #[trigger] dag.steps@[j] == s2[j],
        decreases per_step.len() - idx,
    {
        if per_step[idx].len() > 0 {
            let ghost before = dag.steps@;
            fold_step_tools(dag, idx, &granted);
            steer_step_dataset_prompt(dag, idx, per_step[idx].as_slice());
            proof {
                let j = idx as int;
                let c0 = s0[j].tool_contract@;
                assert(retrieve_grant().union_prefer_right(retrieve_grant().union_prefer_right(c0)) =~= retrieve_grant().union_prefer_right(c0));
                assert(per_step@[j]@.map_values(|s: String| s@) == names_view(per_step@[j]@));
                assert forall|q: int| 0 <= q < idx implies grounded(s0[q], is_entry(s0, edges, q), app, names_view(per_step@[q]@), #[trigger] dag.steps@[q]) by {
                    assert(dag.steps@[q] == before[q]);
                }
                assert forall|q: int| idx + 1 <= q < s0.len() implies #[trigger] dag.steps@[q] == s2[q] by {
                    assert(dag.steps@[q] == before[q]);
                }
            }
        } else {
            proof {
                assert(names_view(per_step@[idx as int]@).len() == 0);
            }
        }
        idx = idx + 1;
    }
}

/// Grounds the blueprint on its resolved datasets (`targets[k]`: the steps naming
/// `resolved[k]`): refused, the blueprint untouched, when one is not ingested; otherwise the
/// ones no step names ground the entry step and the rest each step that names them.
pub fn ground_on_datasets(dag: &mut DagSpec, resolved: &[String], targets: &[Vec<usize>], available: &StrSet) -> (r: Result<(), AppRunError>)
    requires
        dag_wf(old(dag).steps@),
        resolved.len() == targets.len(),
        available.wf(),
    ensures
        dag_wf(final(dag).steps@),
        final(dag).edges@ == old(dag).edges@,
        final(dag).steps@.len() == old(dag).steps@.len(),
        match first_missing_dataset(resolved@, available@) {
            Some(k) => r matches Err(AppRunError::InvalidArgs(m)) && m@ == not_ingested_message(resolved@[k]@)
                && final(dag).steps@ == old(dag).steps@,
            None => r is Ok && forall|j: int| 0 <= j < old(dag).steps@.len() ==> grounded(old(dag).steps@[j],
                is_entry(old(dag).steps@, old(dag).edges@, j), app_wide_grounding(resolved@, targets@),
                step_grounding(resolved@, targets@, j as usize), #[trigger] final(dag).steps@[j]),
        },
{
    let n = dag.steps.len();
    match dataset_grounding_plan(resolved, targets, available, n) {
        Err(e) => Err(e),
        Ok((app, per)) => {
            ground_steps(dag, app.as_slice(), per.as_slice());
            Ok(())
        },
    }
}

// ----- laws -----------------------------------------------------------------------------------

proof fn lemma_names_it_ignores_case(named: Seq<String>, a: Seq<char>, b: Seq<char>)
    requires
        eq_ignore_case(a, b),
    ensures
        names_it(named, a) == names_it(named, b),
{
    if names_it(named, a) {
        let k = choose|k: int| 0 <= k < named.len() && eq_ignore_case(#[trigger] named[k]@, a);
        assert(eq_ignore_case(named[k]@, b));
    }
    if names_it(named, b) {
        let k = choose|k: int| 0 <= k < named.len() && eq_ignore_case(#[trigger] named[k]@, b);
        assert(eq_ignore_case(named[k]@, a));
    }
}

proof fn lemma_naming_upto_ignores_case(per_step: Seq<Vec<String>>, a: Seq<char>, b: Seq<char>, n: int)
    requires
        eq_ignore_case(a, b),
    ensures
        naming_upto(per_step, a, n) == naming_upto(per_step, b, n),
    decreases n,
{
    if n > 0 {
        lemma_naming_upto_ignores_case(per_step, a, b, n - 1);
        lemma_names_it_ignores_case(per_step[n - 1]@, a, b);
    }
}

/// Binding is case-insensitive: a capability name written two ways (differing only in ASCII
/// case) is bound on exactly the same steps, never split into two bindings.
pub proof fn law_naming_ignores_case(per_step: Seq<Vec<String>>, a: Seq<char>, b: Seq<char>)
    requires
        eq_ignore_case(a, b),
    ensures
        steps_naming_spec(per_step, a) == steps_naming_spec(per_step, b),
{
    lemma_naming_upto_ignores_case(per_step, a, b, per_step.len() as int);
}

/// Per-step binding only ever narrows the App's secret scope: whatever a step's own bound
/// connections and the unbound ones provide, narrowed by the App's scope, lies within what all
/// referenced connections provide narrowed the same way; and a step that binds no connection
/// receives only what no step binds.
pub proof fn law_step_scope_within_app_scope(pb: Seq<(Seq<char>, Option<Seq<char>>)>, bindings: Seq<Vec<String>>, names: Seq<Seq<char>>, i: int)
    ensures
        narrowed(unbound_creds(pb, bindings).union(bound_creds(pb, bindings, i)), names).subset_of(narrowed(provided_set(pb), names)),
        0 <= i < bindings.len() && bindings[i]@.len() == 0 ==> bound_creds(pb, bindings, i) == Set::<Seq<char>>::empty(),
{
    let u = unbound_creds(pb, bindings).union(bound_creds(pb, bindings, i));
    assert forall|c: Seq<char>| #[trigger] u.contains(c) implies provided_set(pb).contains(c) by {
        if unbound_creds(pb, bindings).contains(c) {
            let k = choose|k: int| 0 <= k < pb.len() && #[trigger] pb[k].1 == Some(c) && steps_naming_spec(bindings, pb[k].0).len() == 0;
            assert(pb[k].1 == Some(c));
        } else {
            let k = choose|k: int| 0 <= k < pb.len() && #[trigger] pb[k].1 == Some(c) && 0 <= i < bindings.len() && names_it(bindings[i]@, pb[k].0);
            assert(pb[k].1 == Some(c));
        }
    }
    if 0 <= i < bindings.len() && bindings[i]@.len() == 0 {
        assert(bound_creds(pb, bindings, i) =~= Set::<Seq<char>>::empty());
    }
}

/// An App that binds no dataset to any step grounds exactly as before per-step binding: every
/// dataset on the entry step, and no step on datasets of its own.
pub proof fn law_unbound_datasets_ground_the_entry_only(resolved: Seq<String>, targets: Seq<Vec<usize>>, j: usize)
    requires
        resolved.len() == targets.len(),
        forall|k: int| 0 <= k < targets.len() ==> (#[trigger] targets[k])@.len() == 0,
    ensures
        step_grounding(resolved, targets, j).len() == 0,
        app_wide_grounding(resolved, targets) == names_view(resolved),
    decreases resolved.len(),
{
    if resolved.len() > 0 {
        let r0 = resolved.drop_last();
        let t0 = targets.drop_last();
        assert forall|k: int| 0 <= k < t0.len() implies (#[trigger] t0[k])@.len() == 0 by {
            assert(t0[k] == targets[k]);
        }
        law_unbound_datasets_ground_the_entry_only(r0, t0, j);
        assert(targets.last()@.len() == 0);
        assert(targets.last()@.filter(|x: usize| x == j) =~= Seq::<usize>::empty()) by {
            reveal(Seq::filter);
        }
        assert(copies(0, resolved.last()@) =~= Seq::<Seq<char>>::empty());
        assert(names_view(resolved) =~= names_view(r0).push(resolved.last()@));
    }
}

/// An App that inherits the caller's tool ceiling never reaches past it: every tool of the
/// inherited wish, at the version the wish holds, is a grant of the ceiling.
pub proof fn law_inherited_wish_within_ceiling(ceiling: Seq<(String, String)>)
    ensures
        forall|k: Seq<char>| #[trigger] pairs_map(ceiling).contains_key(k) ==>
            exists|i: int| 0 <= i < ceiling.len() && ceiling[i].0@ == k && ceiling[i].1@ == pairs_map(ceiling)[k],
    decreases ceiling.len(),
{
    if ceiling.len() > 0 {
        let t = ceiling.drop_last();
        law_inherited_wish_within_ceiling(t);
        assert forall|k: Seq<char>| #[trigger] pairs_map(ceiling).contains_key(k) implies
            exists|i: int| 0 <= i < ceiling.len() && ceiling[i].0@ == k && ceiling[i].1@ == pairs_map(ceiling)[k] by {
            if k == ceiling.last().0@ {
                assert(ceiling[ceiling.len() - 1].0@ == k);
            } else {
                assert(pairs_map(t).contains_key(k));
                let i = choose|i: int| 0 <= i < t.len() && t[i].0@ == k && t[i].1@ == pairs_map(t)[k];
                assert(ceiling[i] == t[i]);
            }
        }
    }
}

/// An App that inherits the caller's tool ceiling reaches exactly that ceiling: when the
/// ceiling grants each tool at one version (a grant may be listed more than once), the
/// inherited wish holds every ceiling grant and nothing else.
pub proof fn law_inherited_wish_is_the_ceiling(ceiling: Seq<(String, String)>)
    requires
        forall|i: int, j: int| 0 <= i < ceiling.len() && 0 <= j < ceiling.len() && (#[trigger] ceiling[i]).0@ == (#[trigger] ceiling[j]).0@
            ==> ceiling[i].1@ == ceiling[j].1@,
    ensures
        forall|i: int| 0 <= i < ceiling.len() ==> pairs_map(ceiling).contains_key((#[trigger] ceiling[i]).0@)
            && pairs_map(ceiling)[ceiling[i].0@] == ceiling[i].1@,
        forall|k: Seq<char>| #[trigger] pairs_map(ceiling).contains_key(k) ==>
            exists|i: int| 0 <= i < ceiling.len() && ceiling[i].0@ == k && ceiling[i].1@ == pairs_map(ceiling)[k],
    decreases ceiling.len(),
{
    law_inherited_wish_within_ceiling(ceiling);
    if ceiling.len() > 0 {
        let t = ceiling.drop_last();
        assert forall|i: int, j: int| 0 <= i < t.len() && 0 <= j < t.len() && (#[trigger] t[i]).0@ == (#[trigger] t[j]).0@
            implies t[i].1@ == t[j].1@ by {
            assert(t[i] == ceiling[i] && t[j] == ceiling[j]);
        }
        law_inherited_wish_is_the_ceiling(t);
        assert forall|i: int| 0 <= i < ceiling.len() implies pairs_map(ceiling).contains_key((#[trigger] ceiling[i]).0@)
            && pairs_map(ceiling)[ceiling[i].0@] == ceiling[i].1@ by {
            let n = ceiling.len() - 1;
            if i < n {
                assert(ceiling[i] == t[i]);
                if ceiling[i].0@ == ceiling[n].0@ {
                    assert(ceiling[i].1@ == ceiling[n].1@);
                }
            }
        }
    }
}

} // verus!
