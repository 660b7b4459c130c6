//! An App's context rail: the labeled content items (skill instructions, declared context,
//! prompts, rules, memory, raw steering refs, and the App's own project files) that ride into
//! the entry step's prompt. Every item must already be in the content store — a run never
//! starts on partial context — and the project files are taken in path order within a byte
//! budget that refuses rather than truncates.
use vstd::prelude::*;
use vstd::string::*;
use vstd::utf8::*;

use crate::assemble::ContextItemRef;
use crate::bindings::{AppRunError, SkillRef};
use crate::catalog::{distinct_paths, law_path_sorted_ignores_input_order, path_sorted, sort_items, BranchItem};
use crate::text::{
    all_hex, chars_of, chars_start_with, debug_quoted, debug_str, decimal, find_last, hex_decode_spec,
    hex_to_32, last_index_of, push_decimal, push_str, starts_with, string_of, sub_string,
};

verus! {

// ----- content refs ---------------------------------------------------------------------------

/// The 32 bytes a 64-hex content ref names, if it is one.
pub open spec fn decode_ref(s: Seq<char>) -> Option<Seq<u8>> {
    let b = encode_utf8(s);
    if b.len() == 64 && all_hex(b) { Some(hex_decode_spec(b)) } else { None }
}

/// Whether the content store holds `r` (`present` lists the refs it reported held).
pub open spec fn held(present: Seq<[u8; 32]>, r: Seq<u8>) -> bool {
    exists|i: int| 0 <= i < present.len() && (#[trigger] present[i])@ == r
}

/// The first twelve characters of a ref (all of it when shorter), as shown in messages.
pub open spec fn ref_head(s: Seq<char>) -> Seq<char> {
    s.take(if s.len() < 12 { s.len() as int } else { 12 })
}

pub(crate) fn held_in(present: &[[u8; 32]], r: &[u8; 32]) -> (b: bool)
    ensures
        b == held(present@, r@),
{
    let mut i: usize = 0;
    while i < present.len()
        invariant
            i <= present.len(),
            forall|j: int| 0 <= j < i ==> (#[trigger] present@[j])@ != r@,
        decreases present.len() - i,
    {
        let mut same = true;
        let mut k: usize = 0;
        while k < 32
            invariant
                k <= 32,
                i < present.len(),
                same <==> forall|q: int| 0 <= q < k ==> present@[i as int]@[q] == r@[q],
            decreases 32 - k,
        {
            if present[i][k] != r[k] {
                same = false;
            }
            k = k + 1;
        }
        if same {
            assert(present@[i as int]@ =~= r@);
            return true;
        }
        i = i + 1;
    }
    false
}

fn head_of(s: &str) -> (r: String)
    ensures
        r@ == ref_head(s@),
{
    let cs = chars_of(s);
    let n = if cs.len() < 12 { cs.len() } else { 12 };
    let out = sub_string(cs.as_slice(), 0, n);
    assert(s@.subrange(0, n as int) == ref_head(s@));
    out
}

fn decode(s: &str) -> (r: Option<[u8; 32]>)
    ensures
        match r {
            Some(a) => decode_ref(s@) == Some(a@),
            None => decode_ref(s@) is None,
        },
{
    hex_to_32(s)
}

// ----- the declared rail ----------------------------------------------------------------------

/// A named content artifact the App references.
pub struct ArtifactRef {
    pub name: String,
    /// The 64-hex content ref of its body.
    pub content_ref: String,
}

/// The declared knowledge rail of an App.
pub struct RailRefs {
    pub context: Vec<ArtifactRef>,
    pub prompts: Vec<ArtifactRef>,
    pub rules: Vec<ArtifactRef>,
    pub memory: Vec<ArtifactRef>,
    /// Raw 64-hex refs from the steering context (no name).
    pub context_refs: Vec<String>,
}

/// One rail entry as plain values: `(field, label, content ref)`.
pub type RailEntry = (Seq<char>, Seq<char>, Seq<char>);

pub open spec fn artifact_entries(arts: Seq<ArtifactRef>, prefix: Seq<char>) -> Seq<RailEntry> {
    arts.map_values(|a: ArtifactRef| (prefix, prefix + ":"@ + a.name@, a.content_ref@))
}

pub open spec fn raw_entries(refs: Seq<String>) -> Seq<RailEntry> {
    refs.map_values(|r: String| ("context_ref"@, "ref:"@ + ref_head(r@), r@))
}

/// The rail in order: context, prompts, rules, memory, then the raw steering refs.
pub open spec fn rail_entries(rail: RailRefs) -> Seq<RailEntry> {
    artifact_entries(rail.context@, "context"@) + artifact_entries(rail.prompts@, "prompt"@)
        + artifact_entries(rail.rules@, "rule"@) + artifact_entries(rail.memory@, "memory"@)
        + raw_entries(rail.context_refs@)
}

pub open spec fn not_a_ref_message(field: Seq<char>, r: Seq<char>) -> Seq<char> {
    field + " is not a 64-hex content ref: "@ + debug_str(r)
}

pub open spec fn not_stored_message(field: Seq<char>, r: Seq<char>) -> Seq<char> {
    field + " ("@ + ref_head(r) + "\u{2026}) not found in the content store; upload it first (kx content put / PutContent), then re-run"@
}

/// A labeled item as plain values.
pub open spec fn item_view(it: ContextItemRef) -> (Seq<char>, Seq<u8>) {
    (it.name@, it.content_ref@)
}

pub open spec fn items_view(its: Seq<ContextItemRef>) -> Seq<(Seq<char>, Seq<u8>)> {
    its.map_values(|it: ContextItemRef| item_view(it))
}

/// `prefix` before a successful resolution; a refusal unchanged.
pub open spec fn then_items(prefix: Seq<(Seq<char>, Seq<u8>)>, r: Result<Seq<(Seq<char>, Seq<u8>)>, Seq<char>>) -> Result<Seq<(Seq<char>, Seq<u8>)>, Seq<char>> {
    match r {
        Ok(t) => Ok(prefix + t),
        Err(e) => Err(e),
    }
}

/// Resolve rail entries in order: each must be a 64-hex ref the store holds, else the run is
/// refused (the message, as `InvalidArgs`) at the first that is not.
pub open spec fn resolve_entries(es: Seq<RailEntry>, present: Seq<[u8; 32]>) -> Result<Seq<(Seq<char>, Seq<u8>)>, Seq<char>>
    decreases es.len(),
{
    if es.len() == 0 {
        Ok(Seq::empty())
    } else {
        let (field, label, r) = es[0];
        match decode_ref(r) {
            None => Err(not_a_ref_message(field, r)),
            Some(b) => if !held(present, b) {
                Err(not_stored_message(field, r))
            } else {
                then_items(seq![(label, b)], resolve_entries(es.drop_first(), present))
            },
        }
    }
}

/// The result as plain values: the items, or the `InvalidArgs` message.
pub open spec fn resolved(r: Result<Vec<ContextItemRef>, AppRunError>) -> Result<Seq<(Seq<char>, Seq<u8>)>, Seq<char>> {
    match r {
        Ok(v) => Ok(items_view(v@)),
        Err(AppRunError::InvalidArgs(m)) => Err(m@),
        Err(_) => Err(Seq::empty()),
    }
}

fn push_entries(out: &mut Vec<(String, String, String)>, arts: &[ArtifactRef], prefix: &str)
    ensures
        final(out)@.map_values(|e: (String, String, String)| (e.0@, e.1@, e.2@))
            == old(out)@.map_values(|e: (String, String, String)| (e.0@, e.1@, e.2@)) + artifact_entries(arts@, prefix@),
{
    let ghost start = out@.map_values(|e: (String, String, String)| (e.0@, e.1@, e.2@));
    let mut i: usize = 0;
    while i < arts.len()
        invariant
            i <= arts.len(),
            out@.map_values(|e: (String, String, String)| (e.0@, e.1@, e.2@)) == start + artifact_entries(arts@.take(i as int), prefix@),
        decreases arts.len() - i,
    {
        let ghost before = out@;
        let mut label = String::from_str(prefix);
        push_str(&mut label, ":");
        push_str(&mut label, arts[i].name.as_str());
        out.push((String::from_str(prefix), label, arts[i].content_ref.clone()));
        proof {
            assert(artifact_entries(arts@.take(i + 1), prefix@) =~= artifact_entries(arts@.take(i as int), prefix@).push(artifact_entries(arts@, prefix@)[i as int]));
            assert(out@.map_values(|e: (String, String, String)| (e.0@, e.1@, e.2@)) =~= before.map_values(|e: (String, String, String)| (e.0@, e.1@, e.2@)).push(artifact_entries(arts@, prefix@)[i as int]));
        }
        i = i + 1;
    }
    assert(arts@.take(arts.len() as int) == arts@);
}

fn resolve_all(es: &[(String, String, String)], present: &[[u8; 32]]) -> (r: Result<Vec<ContextItemRef>, AppRunError>)
    ensures
        resolved(r) == resolve_entries(es@.map_values(|e: (String, String, String)| (e.0@, e.1@, e.2@)), present@),
        r is Ok || r matches Err(AppRunError::InvalidArgs(_)),
{
    let ghost ev = es@.map_values(|e: (String, String, String)| (e.0@, e.1@, e.2@));
    let mut out: Vec<ContextItemRef> = Vec::new();
    let mut i: usize = 0;
    assert(ev.skip(0) == ev);
    proof {
        match resolve_entries(ev, present@) {
            Ok(t) => { assert(Seq::<(Seq<char>, Seq<u8>)>::empty() + t == t); },
            Err(_) => {},
        }
    }
    while i < es.len()
        invariant
            i <= es.len(),
            ev == es@.map_values(|e: (String, String, String)| (e.0@, e.1@, e.2@)),
            resolve_entries(ev, present@) == then_items(items_view(out@), resolve_entries(ev.skip(i as int), present@)),
        decreases es.len() - i,
    {
        assert(ev.skip(i as int)[0] == ev[i as int]);
        assert(ev.skip(i as int).drop_first() == ev.skip(i + 1));
        let (field, label, cr) = (&es[i].0, &es[i].1, &es[i].2);
        match decode(cr.as_str()) {
            None => {
                let mut m = String::from_str(field.as_str());
                push_str(&mut m, " is not a 64-hex content ref: ");
                let q = debug_quoted(cr.as_str());
                push_str(&mut m, q.as_str());
                return Err(AppRunError::InvalidArgs(m));
            },
            Some(b) => {
                if !held_in(present, &b) {
                    let mut m = String::from_str(field.as_str());
                    push_str(&mut m, " (");
                    let h = head_of(cr.as_str());
                    push_str(&mut m, h.as_str());
                    push_str(&mut m, "\u{2026}) not found in the content store; upload it first (kx content put / PutContent), then re-run");
                    return Err(AppRunError::InvalidArgs(m));
                }
                let ghost before = items_view(out@);
                out.push(ContextItemRef { name: label.clone(), content_ref: b });
                proof {
                    assert(items_view(out@) =~= before + seq![(label@, b@)]);
                    match resolve_entries(ev.skip(i + 1), present@) {
                        Ok(t) => { assert((before + seq![(label@, b@)]) + t =~= before + (seq![(label@, b@)] + t)); },
                        Err(_) => {},
                    }
                }
            },
        }
        i = i + 1;
    }
    proof {
        assert(ev.skip(es.len() as int).len() == 0);
        assert(items_view(out@) + Seq::<(Seq<char>, Seq<u8>)>::empty() == items_view(out@));
    }
    Ok(out)
}

/// The declared rail resolved into labeled items, in rail order (`context:<name>`,
/// `prompt:<name>`, `rule:<name>`, `memory:<name>`, then `ref:<first 12 hex>` for a raw
/// steering ref); refused at the first entry that is not a 64-hex ref the store holds.
pub fn context_rail_items(rail: &RailRefs, present: &[[u8; 32]]) -> (r: Result<Vec<ContextItemRef>, AppRunError>)
    ensures
        resolved(r) == resolve_entries(rail_entries(*rail), present@),
        r is Ok || r matches Err(AppRunError::InvalidArgs(_)),
{
    let mut es: Vec<(String, String, String)> = Vec::new();
    push_entries(&mut es, rail.context.as_slice(), "context");
    push_entries(&mut es, rail.prompts.as_slice(), "prompt");
    push_entries(&mut es, rail.rules.as_slice(), "rule");
    push_entries(&mut es, rail.memory.as_slice(), "memory");
    let ghost mid = es@.map_values(|e: (String, String, String)| (e.0@, e.1@, e.2@));
    let mut i: usize = 0;
    while i < rail.context_refs.len()
        invariant
            i <= rail.context_refs.len(),
            es@.map_values(|e: (String, String, String)| (e.0@, e.1@, e.2@)) == mid + raw_entries(rail.context_refs@.take(i as int)),
        decreases rail.context_refs.len() - i,
    {
        let ghost before = es@;
        let cr = &rail.context_refs[i];
        let mut label = String::from_str("ref:");
        let h = head_of(cr.as_str());
        push_str(&mut label, h.as_str());
        es.push((String::from_str("context_ref"), label, cr.clone()));
        proof {
            assert(raw_entries(rail.context_refs@.take(i + 1)) =~= raw_entries(rail.context_refs@.take(i as int)).push(raw_entries(rail.context_refs@)[i as int]));
            assert(es@.map_values(|e: (String, String, String)| (e.0@, e.1@, e.2@)) =~= before.map_values(|e: (String, String, String)| (e.0@, e.1@, e.2@)).push(raw_entries(rail.context_refs@)[i as int]));
        }
        i = i + 1;
    }
    assert(rail.context_refs@.take(rail.context_refs.len() as int) == rail.context_refs@);
    assert(es@.map_values(|e: (String, String, String)| (e.0@, e.1@, e.2@)) =~= rail_entries(*rail));
    resolve_all(es.as_slice(), present)
}

// ----- skills ---------------------------------------------------------------------------------

pub open spec fn skill_not_a_ref_message(name: Seq<char>) -> Seq<char> {
    "skill "@ + debug_str(name) + " instructions_ref is not a 64-hex content ref"@
}

pub open spec fn skill_not_stored_message(name: Seq<char>, r: Seq<char>) -> Seq<char> {
    "skill "@ + debug_str(name) + " instructions ("@ + ref_head(r)
        + "\u{2026}) not found in the content store; add the skill body first (kx skills add / PutContent), then re-run"@
}

/// Each skill's instructions as a labeled `skill:<name>` item, in order; refused at the first
/// skill whose instructions ref is not a 64-hex ref the store holds.
pub open spec fn skill_items_spec(skills: Seq<SkillRef>, present: Seq<[u8; 32]>) -> Result<Seq<(Seq<char>, Seq<u8>)>, Seq<char>>
    decreases skills.len(),
{
    if skills.len() == 0 {
        Ok(Seq::empty())
    } else {
        let s = skills[0];
        match decode_ref(s.instructions_ref@) {
            None => Err(skill_not_a_ref_message(s.name@)),
            Some(b) => if !held(present, b) {
                Err(skill_not_stored_message(s.name@, s.instructions_ref@))
            } else {
                then_items(seq![("skill:"@ + s.name@, b)], skill_items_spec(skills.drop_first(), present))
            },
        }
    }
}

/// The skills' instructions as labeled context items (see [`skill_items_spec`]).
pub fn skill_context_items(skills: &[SkillRef], present: &[[u8; 32]]) -> (r: Result<Vec<ContextItemRef>, AppRunError>)
    ensures
        resolved(r) == skill_items_spec(skills@, present@),
        r is Ok || r matches Err(AppRunError::InvalidArgs(_)),
{
    let mut out: Vec<ContextItemRef> = Vec::new();
    let mut i: usize = 0;
    assert(skills@.skip(0) == skills@);
    proof {
        match skill_items_spec(skills@, present@) {
            Ok(t) => { assert(Seq::<(Seq<char>, Seq<u8>)>::empty() + t == t); },
            Err(_) => {},
        }
    }
    while i < skills.len()
        invariant
            i <= skills.len(),
            skill_items_spec(skills@, present@) == then_items(items_view(out@), skill_items_spec(skills@.skip(i as int), present@)),
        decreases skills.len() - i,
    {
        assert(skills@.skip(i as int)[0] == skills@[i as int]);
        assert(skills@.skip(i as int).drop_first() == skills@.skip(i + 1));
        let s = &skills[i];
        match decode(s.instructions_ref.as_str()) {
            None => {
                let mut m = String::from_str("skill ");
                let q = debug_quoted(s.name.as_str());
                push_str(&mut m, q.as_str());
                push_str(&mut m, " instructions_ref is not a 64-hex content ref");
                return Err(AppRunError::InvalidArgs(m));
            },
            Some(b) => {
                if !held_in(present, &b) {
                    let mut m = String::from_str("skill ");
                    let q = debug_quoted(s.name.as_str());
                    push_str(&mut m, q.as_str());
                    push_str(&mut m, " instructions (");
                    let h = head_of(s.instructions_ref.as_str());
                    push_str(&mut m, h.as_str());
                    push_str(&mut m, "\u{2026}) not found in the content store; add the skill body first (kx skills add / PutContent), then re-run");
                    return Err(AppRunError::InvalidArgs(m));
                }
                let ghost before = items_view(out@);
                let mut name = String::from_str("skill:");
                push_str(&mut name, s.name.as_str());
                out.push(ContextItemRef { name, content_ref: b });
                proof {
                    assert(items_view(out@) =~= before + seq![("skill:"@ + s.name@, b@)]);
                    match skill_items_spec(skills@.skip(i + 1), present@) {
                        Ok(t) => { assert((before + seq![("skill:"@ + s.name@, b@)]) + t =~= before + (seq![("skill:"@ + s.name@, b@)] + t)); },
                        Err(_) => {},
                    }
                }
            },
        }
        i = i + 1;
    }
    proof {
        assert(skills@.skip(skills.len() as int).len() == 0);
        assert(items_view(out@) + Seq::<(Seq<char>, Seq<u8>)>::empty() == items_view(out@));
    }
    Ok(out)
}

// ----- the project rail -----------------------------------------------------------------------

/// How an App was authored.
#[derive(Debug, Clone, Copy, PartialEq, Eq, Structural)]
pub enum AppMode {
    /// Its project is documentation: the markdown rides the rail.
    Contextual,
    /// Its project is code: the scaffolded source and configuration ride the rail.
    Codified,
}

/// What follows the last `.` of a path (the whole path when it has none).
pub open spec fn after_last_dot(p: Seq<char>) -> Seq<char> {
    match last_index_of(p, '.') {
        Some(k) => p.skip(k + 1),
        None => p,
    }
}

/// Whether a branch file rides the project rail: never a `.kortecx/` internal file; for a
/// contextual App a `.md` file; for a codified App a file its scaffold may author that the
/// runtime does not itself consume (`codified_allowed`, decided by the codified-scaffold rules).
pub open spec fn rail_path_ok(p: Seq<char>, mode: AppMode, codified_allowed: bool) -> bool {
    !starts_with(p, ".kortecx/"@) && match mode {
        AppMode::Contextual => after_last_dot(p) == "md"@,
        AppMode::Codified => codified_allowed,
    }
}

pub fn is_project_rail_path(path: &str, mode: AppMode, codified_allowed: bool) -> (r: bool)
    ensures
        r == rail_path_ok(path@, mode, codified_allowed),
{
    let cs = chars_of(path);
    let marker = chars_of(".kortecx/");
    if chars_start_with(cs.as_slice(), marker.as_slice()) {
        return false;
    }
    match mode {
        AppMode::Contextual => {
            proof { crate::text::lemma_last_index_of(path@, '.'); }
            let tail = match find_last(cs.as_slice(), '.') {
                Some(k) => sub_string(cs.as_slice(), k + 1, cs.len()),
                None => string_of(cs.as_slice()),
            };
            proof {
                match last_index_of(path@, '.') {
                    Some(k) => { assert(path@.subrange(k + 1, path@.len() as int) == path@.skip(k + 1)); },
                    None => {},
                }
            }
            crate::text::str_eq(tail.as_str(), "md")
        },
        AppMode::Codified => codified_allowed,
    }
}

/// The files of `files` that ride the rail, in input order (`allowed[i]` is the codified
/// decision for `files[i]`).
pub open spec fn rail_files(files: Seq<BranchItem>, mode: AppMode, allowed: Seq<bool>) -> Seq<BranchItem>
    decreases files.len(),
{
    if files.len() == 0 {
        Seq::empty()
    } else {
        let prev = rail_files(files.drop_last(), mode, allowed);
        let i = files.len() - 1;
        if rail_path_ok(files[i].path@, mode, allowed[i]) { prev.push(files[i]) } else { prev }
    }
}

/// The project files that ride the rail, in path order (pinned so the selection never depends
/// on the store's order).
pub fn project_rail_selection(files: &[BranchItem], mode: AppMode, codified_allowed: &[bool]) -> (r: Vec<BranchItem>)
    requires
        files.len() == codified_allowed.len(),
    ensures
        r@ == path_sorted(rail_files(files@, mode, codified_allowed@)),
{
    let mut kept: Vec<BranchItem> = Vec::new();
    let mut i: usize = 0;
    while i < files.len()
        invariant
            i <= files.len(),
            files.len() == codified_allowed.len(),
            kept@ == rail_files(files@.take(i as int), mode, codified_allowed@),
        decreases files.len() - i,
    {
        proof {
            let t = files@.take(i + 1);
            assert(t.drop_last() == files@.take(i as int));
            assert(t[i as int] == files@[i as int]);
        }
        if is_project_rail_path(files[i].path.as_str(), mode, codified_allowed[i]) {
            kept.push(BranchItem { path: files[i].path.clone(), content_ref: files[i].content_ref });
        }
        i = i + 1;
    }
    assert(files@.take(files.len() as int) == files@);
    sort_items(&mut kept);
    kept
}

pub open spec fn missing_file_message(path: Seq<char>) -> Seq<char> {
    "app project file "@ + debug_str(path) + " is missing from the content store"@
}

pub open spec fn over_budget_message(cap: nat, path: Seq<char>) -> Seq<char> {
    "the app's project files exceed the "@ + decimal(cap) + "-byte context-rail budget (reached at "@ + debug_str(path)
        + "); trim the project or raise KX_APP_PROJECT_RAIL_BYTES"@
}

/// The project items within the byte budget: walking the selected files in order, a body the
/// store does not hold is an internal failure (`(true, message)`), and the file at which the
/// running byte count (saturating) passes `cap` refuses the run (`(false, message)`); otherwise
/// each file becomes a `project:<path>` item. `sizes[i]` is the byte length of `files[i]`'s
/// body, if the store holds it.
pub open spec fn budget_spec(files: Seq<BranchItem>, sizes: Seq<Option<usize>>, used: nat, cap: usize) -> Result<Seq<(Seq<char>, Seq<u8>)>, (bool, Seq<char>)>
    decreases files.len(),
{
    if files.len() == 0 || sizes.len() == 0 {
        Ok(Seq::empty())
    } else {
        match sizes[0] {
            None => Err((true, missing_file_message(files[0].path@))),
            Some(n) => {
                let next: nat = if used + n > usize::MAX { usize::MAX as nat } else { (used + n) as nat };
                if next > cap {
                    Err((false, over_budget_message(cap as nat, files[0].path@)))
                } else {
                    match budget_spec(files.drop_first(), sizes.drop_first(), next, cap) {
                        Ok(t) => Ok(seq![("project:"@ + files[0].path@, files[0].content_ref@)] + t),
                        Err(e) => Err(e),
                    }
                }
            },
        }
    }
}

/// The result as plain values: the items, or `(internal, message)`.
pub open spec fn budgeted(r: Result<Vec<ContextItemRef>, AppRunError>) -> Result<Seq<(Seq<char>, Seq<u8>)>, (bool, Seq<char>)> {
    match r {
        Ok(v) => Ok(items_view(v@)),
        Err(AppRunError::Internal(m)) => Err((true, m@)),
        Err(AppRunError::InvalidArgs(m)) => Err((false, m@)),
        Err(_) => Err((false, Seq::empty())),
    }
}

/// The selected project files as `project:<path>` items within `cap` bytes (see
/// [`budget_spec`]): over budget the run is refused rather than silently truncated.
pub fn project_rail_items(files: &[BranchItem], sizes: &[Option<usize>], cap: usize) -> (r: Result<Vec<ContextItemRef>, AppRunError>)
    requires
        files.len() == sizes.len(),
    ensures
        budgeted(r) == budget_spec(files@, sizes@, 0, cap),
        r is Ok || r matches Err(AppRunError::InvalidArgs(_)) || r matches Err(AppRunError::Internal(_)),
{
    let mut out: Vec<ContextItemRef> = Vec::new();
    let mut used: usize = 0;
    let mut i: usize = 0;
    assert(files@.skip(0) == files@ && sizes@.skip(0) == sizes@);
    proof {
        match budget_spec(files@, sizes@, 0, cap) {
            Ok(t) => { assert(Seq::<(Seq<char>, Seq<u8>)>::empty() + t == t); },
            Err(_) => {},
        }
    }
    while i < files.len()
        invariant
            i <= files.len(),
            files.len() == sizes.len(),
            budget_spec(files@, sizes@, 0, cap) == match budget_spec(files@.skip(i as int), sizes@.skip(i as int), used as nat, cap) {
                Ok(t) => Ok(items_view(out@) + t),
                Err(e) => Err(e),
            },
        decreases files.len() - i,
    {
        assert(files@.skip(i as int)[0] == files@[i as int] && sizes@.skip(i as int)[0] == sizes@[i as int]);
        assert(files@.skip(i as int).drop_first() == files@.skip(i + 1) && sizes@.skip(i as int).drop_first() == sizes@.skip(i + 1));
        let f = &files[i];
        match sizes[i] {
            None => {
                let mut m = String::from_str("app project file ");
                let q = debug_quoted(f.path.as_str());
                push_str(&mut m, q.as_str());
                push_str(&mut m, " is missing from the content store");
                return Err(AppRunError::Internal(m));
            },
            Some(n) => {
                used = used.saturating_add(n);
                if used > cap {
                    let mut m = String::from_str("the app's project files exceed the ");
                    push_decimal(&mut m, cap as u64);
                    push_str(&mut m, "-byte context-rail budget (reached at ");
                    let q = debug_quoted(f.path.as_str());
                    push_str(&mut m, q.as_str());
                    push_str(&mut m, "); trim the project or raise KX_APP_PROJECT_RAIL_BYTES");
                    return Err(AppRunError::InvalidArgs(m));
                }
                let ghost before = items_view(out@);
                let mut name = String::from_str("project:");
                push_str(&mut name, f.path.as_str());
                out.push(ContextItemRef { name, content_ref: f.content_ref });
                proof {
                    let x = ("project:"@ + f.path@, f.content_ref@);
                    assert(items_view(out@) =~= before + seq![x]);
                    match budget_spec(files@.skip(i + 1), sizes@.skip(i + 1), used as nat, cap) {
                        Ok(t) => { assert((before + seq![x]) + t =~= before + (seq![x] + t)); },
                        Err(_) => {},
                    }
                }
            },
        }
        i = i + 1;
    }
    proof {
        assert(files@.skip(files.len() as int).len() == 0);
        assert(items_view(out@) + Seq::<(Seq<char>, Seq<u8>)>::empty() == items_view(out@));
    }
    Ok(out)
}

proof fn lemma_rail_files_contextual(files: Seq<BranchItem>, allowed: Seq<bool>)
    requires
        distinct_paths(files),
    ensures
        distinct_paths(rail_files(files, AppMode::Contextual, allowed)),
        forall|x: BranchItem| rail_files(files, AppMode::Contextual, allowed).contains(x)
            <==> (files.contains(x) && rail_path_ok(x.path@, AppMode::Contextual, false)),
    decreases files.len(),
{
    if files.len() > 0 {
        let t = files.drop_last();
        assert(distinct_paths(t)) by {
            assert forall|i: int, j: int| 0 <= i < j < t.len() implies (#[trigger] t[i]).path@ != (#[trigger] t[j]).path@ by {
                assert(t[i] == files[i] && t[j] == files[j]);
            }
        }
        lemma_rail_files_contextual(t, allowed);
        let prev = rail_files(t, AppMode::Contextual, allowed);
        let l = files.len() - 1;
        let x = files[l];
        assert(rail_path_ok(x.path@, AppMode::Contextual, allowed[l]) == rail_path_ok(x.path@, AppMode::Contextual, false));
        assert forall|k: int| 0 <= k < prev.len() implies (#[trigger] prev[k]).path@ != x.path@ by {
            assert(prev.contains(prev[k]));
            assert(t.contains(prev[k]));
            let q = choose|q: int| 0 <= q < t.len() && t[q] == prev[k];
            assert(files[q] == t[q]);
        }
        let r = rail_files(files, AppMode::Contextual, allowed);
        assert forall|i: int, j: int| 0 <= i < j < r.len() implies (#[trigger] r[i]).path@ != (#[trigger] r[j]).path@ by {
            if j < prev.len() {
                assert(r[i] == prev[i] && r[j] == prev[j]);
            } else {
                assert(r[i] == prev[i] && r[j] == x);
            }
        }
        assert forall|y: BranchItem| r.contains(y) <==> (files.contains(y) && rail_path_ok(y.path@, AppMode::Contextual, false)) by {
            if r.contains(y) {
                let k = choose|k: int| 0 <= k < r.len() && r[k] == y;
                if k < prev.len() {
                    assert(prev[k] == y);
                    assert(prev.contains(y));
                    assert(t.contains(y));
                    let q = choose|q: int| 0 <= q < t.len() && t[q] == y;
                    assert(files[q] == y);
                } else {
                    assert(files[l] == y);
                }
            }
            if files.contains(y) && rail_path_ok(y.path@, AppMode::Contextual, false) {
                let q = choose|q: int| 0 <= q < files.len() && files[q] == y;
                if q < l {
                    assert(t[q] == y);
                    assert(t.contains(y));
                    assert(prev.contains(y));
                    let k = choose|k: int| 0 <= k < prev.len() && prev[k] == y;
                    assert(r[k] == y);
                } else {
                    assert(r[r.len() - 1] == y);
                }
            }
        }
    }
}

/// A contextual App's project rail does not depend on the order its branch lists its files:
/// two listings of the same files (paths distinct) select the same items in the same order.
pub proof fn law_rail_selection_ignores_listing_order(a: Seq<BranchItem>, b: Seq<BranchItem>, allowed_a: Seq<bool>, allowed_b: Seq<bool>)
    requires
        distinct_paths(a),
        distinct_paths(b),
        forall|x: BranchItem| a.contains(x) <==> b.contains(x),
    ensures
        path_sorted(rail_files(a, AppMode::Contextual, allowed_a)) == path_sorted(rail_files(b, AppMode::Contextual, allowed_b)),
{
    lemma_rail_files_contextual(a, allowed_a);
    lemma_rail_files_contextual(b, allowed_b);
    let ra = rail_files(a, AppMode::Contextual, allowed_a);
    let rb = rail_files(b, AppMode::Contextual, allowed_b);
    assert forall|x: BranchItem| ra.contains(x) <==> rb.contains(x) by {
        assert(ra.contains(x) == (a.contains(x) && rail_path_ok(x.path@, AppMode::Contextual, false)));
        assert(rb.contains(x) == (b.contains(x) && rail_path_ok(x.path@, AppMode::Contextual, false)));
    }
    law_path_sorted_ignores_input_order(ra, rb);
}

} // verus!
