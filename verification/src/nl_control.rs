//! The served-model side of NL control, after decoding: the domain steer check, the authority
//! gate a policy role must pass, the one-line display summary, and the refusal text of each
//! decode error.
//!
//! A proposal is not a grant: a role may only narrow to tools that are fireable on this serve.
use vstd::prelude::*;
use vstd::string::*;

use crate::control::{
    ControlDecodeError, ControlProposal, PolicyRoleRow, PolicyRoleToolWire, MAX_CONTROL_BYTES,
};
use crate::text::{
    chars_of, debug_quoted, debug_str, decimal, push_decimal, push_str, str_eq, trim,
    trim_chars, string_of,
};

verus! {

/// The outcome of a control proposal: a previewable proposal with its summary, or a refusal.
pub enum ControlOutcome {
    Proposed { proposal: ControlProposal, summary: String },
    Rejected { reason: String },
}

/// The domains a steer may name.
pub open spec fn known_domain(d: Seq<char>) -> bool {
    d == "workflows"@ || d == "tools"@ || d == "connectors"@ || d == "secrets"@ || d == "scripts"@
        || d == "triggers"@ || d == "policy"@
}

pub open spec fn steer_refusal(steer: Seq<char>) -> Seq<char> {
    "unknown domain "@ + debug_str(steer)
        + ": expected one of workflows | tools | connectors | secrets | scripts | triggers | policy"@
}

/// The steer a caller gave, trimmed; a non-blank steer naming no known domain is refused
/// rather than ignored.
pub fn check_steer(domain: &str) -> (r: Result<String, String>)
    ensures
        if trim(domain@).len() == 0 || known_domain(trim(domain@)) {
            r matches Ok(s) && s@ == trim(domain@)
        } else {
            r matches Err(m) && m@ == steer_refusal(trim(domain@))
        },
{
    let dc = chars_of(domain);
    let t = trim_chars(dc.as_slice());
    let steer = string_of(t.as_slice());
    let s = steer.as_str();
    if t.len() == 0 || str_eq(s, "workflows") || str_eq(s, "tools") || str_eq(s, "connectors")
        || str_eq(s, "secrets") || str_eq(s, "scripts") || str_eq(s, "triggers") || str_eq(s, "policy") {
        return Ok(steer);
    }
    let mut m = String::from_str("unknown domain ");
    let q = debug_quoted(s);
    push_str(&mut m, q.as_str());
    push_str(&mut m, ": expected one of workflows | tools | connectors | secrets | scripts | triggers | policy");
    Err(m)
}

// ----- the authority gate ---------------------------------------------------------------------

pub open spec fn pair_view(p: (String, String)) -> (Seq<char>, Seq<char>) {
    (p.0@, p.1@)
}

/// Whether `(id, version)` is one of the fireable pairs.
pub open spec fn fireable_has(fireable: Seq<(String, String)>, id: Seq<char>, ver: Seq<char>) -> bool {
    exists|i: int| 0 <= i < fireable.len() && #[trigger] pair_view(fireable[i]) == (id, ver)
}

/// `id@version` for each tool of the role that no fireable pair matches, in the role's order.
pub open spec fn unknown_tools(tools: Seq<PolicyRoleToolWire>, fireable: Seq<(String, String)>) -> Seq<Seq<char>>
    decreases tools.len(),
{
    if tools.len() == 0 {
        Seq::empty()
    } else {
        let rest = unknown_tools(tools.drop_last(), fireable);
        let t = tools.last();
        if fireable_has(fireable, t.tool_id@, t.tool_version@) {
            rest
        } else {
            rest.push(t.tool_id@ + "@"@ + t.tool_version@)
        }
    }
}

/// `format!("{v:?}")` of a list of strings: `["a", "b"]`.
pub open spec fn debug_list(v: Seq<Seq<char>>) -> Seq<char>
    decreases v.len(),
{
    if v.len() == 0 {
        "[]"@
    } else {
        debug_items(v) + "]"@
    }
}

/// `[` and the items, comma-separated, without the closing bracket.
pub open spec fn debug_items(v: Seq<Seq<char>>) -> Seq<char>
    decreases v.len(),
{
    if v.len() == 0 {
        "["@
    } else if v.len() == 1 {
        "["@ + debug_str(v[0])
    } else {
        debug_items(v.drop_last()) + ", "@ + debug_str(v.last())
    }
}

pub open spec fn authority_refusal(unknown: Seq<Seq<char>>) -> Seq<char> {
    "this role names "@ + (if unknown.len() == 1 { "a tool"@ } else { "tools"@ })
        + " that no registered tool matches — a role NARROWS to tools that exist, so naming one that does not would silently narrow to nothing: "@
        + debug_list(unknown)
}

/// The authority gate: a policy role whose tools are not all fireable is refused, naming every
/// unmatched `id@version`; every other proposal passes untouched.
pub open spec fn authority_ok(p: ControlProposal, fireable: Seq<(String, String)>, r: Result<(), String>) -> bool {
    match p {
        ControlProposal::PutPolicyRole(role) => {
            let unknown = unknown_tools(role.tools@, fireable);
            if unknown.len() == 0 {
                r is Ok
            } else {
                r matches Err(m) && m@ == authority_refusal(unknown)
            }
        },
        _ => r is Ok,
    }
}

fn fireable_contains(fireable: &[(String, String)], id: &str, ver: &str) -> (r: bool)
    ensures
        r == fireable_has(fireable@, id@, ver@),
{
    let mut i: usize = 0;
    while i < fireable.len()
        invariant
            i <= fireable.len(),
            forall|j: int| 0 <= j < i ==> #[trigger] pair_view(fireable@[j]) != (id@, ver@),
        decreases fireable.len() - i,
    {
        if str_eq(fireable[i].0.as_str(), id) && str_eq(fireable[i].1.as_str(), ver) {
            assert(pair_view(fireable@[i as int]) == (id@, ver@));
            return true;
        }
        i = i + 1;
    }
    false
}

fn debug_list_exec(v: &Vec<String>) -> (r: String)
    ensures
        r@ == debug_list(v@.map_values(|s: String| s@)),
{
    let ghost sv = v@.map_values(|s: String| s@);
    let mut out = String::from_str("[");
    let mut i: usize = 0;
    while i < v.len()
        invariant
            i <= v.len(),
            sv == v@.map_values(|s: String| s@),
            out@ == debug_items(sv.take(i as int)),
        decreases v.len() - i,
    {
        if i > 0 {
            push_str(&mut out, ", ");
        }
        let q = debug_quoted(v[i].as_str());
        push_str(&mut out, q.as_str());
        proof {
            assert(sv.take(i + 1).drop_last() == sv.take(i as int));
            assert(sv.take(i + 1).last() == v@[i as int]@);
            if i == 0 {
                assert(sv.take(1)[0] == v@[0]@);
            }
        }
        i = i + 1;
    }
    assert(sv.take(v.len() as int) == sv);
    if v.len() == 0 {
        return String::from_str("[]");
    }
    push_str(&mut out, "]");
    out
}

/// The authority gate on a decoded proposal, against the `(tool_id, tool_version)` pairs that
/// are fireable on this serve.
pub fn admit_role_names_only_fireable_tools(proposal: &ControlProposal, fireable: &[(String, String)]) -> (r: Result<(), String>)
    ensures
        authority_ok(*proposal, fireable@, r),
{
    let role: &PolicyRoleRow = match proposal {
        ControlProposal::PutPolicyRole(role) => role,
        _ => { return Ok(()); },
    };
    let mut unknown: Vec<String> = Vec::new();
    let mut i: usize = 0;
    while i < role.tools.len()
        invariant
            i <= role.tools.len(),
            unknown@.map_values(|s: String| s@) == unknown_tools(role.tools@.take(i as int), fireable@),
        decreases role.tools.len() - i,
    {
        let t = &role.tools[i];
        proof {
            assert(role.tools@.take(i + 1).drop_last() == role.tools@.take(i as int));
            assert(role.tools@.take(i + 1).last() == role.tools@[i as int]);
        }
        if !fireable_contains(fireable, t.tool_id.as_str(), t.tool_version.as_str()) {
            let mut e = t.tool_id.clone();
            push_str(&mut e, "@");
            push_str(&mut e, t.tool_version.as_str());
            let ghost before = unknown@;
            unknown.push(e);
            assert(unknown@.map_values(|s: String| s@) =~= before.map_values(|s: String| s@).push(e@));
        }
        i = i + 1;
    }
    assert(role.tools@.take(role.tools.len() as int) == role.tools@);
    if unknown.len() == 0 {
        return Ok(());
    }
    let mut m = String::from_str("this role names ");
    if unknown.len() == 1 {
        push_str(&mut m, "a tool");
    } else {
        push_str(&mut m, "tools");
    }
    push_str(&mut m, " that no registered tool matches — a role NARROWS to tools that exist, so naming one that does not would silently narrow to nothing: ");
    let list = debug_list_exec(&unknown);
    push_str(&mut m, list.as_str());
    Err(m)
}

// ----- the display summary --------------------------------------------------------------------

/// The first non-empty of the trigger's targets, or `(no target)`.
pub open spec fn trigger_target(recipe: Seq<char>, app: Seq<char>, workflow: Seq<char>) -> Seq<char> {
    if recipe.len() > 0 { recipe } else if app.len() > 0 { app } else if workflow.len() > 0 { workflow } else { "(no target)"@ }
}

/// The one-line display rendering of a proposal. A secret is shown by NAME only.
pub open spec fn summary_spec(p: ControlProposal) -> Seq<char> {
    match p {
        ControlProposal::SaveWorkflow(w) => "save workflow "@ + w.handle@,
        ControlProposal::RegisterTool(t) => "register tool "@ + t.tool_name@ + "@"@ + t.tool_version@ + " via "@ + t.server_host@,
        ControlProposal::RegisterMcpServer(c) => "register connector "@ + c.server_name@ + " ("@ + c.transport@ + ")"@,
        ControlProposal::RegisterTrigger(t) => "register "@ + t.kind@ + " trigger "@ + t.name@ + " -> "@
            + trigger_target(t.recipe_handle@, t.app_handle@, t.workflow_handle@),
        ControlProposal::PutPolicyRole(r) => "define role "@ + r.name@ + " narrowing to "@ + decimal(r.tools@.len()) + " tool(s)"@,
        ControlProposal::AssignPolicyRole { party, role } => "assign role "@ + role@ + " to "@ + party@,
        ControlProposal::PutSecret(s) => "declare secret NAME "@ + s.name@,
        ControlProposal::RegisterScript(s) => "register script "@ + s.script_name@ + "@"@ + s.script_version@ + " ("@ + s.interpreter@ + ")"@,
    }
}

/// The one-line display rendering of a proposal.
pub fn summarize(p: &ControlProposal) -> (r: String)
    ensures
        r@ == summary_spec(*p),
{
    let mut out: String;
    match p {
        ControlProposal::SaveWorkflow(w) => {
            out = String::from_str("save workflow ");
            push_str(&mut out, w.handle.as_str());
        },
        ControlProposal::RegisterTool(t) => {
            out = String::from_str("register tool ");
            push_str(&mut out, t.tool_name.as_str());
            push_str(&mut out, "@");
            push_str(&mut out, t.tool_version.as_str());
            push_str(&mut out, " via ");
            push_str(&mut out, t.server_host.as_str());
        },
        ControlProposal::RegisterMcpServer(c) => {
            out = String::from_str("register connector ");
            push_str(&mut out, c.server_name.as_str());
            push_str(&mut out, " (");
            push_str(&mut out, c.transport.as_str());
            push_str(&mut out, ")");
        },
        ControlProposal::RegisterTrigger(t) => {
            out = String::from_str("register ");
            push_str(&mut out, t.kind.as_str());
            push_str(&mut out, " trigger ");
            push_str(&mut out, t.name.as_str());
            push_str(&mut out, " -> ");
            let rc = chars_of(t.recipe_handle.as_str());
            let ac = chars_of(t.app_handle.as_str());
            let wc = chars_of(t.workflow_handle.as_str());
            if rc.len() > 0 {
                push_str(&mut out, t.recipe_handle.as_str());
            } else if ac.len() > 0 {
                push_str(&mut out, t.app_handle.as_str());
            } else if wc.len() > 0 {
                push_str(&mut out, t.workflow_handle.as_str());
            } else {
                push_str(&mut out, "(no target)");
            }
        },
        ControlProposal::PutPolicyRole(r) => {
            out = String::from_str("define role ");
            push_str(&mut out, r.name.as_str());
            push_str(&mut out, " narrowing to ");
            push_decimal(&mut out, r.tools.len() as u64);
            push_str(&mut out, " tool(s)");
        },
        ControlProposal::AssignPolicyRole { party, role } => {
            out = String::from_str("assign role ");
            push_str(&mut out, role.as_str());
            push_str(&mut out, " to ");
            push_str(&mut out, party.as_str());
        },
        ControlProposal::PutSecret(s) => {
            out = String::from_str("declare secret NAME ");
            push_str(&mut out, s.name.as_str());
        },
        ControlProposal::RegisterScript(s) => {
            out = String::from_str("register script ");
            push_str(&mut out, s.script_name.as_str());
            push_str(&mut out, "@");
            push_str(&mut out, s.script_version.as_str());
            push_str(&mut out, " (");
            push_str(&mut out, s.interpreter.as_str());
            push_str(&mut out, ")");
        },
    }
    out
}

// ----- the refusal text of a decode error -----------------------------------------------------

/// The text a decode refusal is reported with.
pub open spec fn decode_error_text(e: ControlDecodeError) -> Seq<char> {
    match e {
        ControlDecodeError::Oversize { got } => "the control form is "@ + decimal(got as nat) + " bytes, over the "@
            + decimal(MAX_CONTROL_BYTES as nat) + " byte cap"@,
        ControlDecodeError::NotUtf8 => "the control form is not valid UTF-8"@,
        ControlDecodeError::Malformed(m) => m@,
        ControlDecodeError::Forbidden(k) => "the form carries `"@ + k@
            + "`, which a proposal may never contain — credentials and script argv/env are set by an operator, never proposed"@,
    }
}

impl ControlDecodeError {
    /// The refusal text of this error.
    pub fn message(&self) -> (r: String)
        ensures
            r@ == decode_error_text(*self),
    {
        match self {
            ControlDecodeError::Oversize { got } => {
                let mut m = String::from_str("the control form is ");
                push_decimal(&mut m, *got as u64);
                push_str(&mut m, " bytes, over the ");
                push_decimal(&mut m, MAX_CONTROL_BYTES as u64);
                push_str(&mut m, " byte cap");
                m
            },
            ControlDecodeError::NotUtf8 => String::from_str("the control form is not valid UTF-8"),
            ControlDecodeError::Malformed(m) => m.clone(),
            ControlDecodeError::Forbidden(k) => {
                let mut m = String::from_str("the form carries `");
                push_str(&mut m, k.as_str());
                push_str(&mut m, "`, which a proposal may never contain — credentials and script argv/env are set by an operator, never proposed");
                m
            },
        }
    }
}

} // verus!
