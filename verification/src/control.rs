//! The NL-control decoder: model bytes → a typed [`ControlProposal`].
//!
//! Strict on purpose: a byte cap before parsing, unknown keys refused rather than dropped, and
//! the credential- and execution-shaped keys (`value`, `secret`, `password`, `token`, `argv`,
//! `env`) refused BY NAME whatever the domain — so what a person is asked to approve is exactly what the
//! model proposed. JSON text is parsed by the caller into a [`Json`] value; everything after
//! that is decided here.
use vstd::prelude::*;
use vstd::string::*;
use vstd::utf8::*;

use crate::text::{
    all_ws, is_ws, lead_ws, lemma_leading_count, lemma_trim_ws_prefix, lemma_trim_ws_suffix, seq_lt, trail_ws,
    chars_eq, chars_of, chars_start_with, count_leading, debug_quoted, debug_str, find_first,
    find_str, find_substr, first_index_of, leading_count, lemma_find_substr_range,
    lemma_first_index_of, lemma_rfind_substr, push_str, rfind_str, rfind_substr, starts_with,
    str_eq, string_of, trim, trim_chars, trim_start_char, trim_string,
};

verus! {

/// The hard byte cap on a control form.
pub const MAX_CONTROL_BYTES: usize = 16384;

/// A JSON number, as far as a control form can use one.
#[derive(Debug, Clone, PartialEq, Eq)]
pub enum JsonNumber {
    /// A non-negative integer that fits a `u64`.
    UInt(u64),
    /// Any other number (negative, or with a fraction or exponent).
    Other,
}

/// A parsed JSON value. Objects keep their entries in the parser's order.
#[derive(Debug, PartialEq, Eq)]
pub enum Json {
    Null,
    Bool(bool),
    Number(JsonNumber),
    Str(String),
    Array(Vec<Json>),
    Object(Vec<(String, Json)>),
}

/// Why a control form was not accepted.
#[derive(Debug, Clone, PartialEq, Eq)]
pub enum ControlDecodeError {
    /// Over [`MAX_CONTROL_BYTES`].
    Oversize { got: usize },
    /// Not UTF-8.
    NotUtf8,
    /// Malformed, unknown key, or unknown domain.
    Malformed(String),
    /// A key that must never appear in a proposal.
    Forbidden(String),
}

#[derive(Debug, Clone, PartialEq, Eq)]
pub struct WorkflowSaveProposal {
    pub handle: String,
    pub envelope_json: Vec<u8>,
    pub lifecycle: String,
}

#[derive(Debug, Clone, PartialEq, Eq)]
pub struct ToolProposal {
    pub tool_name: String,
    pub tool_version: String,
    pub description: String,
    pub idempotency_class: String,
    pub server_host: String,
    pub remote_name: String,
}

#[derive(Debug, Clone, PartialEq, Eq)]
pub struct ConnectorProposal {
    pub server_name: String,
    pub transport: String,
    pub endpoint: String,
    pub args: Vec<String>,
    pub tls_required: bool,
    pub credential_ref: String,
    pub session_mode: String,
}

#[derive(Debug, Clone, PartialEq, Eq)]
pub struct SecretProposal {
    pub name: String,
    pub secret_scope: String,
    pub net_scope: String,
}

#[derive(Debug, Clone, PartialEq, Eq)]
pub struct ScriptProposal {
    pub script_name: String,
    pub script_version: String,
    pub description: String,
    pub interpreter: String,
    pub source: Vec<u8>,
    pub fs_mounts: Vec<String>,
    pub net_hosts: Vec<String>,
    pub wall_clock_ms: u64,
    pub mem_bytes: u64,
    pub max_output_bytes: u64,
}

#[derive(Debug, Clone, PartialEq, Eq)]
pub struct TriggerProposal {
    pub name: String,
    pub kind: String,
    pub auth: String,
    pub auth_secret_ref: String,
    pub schedule_spec: String,
    pub timezone: String,
    pub enabled: bool,
    pub require_approval: bool,
    pub recipe_handle: String,
    pub app_handle: String,
    pub workflow_handle: String,
}

#[derive(Debug, Clone, PartialEq, Eq)]
pub struct PolicyRoleToolWire {
    pub tool_id: String,
    pub tool_version: String,
}

#[derive(Debug, Clone, PartialEq, Eq)]
pub struct PolicyRoleRow {
    pub name: String,
    pub description: String,
    pub tools: Vec<PolicyRoleToolWire>,
    pub created_unix_ms: u64,
    pub updated_unix_ms: u64,
}

/// A decoded control proposal.
#[derive(Debug, Clone, PartialEq, Eq)]
pub enum ControlProposal {
    SaveWorkflow(WorkflowSaveProposal),
    RegisterTool(ToolProposal),
    RegisterMcpServer(ConnectorProposal),
    PutSecret(SecretProposal),
    RegisterScript(ScriptProposal),
    RegisterTrigger(TriggerProposal),
    AssignPolicyRole { party: String, role: String },
    PutPolicyRole(PolicyRoleRow),
}

// ----- field schemas ------------------------------------------------------------------------

/// The type a form field must have (`null` always reads as absent).
#[derive(Debug, Clone, Copy, PartialEq, Eq, Structural)]
pub enum FieldType {
    Str,
    Bool,
    U64,
    StrList,
}

/// The keys a proposal may never carry.
pub open spec fn forbidden_key(k: Seq<char>) -> bool {
    k == "value"@ || k == "secret"@ || k == "password"@ || k == "token"@ || k == "argv"@ || k == "env"@
}

/// The field schema of a domain (`None` for an unknown domain).
pub open spec fn domain_schema(d: Seq<char>) -> Option<Seq<(Seq<char>, FieldType)>> {
    if d == "workflows"@ {
        Some(seq![("envelope_json"@, FieldType::Str), ("lifecycle"@, FieldType::Str)])
    } else if d == "tools"@ {
        Some(seq![("tool_version"@, FieldType::Str), ("description"@, FieldType::Str), ("idempotency_class"@, FieldType::Str),
            ("server_host"@, FieldType::Str), ("remote_name"@, FieldType::Str)])
    } else if d == "connectors"@ {
        Some(seq![("transport"@, FieldType::Str), ("endpoint"@, FieldType::Str), ("args"@, FieldType::StrList),
            ("tls_required"@, FieldType::Bool), ("credential_ref"@, FieldType::Str), ("session_mode"@, FieldType::Str)])
    } else if d == "secrets"@ {
        Some(seq![("secret_scope"@, FieldType::Str), ("net_scope"@, FieldType::Str)])
    } else if d == "scripts"@ {
        Some(seq![("script_version"@, FieldType::Str), ("description"@, FieldType::Str), ("interpreter"@, FieldType::Str),
            ("source"@, FieldType::Str), ("net_hosts"@, FieldType::StrList), ("wall_clock_ms"@, FieldType::U64)])
    } else if d == "triggers"@ {
        Some(seq![("kind"@, FieldType::Str), ("auth"@, FieldType::Str), ("auth_secret_ref"@, FieldType::Str),
            ("schedule_spec"@, FieldType::Str), ("timezone"@, FieldType::Str), ("enabled"@, FieldType::Bool),
            ("require_approval"@, FieldType::Bool), ("recipe_handle"@, FieldType::Str), ("app_handle"@, FieldType::Str),
            ("workflow_handle"@, FieldType::Str)])
    } else if d == "policy"@ {
        Some(seq![("description"@, FieldType::Str), ("tools"@, FieldType::StrList), ("party"@, FieldType::Str)])
    } else {
        None
    }
}

/// Whether a JSON value fits a field type (`null` fits every type, as an absent value).
pub open spec fn fits(v: Json, t: FieldType) -> bool {
    match v {
        Json::Null => true,
        Json::Str(_) => t == FieldType::Str,
        Json::Bool(_) => t == FieldType::Bool,
        Json::Number(n) => t == FieldType::U64 && n is UInt,
        Json::Array(items) => t == FieldType::StrList && forall|i: int| 0 <= i < items@.len() ==> #[trigger] items@[i] is Str,
        Json::Object(_) => false,
    }
}

/// The type a schema gives `k`, if it names it.
pub open spec fn schema_type(schema: Seq<(Seq<char>, FieldType)>, k: Seq<char>) -> Option<FieldType>
    decreases schema.len(),
{
    if schema.len() == 0 {
        None
    } else if schema[0].0 == k {
        Some(schema[0].1)
    } else {
        schema_type(schema.drop_first(), k)
    }
}

/// The first problem with a form's fields under a schema, as the detail of the refusal.
pub open spec fn field_problem(schema: Seq<(Seq<char>, FieldType)>, fields: Seq<(String, Json)>) -> Option<Seq<char>>
    decreases fields.len(),
{
    if fields.len() == 0 {
        None
    } else {
        let k = fields[0].0@;
        match schema_type(schema, k) {
            None => Some("unknown field `"@ + k + "`"@),
            Some(t) => if fits(fields[0].1, t) {
                field_problem(schema, fields.drop_first())
            } else {
                Some("invalid type for field `"@ + k + "`"@)
            },
        }
    }
}

/// The first forbidden key among a form's fields.
pub open spec fn first_forbidden(fields: Seq<(String, Json)>) -> Option<Seq<char>>
    decreases fields.len(),
{
    if fields.len() == 0 {
        None
    } else if forbidden_key(fields[0].0@) {
        Some(fields[0].0@)
    } else {
        first_forbidden(fields.drop_first())
    }
}

/// The (last) value a field list gives `k`.
pub open spec fn field_value(fields: Seq<(String, Json)>, k: Seq<char>) -> Option<Json>
    decreases fields.len(),
{
    if fields.len() == 0 {
        None
    } else if fields.last().0@ == k {
        Some(fields.last().1)
    } else {
        field_value(fields.drop_last(), k)
    }
}

/// A string field, `None` when absent or null.
pub open spec fn str_field(fields: Seq<(String, Json)>, k: Seq<char>) -> Option<Seq<char>> {
    match field_value(fields, k) {
        Some(Json::Str(s)) => Some(s@),
        _ => None,
    }
}

pub open spec fn bool_field(fields: Seq<(String, Json)>, k: Seq<char>) -> Option<bool> {
    match field_value(fields, k) {
        Some(Json::Bool(b)) => Some(b),
        _ => None,
    }
}

pub open spec fn u64_field(fields: Seq<(String, Json)>, k: Seq<char>) -> Option<u64> {
    match field_value(fields, k) {
        Some(Json::Number(JsonNumber::UInt(n))) => Some(n),
        _ => None,
    }
}

pub open spec fn strs_field(fields: Seq<(String, Json)>, k: Seq<char>) -> Option<Seq<Seq<char>>> {
    match field_value(fields, k) {
        Some(Json::Array(items)) => Some(items@.map_values(|j: Json| match j { Json::Str(s) => s@, _ => Seq::<char>::empty() })),
        _ => None,
    }
}

pub open spec fn or_default(o: Option<Seq<char>>, d: Seq<char>) -> Seq<char> {
    match o {
        Some(s) => s,
        None => d,
    }
}


// ----- the envelope ---------------------------------------------------------------------------

/// The parts of a valid control form: `(domain, name, fields)`.
pub struct FormParts {
    pub domain: Seq<char>,
    pub name: Seq<char>,
    pub fields: Seq<(String, Json)>,
}

/// The inner form `{"domain": str, "name": str, "fields"?: object}` (no other keys).
pub open spec fn form_entries(es: Seq<(String, Json)>, acc: (Option<Seq<char>>, Option<Seq<char>>, Seq<(String, Json)>)) -> Result<(Option<Seq<char>>, Option<Seq<char>>, Seq<(String, Json)>), Seq<char>>
    decreases es.len(),
{
    if es.len() == 0 {
        Ok(acc)
    } else {
        let k = es[0].0@;
        let v = es[0].1;
        if k == "domain"@ {
            match v {
                Json::Str(d) => form_entries(es.drop_first(), (Some(d@), acc.1, acc.2)),
                _ => Err("invalid type for field `domain`"@),
            }
        } else if k == "name"@ {
            match v {
                Json::Str(n) => form_entries(es.drop_first(), (acc.0, Some(n@), acc.2)),
                _ => Err("invalid type for field `name`"@),
            }
        } else if k == "fields"@ {
            match v {
                Json::Object(f) => form_entries(es.drop_first(), (acc.0, acc.1, f@)),
                _ => Err("invalid type for field `fields`"@),
            }
        } else {
            Err("unknown field `"@ + k + "`"@)
        }
    }
}

pub open spec fn form_spec(v: Json) -> Result<FormParts, Seq<char>> {
    match v {
        Json::Object(es) => match form_entries(es@, (None, None, Seq::empty())) {
            Err(e) => Err(e),
            Ok((d, n, f)) => if d is None {
                Err("missing field `domain`"@)
            } else if n is None {
                Err("missing field `name`"@)
            } else {
                Ok(FormParts { domain: d->0, name: n->0, fields: f })
            },
        },
        Json::Array(xs) => form_array_spec(xs@),
        _ => Err("invalid type: expected a control form object"@),
    }
}

pub open spec fn form_array_length() -> Seq<char> {
    "invalid length: a control form array holds `domain`, `name` and optionally `fields`"@
}

/// The array form of a control form, `[domain, name]` or `[domain, name, fields]`, read element
/// by element in order.
pub open spec fn form_array_spec(xs: Seq<Json>) -> Result<FormParts, Seq<char>> {
    if xs.len() == 0 {
        Err(form_array_length())
    } else if !(xs[0] is Str) {
        Err("invalid type for field `domain`"@)
    } else if xs.len() == 1 {
        Err(form_array_length())
    } else if !(xs[1] is Str) {
        Err("invalid type for field `name`"@)
    } else if xs.len() >= 3 && !(xs[2] is Object) {
        Err("invalid type for field `fields`"@)
    } else if xs.len() > 3 {
        Err(form_array_length())
    } else {
        Ok(FormParts {
            domain: xs[0]->Str_0@,
            name: xs[1]->Str_0@,
            fields: if xs.len() == 3 { xs[2]->Object_0@ } else { Seq::empty() },
        })
    }
}

/// The outer envelope `{"control": form}` (no other keys).
pub open spec fn envelope_entries(es: Seq<(String, Json)>, acc: Option<FormParts>) -> Result<Option<FormParts>, Seq<char>>
    decreases es.len(),
{
    if es.len() == 0 {
        Ok(acc)
    } else if es[0].0@ == "control"@ {
        match form_spec(es[0].1) {
            Ok(f) => envelope_entries(es.drop_first(), Some(f)),
            Err(e) => Err(e),
        }
    } else {
        Err("unknown field `"@ + es[0].0@ + "`"@)
    }
}

pub open spec fn envelope_spec(v: Json) -> Result<FormParts, Seq<char>> {
    match v {
        Json::Object(es) => match envelope_entries(es@, None) {
            Err(e) => Err(e),
            Ok(None) => Err("missing field `control`"@),
            Ok(Some(f)) => Ok(f),
        },
        Json::Array(xs) => if xs@.len() == 0 {
            Err(envelope_array_length())
        } else {
            match form_spec(xs@[0]) {
                Err(e) => Err(e),
                Ok(f) => if xs@.len() > 1 { Err(envelope_array_length()) } else { Ok(f) },
            }
        },
        _ => Err("invalid type: expected an object with a `control` form"@),
    }
}

pub open spec fn envelope_array_length() -> Seq<char> {
    "invalid length: an envelope array holds exactly the `control` form"@
}

pub open spec fn nameless_message() -> Seq<char> {
    "the form has no `name` — every registration needs an operator handle"@
}

pub open spec fn unknown_domain_message(d: Seq<char>) -> Seq<char> {
    "unknown domain "@ + debug_str(d) + ": expected workflows | tools | connectors | secrets | scripts | triggers | policy"@
}

/// A policy tool spec `id@version`, split at the FIRST `@` (entries without one are skipped).
pub open spec fn tool_wires(ts: Seq<Seq<char>>) -> Seq<(Seq<char>, Seq<char>)>
    decreases ts.len(),
{
    if ts.len() == 0 {
        Seq::empty()
    } else {
        let t = ts[0];
        let rest = tool_wires(ts.drop_first());
        match first_index_of(t, '@') {
            Some(k) => seq![(t.take(k), t.skip(k + 1))] + rest,
            None => rest,
        }
    }
}

pub open spec fn wire_view(w: PolicyRoleToolWire) -> (Seq<char>, Seq<char>) {
    (w.tool_id@, w.tool_version@)
}

pub open spec fn wires_view(v: Seq<PolicyRoleToolWire>) -> Seq<(Seq<char>, Seq<char>)> {
    v.map_values(|w: PolicyRoleToolWire| wire_view(w))
}

pub open spec fn strings_view(v: Seq<String>) -> Seq<Seq<char>> {
    v.map_values(|s: String| s@)
}

pub open spec fn workflow_ok(p: ControlProposal, name: Seq<char>, f: Seq<(String, Json)>) -> bool {
    p matches ControlProposal::SaveWorkflow(w)
        && w.handle@ == name
        && w.envelope_json@ == crate::text::utf8_bytes(or_default(str_field(f, "envelope_json"@), ""@))
        && w.lifecycle@ == or_default(str_field(f, "lifecycle"@), ""@)
}

pub open spec fn tool_ok(p: ControlProposal, name: Seq<char>, f: Seq<(String, Json)>) -> bool {
    p matches ControlProposal::RegisterTool(t)
        && t.tool_name@ == name
        && t.tool_version@ == or_default(str_field(f, "tool_version"@), "1"@)
        && t.description@ == or_default(str_field(f, "description"@), ""@)
        && t.idempotency_class@ == or_default(str_field(f, "idempotency_class"@), "Token"@)
        && t.server_host@ == or_default(str_field(f, "server_host"@), ""@)
        && t.remote_name@ == or_default(str_field(f, "remote_name"@), ""@)
}

pub open spec fn connector_ok(p: ControlProposal, name: Seq<char>, f: Seq<(String, Json)>) -> bool {
    p matches ControlProposal::RegisterMcpServer(c)
        && c.server_name@ == name
        && c.transport@ == or_default(str_field(f, "transport"@), "http"@)
        && c.endpoint@ == or_default(str_field(f, "endpoint"@), ""@)
        && strings_view(c.args@) == (match strs_field(f, "args"@) { Some(a) => a, None => Seq::empty() })
        && c.tls_required == (match bool_field(f, "tls_required"@) { Some(b) => b, None => true })
        && c.credential_ref@ == or_default(str_field(f, "credential_ref"@), ""@)
        && c.session_mode@ == or_default(str_field(f, "session_mode"@), ""@)
}

pub open spec fn secret_ok(p: ControlProposal, name: Seq<char>, f: Seq<(String, Json)>) -> bool {
    p matches ControlProposal::PutSecret(x)
        && x.name@ == name
        && x.secret_scope@ == or_default(str_field(f, "secret_scope"@), ""@)
        && x.net_scope@ == or_default(str_field(f, "net_scope"@), ""@)
}

pub open spec fn script_ok(p: ControlProposal, name: Seq<char>, f: Seq<(String, Json)>) -> bool {
    p matches ControlProposal::RegisterScript(x)
        && x.script_name@ == name
        && x.script_version@ == or_default(str_field(f, "script_version"@), "1"@)
        && x.description@ == or_default(str_field(f, "description"@), ""@)
        && x.interpreter@ == or_default(str_field(f, "interpreter"@), ""@)
        && x.source@ == crate::text::utf8_bytes(or_default(str_field(f, "source"@), ""@))
        && x.fs_mounts@.len() == 0
        && strings_view(x.net_hosts@) == (match strs_field(f, "net_hosts"@) { Some(a) => a, None => Seq::empty() })
        && x.wall_clock_ms == (match u64_field(f, "wall_clock_ms"@) { Some(n) => n, None => 0 })
        && x.mem_bytes == 0
        && x.max_output_bytes == 0
}

pub open spec fn trigger_ok(p: ControlProposal, name: Seq<char>, f: Seq<(String, Json)>) -> bool {
    p matches ControlProposal::RegisterTrigger(t)
        && t.name@ == name
        && t.kind@ == or_default(str_field(f, "kind"@), "cron"@)
        && t.auth@ == or_default(str_field(f, "auth"@), "none"@)
        && t.auth_secret_ref@ == or_default(str_field(f, "auth_secret_ref"@), ""@)
        && t.schedule_spec@ == or_default(str_field(f, "schedule_spec"@), ""@)
        && t.timezone@ == or_default(str_field(f, "timezone"@), ""@)
        && t.enabled == (match bool_field(f, "enabled"@) { Some(b) => b, None => true })
        && t.require_approval == (match bool_field(f, "require_approval"@) { Some(b) => b, None => false })
        && t.recipe_handle@ == or_default(str_field(f, "recipe_handle"@), ""@)
        && t.app_handle@ == or_default(str_field(f, "app_handle"@), ""@)
        && t.workflow_handle@ == or_default(str_field(f, "workflow_handle"@), ""@)
}

/// A policy form naming a (non-blank) party ASSIGNS the role; otherwise it DEFINES the role.
pub open spec fn policy_ok(p: ControlProposal, name: Seq<char>, f: Seq<(String, Json)>) -> bool {
    match str_field(f, "party"@) {
        Some(party) if trim(party).len() > 0 => p matches ControlProposal::AssignPolicyRole { party: pp, role } && pp@ == party && role@ == name,
        _ => p matches ControlProposal::PutPolicyRole(r)
            && r.name@ == name
            && r.description@ == or_default(str_field(f, "description"@), ""@)
            && wires_view(r.tools@) == tool_wires(match strs_field(f, "tools"@) { Some(a) => a, None => Seq::empty() })
            && r.created_unix_ms == 0 && r.updated_unix_ms == 0,
    }
}

/// The proposal a well-formed form of a known `domain` decodes to.
pub open spec fn proposal_for(p: ControlProposal, domain: Seq<char>, name: Seq<char>, f: Seq<(String, Json)>) -> bool {
    if domain == "workflows"@ {
        workflow_ok(p, name, f)
    } else if domain == "tools"@ {
        tool_ok(p, name, f)
    } else if domain == "connectors"@ {
        connector_ok(p, name, f)
    } else if domain == "secrets"@ {
        secret_ok(p, name, f)
    } else if domain == "scripts"@ {
        script_ok(p, name, f)
    } else if domain == "triggers"@ {
        trigger_ok(p, name, f)
    } else {
        policy_ok(p, name, f)
    }
}

/// What decoding a parsed control form yields.
pub open spec fn decode_ok(v: Json, r: Result<ControlProposal, ControlDecodeError>) -> bool {
    match envelope_spec(v) {
        Err(d) => r matches Err(ControlDecodeError::Malformed(m)) && m@ == "not a valid control form: "@ + d,
        Ok(form) => {
            let name = trim(form.name);
            let domain = trim(form.domain);
            if name.len() == 0 {
                r matches Err(ControlDecodeError::Malformed(m)) && m@ == nameless_message()
            } else if first_forbidden(form.fields) is Some {
                r matches Err(ControlDecodeError::Forbidden(k)) && k@ == first_forbidden(form.fields)->0
            } else {
                match domain_schema(domain) {
                    None => r matches Err(ControlDecodeError::Malformed(m)) && m@ == unknown_domain_message(domain),
                    Some(schema) => match field_problem(schema, form.fields) {
                        Some(d) => r matches Err(ControlDecodeError::Malformed(m)) && m@ == "the requested domain form is not admissible: "@ + d,
                        None => r matches Ok(p) && proposal_for(p, domain, name, form.fields),
                    },
                }
            }
        },
    }
}


// ----- executable -----------------------------------------------------------------------------

pub open spec fn schema_view(v: Seq<(String, FieldType)>) -> Seq<(Seq<char>, FieldType)> {
    v.map_values(|e: (String, FieldType)| (e.0@, e.1))
}

fn entry(k: &str, t: FieldType) -> (r: (String, FieldType))
    ensures
        r.0@ == k@,
        r.1 == t,
{
    (String::from_str(k), t)
}

fn schema_of(d: &str) -> (r: Option<Vec<(String, FieldType)>>)
    ensures
        match domain_schema(d@) {
            Some(sc) => r matches Some(v) && schema_view(v@) == sc,
            None => r is None,
        },
{
    let v: Vec<(String, FieldType)> = if str_eq(d, "workflows") {
        vec![entry("envelope_json", FieldType::Str), entry("lifecycle", FieldType::Str)]
    } else if str_eq(d, "tools") {
        vec![entry("tool_version", FieldType::Str), entry("description", FieldType::Str), entry("idempotency_class", FieldType::Str),
            entry("server_host", FieldType::Str), entry("remote_name", FieldType::Str)]
    } else if str_eq(d, "connectors") {
        vec![entry("transport", FieldType::Str), entry("endpoint", FieldType::Str), entry("args", FieldType::StrList),
            entry("tls_required", FieldType::Bool), entry("credential_ref", FieldType::Str), entry("session_mode", FieldType::Str)]
    } else if str_eq(d, "secrets") {
        vec![entry("secret_scope", FieldType::Str), entry("net_scope", FieldType::Str)]
    } else if str_eq(d, "scripts") {
        vec![entry("script_version", FieldType::Str), entry("description", FieldType::Str), entry("interpreter", FieldType::Str),
            entry("source", FieldType::Str), entry("net_hosts", FieldType::StrList), entry("wall_clock_ms", FieldType::U64)]
    } else if str_eq(d, "triggers") {
        vec![entry("kind", FieldType::Str), entry("auth", FieldType::Str), entry("auth_secret_ref", FieldType::Str),
            entry("schedule_spec", FieldType::Str), entry("timezone", FieldType::Str), entry("enabled", FieldType::Bool),
            entry("require_approval", FieldType::Bool), entry("recipe_handle", FieldType::Str), entry("app_handle", FieldType::Str),
            entry("workflow_handle", FieldType::Str)]
    } else if str_eq(d, "policy") {
        vec![entry("description", FieldType::Str), entry("tools", FieldType::StrList), entry("party", FieldType::Str)]
    } else {
        return None;
    };
    assert(schema_view(v@) =~= domain_schema(d@)->0);
    Some(v)
}

fn schema_type_exec(schema: &[(String, FieldType)], k: &str) -> (r: Option<FieldType>)
    ensures
        r == schema_type(schema_view(schema@), k@),
{
    let ghost sv = schema_view(schema@);
    let mut i: usize = 0;
    assert(sv.skip(0) == sv);
    while i < schema.len()
        invariant
            i <= schema.len(),
            sv == schema_view(schema@),
            schema_type(sv, k@) == schema_type(sv.skip(i as int), k@),
        decreases schema.len() - i,
    {
        assert(sv.skip(i as int)[0] == (schema@[i as int].0@, schema@[i as int].1));
        assert(sv.skip(i as int).drop_first() == sv.skip(i + 1));
        if str_eq(schema[i].0.as_str(), k) {
            return Some(schema[i].1);
        }
        i = i + 1;
    }
    None
}

#[verifier::loop_isolation(false)]
fn fits_exec(v: &Json, t: FieldType) -> (r: bool)
    ensures
        r == fits(*v, t),
{
    match v {
        Json::Null => true,
        Json::Str(_) => t == FieldType::Str,
        Json::Bool(_) => t == FieldType::Bool,
        Json::Number(n) => t == FieldType::U64 && matches!(n, JsonNumber::UInt(_)),
        Json::Array(items) => {
            if t != FieldType::StrList {
                return false;
            }
            let mut i: usize = 0;
            while i < items.len()
                invariant
                    i <= items.len(),
                    forall|j: int| 0 <= j < i ==> #[trigger] items@[j] is Str,
                decreases items.len() - i,
            {
                match &items[i] {
                    Json::Str(_) => {},
                    _ => return false,
                }
                i = i + 1;
            }
            true
        },
        Json::Object(_) => false,
    }
}

fn quoted_field(pre: &str, k: &str) -> (r: String)
    ensures
        r@ == pre@ + k@ + "`"@,
{
    let mut m = String::from_str(pre);
    push_str(&mut m, k);
    push_str(&mut m, "`");
    m
}

fn field_problem_exec(schema: &[(String, FieldType)], fields: &[(String, Json)]) -> (r: Option<String>)
    ensures
        match field_problem(schema_view(schema@), fields@) {
            Some(d) => r matches Some(m) && m@ == d,
            None => r is None,
        },
{
    let ghost sv = schema_view(schema@);
    let mut i: usize = 0;
    assert(fields@.skip(0) == fields@);
    while i < fields.len()
        invariant
            i <= fields.len(),
            sv == schema_view(schema@),
            field_problem(sv, fields@) == field_problem(sv, fields@.skip(i as int)),
        decreases fields.len() - i,
    {
        assert(fields@.skip(i as int)[0] == fields@[i as int]);
        assert(fields@.skip(i as int).drop_first() == fields@.skip(i + 1));
        let k = fields[i].0.as_str();
        match schema_type_exec(schema, k) {
            None => return Some(quoted_field("unknown field `", k)),
            Some(t) => {
                if !fits_exec(&fields[i].1, t) {
                    return Some(quoted_field("invalid type for field `", k));
                }
            },
        }
        i = i + 1;
    }
    None
}

fn is_forbidden(k: &str) -> (r: bool)
    ensures
        r == forbidden_key(k@),
{
    str_eq(k, "value") || str_eq(k, "secret") || str_eq(k, "password") || str_eq(k, "token")
        || str_eq(k, "argv") || str_eq(k, "env")
}

fn first_forbidden_exec(fields: &[(String, Json)]) -> (r: Option<String>)
    ensures
        match first_forbidden(fields@) {
            Some(k) => r matches Some(m) && m@ == k,
            None => r is None,
        },
{
    let mut i: usize = 0;
    assert(fields@.skip(0) == fields@);
    while i < fields.len()
        invariant
            i <= fields.len(),
            first_forbidden(fields@) == first_forbidden(fields@.skip(i as int)),
        decreases fields.len() - i,
    {
        assert(fields@.skip(i as int)[0] == fields@[i as int]);
        assert(fields@.skip(i as int).drop_first() == fields@.skip(i + 1));
        if is_forbidden(fields[i].0.as_str()) {
            return Some(fields[i].0.clone());
        }
        i = i + 1;
    }
    None
}

fn field_value_exec<'a>(fields: &'a [(String, Json)], k: &str) -> (r: Option<&'a Json>)
    ensures
        match field_value(fields@, k@) {
            Some(v) => r matches Some(j) && *j == v,
            None => r is None,
        },
{
    let mut i = fields.len();
    assert(fields@.take(fields.len() as int) == fields@);
    while i > 0
        invariant
            i <= fields.len(),
            field_value(fields@, k@) == field_value(fields@.take(i as int), k@),
        decreases i,
    {
        assert(fields@.take(i as int).last() == fields@[i - 1]);
        assert(fields@.take(i as int).drop_last() == fields@.take(i - 1));
        if str_eq(fields[i - 1].0.as_str(), k) {
            return Some(&fields[i - 1].1);
        }
        i = i - 1;
    }
    None
}

fn str_or(fields: &[(String, Json)], k: &str, d: &str) -> (r: String)
    ensures
        r@ == or_default(str_field(fields@, k@), d@),
{
    match field_value_exec(fields, k) {
        Some(Json::Str(s)) => s.clone(),
        _ => String::from_str(d),
    }
}

fn bool_or(fields: &[(String, Json)], k: &str, d: bool) -> (r: bool)
    ensures
        r == (match bool_field(fields@, k@) { Some(b) => b, None => d }),
{
    match field_value_exec(fields, k) {
        Some(Json::Bool(b)) => *b,
        _ => d,
    }
}

fn strs_or_empty(fields: &[(String, Json)], k: &str) -> (r: Vec<String>)
    ensures
        strings_view(r@) == (match strs_field(fields@, k@) { Some(a) => a, None => Seq::empty() }),
{
    match field_value_exec(fields, k) {
        Some(Json::Array(items)) => {
            let mut out: Vec<String> = Vec::new();
            let mut i: usize = 0;
            while i < items.len()
                invariant
                    i <= items.len(),
                    strings_view(out@) == items@.take(i as int).map_values(|j: Json| match j { Json::Str(s) => s@, _ => Seq::<char>::empty() }),
                decreases items.len() - i,
            {
                let sv = match &items[i] {
                    Json::Str(s) => s.clone(),
                    _ => String::new(),
                };
                let ghost before = out@;
                out.push(sv);
                assert(items@.take(i + 1) == items@.take(i as int).push(items@[i as int]));
                assert(strings_view(out@) =~= strings_view(before).push(sv@));
                i = i + 1;
            }
            assert(items@.take(items.len() as int) == items@);
            out
        },
        _ => {
            let out: Vec<String> = Vec::new();
            assert(strings_view(out@) =~= Seq::<Seq<char>>::empty());
            out
        },
    }
}

fn bytes_of(s: String) -> (r: Vec<u8>)
    ensures
        r@ == crate::text::utf8_bytes(s@),
{
    s.as_str().as_bytes_vec()
}

/// Appending one spec extends the wires by that spec's wire (if it has one).
proof fn lemma_tool_wires_push(ts: Seq<Seq<char>>, t: Seq<char>)
    ensures
        tool_wires(ts.push(t)) == tool_wires(ts) + tool_wires(seq![t]),
    decreases ts.len(),
{
    if ts.len() == 0 {
        assert(ts.push(t) == seq![t]);
        assert(tool_wires(ts) == Seq::<(Seq<char>, Seq<char>)>::empty());
        assert(tool_wires(seq![t]) == Seq::<(Seq<char>, Seq<char>)>::empty() + tool_wires(seq![t]));
    } else {
        assert(ts.push(t).drop_first() == ts.drop_first().push(t));
        lemma_tool_wires_push(ts.drop_first(), t);
        assert(ts.push(t)[0] == ts[0]);
    }
}

fn tool_wires_exec(ts: &[String]) -> (r: Vec<PolicyRoleToolWire>)
    ensures
        wires_view(r@) == tool_wires(strings_view(ts@)),
{
    let ghost tv = strings_view(ts@);
    let mut out: Vec<PolicyRoleToolWire> = Vec::new();
    let mut i: usize = 0;
    assert(tv.take(0) == Seq::<Seq<char>>::empty());
    assert(wires_view(out@) =~= tool_wires(tv.take(0)));
    while i < ts.len()
        invariant
            i <= ts.len(),
            tv == strings_view(ts@),
            wires_view(out@) == tool_wires(tv.take(i as int)),
        decreases ts.len() - i,
    {
        let t = ts[i].as_str();
        let tc = chars_of(t);
        proof {
            lemma_first_index_of(t@, '@');
            assert(tv[i as int] == t@);
            assert(tv.take(i + 1) == tv.take(i as int).push(t@));
            lemma_tool_wires_push(tv.take(i as int), t@);
            assert(seq![t@].drop_first() == Seq::<Seq<char>>::empty());
            assert(tool_wires(Seq::<Seq<char>>::empty()) == Seq::<(Seq<char>, Seq<char>)>::empty());
        }
        let ghost before = out@;
        match find_first(tc.as_slice(), '@') {
            Some(k) => {
                assert(k < tc.len());
                let w = PolicyRoleToolWire {
                    tool_id: string_of(&tc.as_slice()[0..k]),
                    tool_version: string_of(&tc.as_slice()[k + 1..tc.len()]),
                };
                assert(tc@.subrange(0, k as int) == t@.take(k as int));
                assert(tc@.subrange(k + 1, tc@.len() as int) == t@.skip(k + 1));
                out.push(w);
                assert(tool_wires(seq![t@]) == seq![(t@.take(k as int), t@.skip(k + 1))] + Seq::<(Seq<char>, Seq<char>)>::empty());
                assert(wires_view(out@) =~= wires_view(before).push(wire_view(w)));
            },
            None => {
                assert(tool_wires(seq![t@]) =~= Seq::<(Seq<char>, Seq<char>)>::empty());
            },
        }
        i = i + 1;
    }
    assert(tv.take(ts.len() as int) == tv);
    out
}


// ----- the envelope, executable ----------------------------------------------------------------

pub open spec fn opt_view(o: Option<&String>) -> Option<Seq<char>> {
    match o {
        Some(s) => Some(s@),
        None => None,
    }
}

pub open spec fn fields_view(o: Option<&Vec<(String, Json)>>) -> Seq<(String, Json)> {
    match o {
        Some(v) => v@,
        None => Seq::empty(),
    }
}

fn lit(s: &str) -> (r: String)
    ensures
        r@ == s@,
{
    String::from_str(s)
}

#[verifier::loop_isolation(false)]
fn form_exec<'a>(v: &'a Json) -> (r: Result<(&'a String, &'a String, Option<&'a Vec<(String, Json)>>), String>)
    ensures
        match form_spec(*v) {
            Ok(f) => r matches Ok((d, n, fs)) && d@ == f.domain && n@ == f.name && fields_view(fs) == f.fields,
            Err(e) => r matches Err(m) && m@ == e,
        },
{
    match v {
        Json::Object(es) => {
            let mut d: Option<&String> = None;
            let mut n: Option<&String> = None;
            let mut f: Option<&Vec<(String, Json)>> = None;
            let mut i: usize = 0;
            assert(es@.skip(0) == es@);
            while i < es.len()
                invariant
                    i <= es.len(),
                    form_entries(es@, (None, None, Seq::empty())) == form_entries(es@.skip(i as int), (opt_view(d), opt_view(n), fields_view(f))),
                decreases es.len() - i,
            {
                assert(es@.skip(i as int)[0] == es@[i as int]);
                assert(es@.skip(i as int).drop_first() == es@.skip(i + 1));
                let k = es[i].0.as_str();
                if str_eq(k, "domain") {
                    match &es[i].1 {
                        Json::Str(x) => { d = Some(x); },
                        _ => { return Err(lit("invalid type for field `domain`")); },
                    }
                } else if str_eq(k, "name") {
                    match &es[i].1 {
                        Json::Str(x) => { n = Some(x); },
                        _ => { return Err(lit("invalid type for field `name`")); },
                    }
                } else if str_eq(k, "fields") {
                    match &es[i].1 {
                        Json::Object(x) => { f = Some(x); },
                        _ => { return Err(lit("invalid type for field `fields`")); },
                    }
                } else {
                    return Err(quoted_field("unknown field `", k));
                }
                i = i + 1;
            }
            assert(es@.skip(i as int).len() == 0);
            match d {
                None => Err(lit("missing field `domain`")),
                Some(dd) => match n {
                    None => Err(lit("missing field `name`")),
                    Some(nn) => Ok((dd, nn, f)),
                },
            }
        },
        Json::Array(xs) => {
            if xs.len() == 0 {
                return Err(lit("invalid length: a control form array holds `domain`, `name` and optionally `fields`"));
            }
            let d = match &xs[0] {
                Json::Str(x) => x,
                _ => { return Err(lit("invalid type for field `domain`")); },
            };
            if xs.len() == 1 {
                return Err(lit("invalid length: a control form array holds `domain`, `name` and optionally `fields`"));
            }
            let n = match &xs[1] {
                Json::Str(x) => x,
                _ => { return Err(lit("invalid type for field `name`")); },
            };
            let mut f: Option<&Vec<(String, Json)>> = None;
            if xs.len() >= 3 {
                match &xs[2] {
                    Json::Object(x) => { f = Some(x); },
                    _ => { return Err(lit("invalid type for field `fields`")); },
                }
            }
            if xs.len() > 3 {
                return Err(lit("invalid length: a control form array holds `domain`, `name` and optionally `fields`"));
            }
            Ok((d, n, f))
        },
        _ => Err(lit("invalid type: expected a control form object")),
    }
}

#[verifier::loop_isolation(false)]
fn envelope_exec<'a>(v: &'a Json) -> (r: Result<(&'a String, &'a String, Option<&'a Vec<(String, Json)>>), String>)
    ensures
        match envelope_spec(*v) {
            Ok(f) => r matches Ok((d, n, fs)) && d@ == f.domain && n@ == f.name && fields_view(fs) == f.fields,
            Err(e) => r matches Err(m) && m@ == e,
        },
{
    match v {
        Json::Object(es) => {
            let mut acc: Option<(&String, &String, Option<&Vec<(String, Json)>>)> = None;
            let mut i: usize = 0;
            assert(es@.skip(0) == es@);
            while i < es.len()
                invariant
                    i <= es.len(),
                    envelope_entries(es@, None) == envelope_entries(es@.skip(i as int), match acc {
                        Some((d, n, fs)) => Some(FormParts { domain: d@, name: n@, fields: fields_view(fs) }),
                        None => None,
                    }),
                decreases es.len() - i,
            {
                assert(es@.skip(i as int)[0] == es@[i as int]);
                assert(es@.skip(i as int).drop_first() == es@.skip(i + 1));
                let k = es[i].0.as_str();
                if str_eq(k, "control") {
                    match form_exec(&es[i].1) {
                        Ok(parts) => { acc = Some(parts); },
                        Err(e) => { return Err(e); },
                    }
                } else {
                    return Err(quoted_field("unknown field `", k));
                }
                i = i + 1;
            }
            assert(es@.skip(i as int).len() == 0);
            match acc {
                None => Err(lit("missing field `control`")),
                Some(parts) => Ok(parts),
            }
        },
        Json::Array(xs) => {
            if xs.len() == 0 {
                return Err(lit("invalid length: an envelope array holds exactly the `control` form"));
            }
            let parts = form_exec(&xs[0])?;
            if xs.len() > 1 {
                return Err(lit("invalid length: an envelope array holds exactly the `control` form"));
            }
            Ok(parts)
        },
        _ => Err(lit("invalid type: expected an object with a `control` form")),
    }
}

fn malformed_with(pre: &str, d: &str) -> (r: ControlDecodeError)
    ensures
        r matches ControlDecodeError::Malformed(m) && m@ == pre@ + d@,
{
    let mut m = String::from_str(pre);
    push_str(&mut m, d);
    ControlDecodeError::Malformed(m)
}

fn workflow_exec(name: String, f: &[(String, Json)]) -> (r: ControlProposal)
    ensures
        workflow_ok(r, name@, f@),
{
    ControlProposal::SaveWorkflow(WorkflowSaveProposal {
        handle: name,
        envelope_json: bytes_of(str_or(f, "envelope_json", "")),
        lifecycle: str_or(f, "lifecycle", ""),
    })
}

fn tool_exec(name: String, f: &[(String, Json)]) -> (r: ControlProposal)
    ensures
        tool_ok(r, name@, f@),
{
    ControlProposal::RegisterTool(ToolProposal {
        tool_name: name,
        tool_version: str_or(f, "tool_version", "1"),
        description: str_or(f, "description", ""),
        idempotency_class: str_or(f, "idempotency_class", "Token"),
        server_host: str_or(f, "server_host", ""),
        remote_name: str_or(f, "remote_name", ""),
    })
}

fn connector_exec(name: String, f: &[(String, Json)]) -> (r: ControlProposal)
    ensures
        connector_ok(r, name@, f@),
{
    ControlProposal::RegisterMcpServer(ConnectorProposal {
        server_name: name,
        transport: str_or(f, "transport", "http"),
        endpoint: str_or(f, "endpoint", ""),
        args: strs_or_empty(f, "args"),
        tls_required: bool_or(f, "tls_required", true),
        credential_ref: str_or(f, "credential_ref", ""),
        session_mode: str_or(f, "session_mode", ""),
    })
}

fn secret_exec(name: String, f: &[(String, Json)]) -> (r: ControlProposal)
    ensures
        secret_ok(r, name@, f@),
{
    ControlProposal::PutSecret(SecretProposal {
        name,
        secret_scope: str_or(f, "secret_scope", ""),
        net_scope: str_or(f, "net_scope", ""),
    })
}

fn script_exec(name: String, f: &[(String, Json)]) -> (r: ControlProposal)
    ensures
        script_ok(r, name@, f@),
{
    let wall = match field_value_exec(f, "wall_clock_ms") {
        Some(Json::Number(JsonNumber::UInt(n))) => *n,
        _ => 0,
    };
    let mounts: Vec<String> = Vec::new();
    ControlProposal::RegisterScript(ScriptProposal {
        script_name: name,
        script_version: str_or(f, "script_version", "1"),
        description: str_or(f, "description", ""),
        interpreter: str_or(f, "interpreter", ""),
        source: bytes_of(str_or(f, "source", "")),
        fs_mounts: mounts,
        net_hosts: strs_or_empty(f, "net_hosts"),
        wall_clock_ms: wall,
        mem_bytes: 0,
        max_output_bytes: 0,
    })
}

fn trigger_exec(name: String, f: &[(String, Json)]) -> (r: ControlProposal)
    ensures
        trigger_ok(r, name@, f@),
{
    ControlProposal::RegisterTrigger(TriggerProposal {
        name,
        kind: str_or(f, "kind", "cron"),
        auth: str_or(f, "auth", "none"),
        auth_secret_ref: str_or(f, "auth_secret_ref", ""),
        schedule_spec: str_or(f, "schedule_spec", ""),
        timezone: str_or(f, "timezone", ""),
        enabled: bool_or(f, "enabled", true),
        require_approval: bool_or(f, "require_approval", false),
        recipe_handle: str_or(f, "recipe_handle", ""),
        app_handle: str_or(f, "app_handle", ""),
        workflow_handle: str_or(f, "workflow_handle", ""),
    })
}

fn policy_exec(name: String, f: &[(String, Json)]) -> (r: ControlProposal)
    ensures
        policy_ok(r, name@, f@),
{
    match field_value_exec(f, "party") {
        Some(Json::Str(p)) => {
            let pc = chars_of(p.as_str());
            if trim_chars(pc.as_slice()).len() > 0 {
                return ControlProposal::AssignPolicyRole { party: p.clone(), role: name };
            }
        },
        _ => {},
    }
    let specs = strs_or_empty(f, "tools");
    ControlProposal::PutPolicyRole(PolicyRoleRow {
        name,
        description: str_or(f, "description", ""),
        tools: tool_wires_exec(specs.as_slice()),
        created_unix_ms: 0,
        updated_unix_ms: 0,
    })
}

fn proposal_exec(domain: &str, name: String, f: &[(String, Json)]) -> (r: ControlProposal)
    ensures
        proposal_for(r, domain@, name@, f@),
{
    if str_eq(domain, "workflows") {
        workflow_exec(name, f)
    } else if str_eq(domain, "tools") {
        tool_exec(name, f)
    } else if str_eq(domain, "connectors") {
        connector_exec(name, f)
    } else if str_eq(domain, "secrets") {
        secret_exec(name, f)
    } else if str_eq(domain, "scripts") {
        script_exec(name, f)
    } else if str_eq(domain, "triggers") {
        trigger_exec(name, f)
    } else {
        policy_exec(name, f)
    }
}

/// Decodes a parsed control form into a proposal.
///
/// The envelope must be exactly `{"control": {"domain", "name", "fields"?}}`; a blank name is
/// refused; a forbidden key is refused by name before any per-domain check; an unknown domain
/// is refused with the list of known ones; a field the domain does not know, or of the wrong
/// type, is refused rather than dropped.
pub fn decode_control_value(v: &Json) -> (r: Result<ControlProposal, ControlDecodeError>)
    ensures
        decode_ok(*v, r),
{
    let (d, n, fo) = match envelope_exec(v) {
        Ok(parts) => parts,
        Err(e) => { return Err(malformed_with("not a valid control form: ", e.as_str())); },
    };
    let empty: Vec<(String, Json)> = Vec::new();
    let fields: &[(String, Json)] = match fo {
        Some(x) => x.as_slice(),
        None => empty.as_slice(),
    };
    assert(fields@ == fields_view(fo));
    let name = trim_string(n.as_str());
    let nc = chars_of(name.as_str());
    if nc.len() == 0 {
        return Err(ControlDecodeError::Malformed(lit("the form has no `name` — every registration needs an operator handle")));
    }
    match first_forbidden_exec(fields) {
        Some(k) => { return Err(ControlDecodeError::Forbidden(k)); },
        None => {},
    }
    let domain = trim_string(d.as_str());
    match schema_of(domain.as_str()) {
        None => {
            let mut m = lit("unknown domain ");
            let q = debug_quoted(domain.as_str());
            push_str(&mut m, q.as_str());
            push_str(&mut m, ": expected workflows | tools | connectors | secrets | scripts | triggers | policy");
            Err(ControlDecodeError::Malformed(m))
        },
        Some(schema) => match field_problem_exec(schema.as_slice(), fields) {
            Some(detail) => Err(malformed_with("the requested domain form is not admissible: ", detail.as_str())),
            None => Ok(proposal_exec(domain.as_str(), name, fields)),
        },
    }
}


// ----- bytes to form ---------------------------------------------------------------------------

/// A reply with its ```json fence (if any) removed: the trimmed text when it does not open a
/// fence; otherwise what lies after the opening fence (and an optional `json` tag), up to the
/// LAST closing fence, trimmed; with no closing fence, everything after the opening.
pub open spec fn strip_fence_spec(raw: Seq<char>) -> Seq<char> {
    let t = trim(raw);
    if !starts_with(t, "```"@) {
        t
    } else {
        let rest0 = t.skip(3);
        let rest = if starts_with(rest0, "json"@) { rest0.skip(4) } else { rest0 };
        let r2 = trim_start_char(rest, '\n');
        match rfind_substr(r2, "```"@) {
            Some(k) => trim(r2.take(k)),
            None => trim(rest),
        }
    }
}

pub fn strip_fence(raw: &[char]) -> (r: Vec<char>)
    ensures
        r@ == strip_fence_spec(raw@),
{
    proof {
        reveal_strlit("```");
        reveal_strlit("json");
    }
    let t = trim_chars(raw);
    let fence = chars_of("```");
    if !chars_start_with(t.as_slice(), fence.as_slice()) {
        return t;
    }
    let rest0 = &t.as_slice()[3..t.len()];
    assert(rest0@ == t@.skip(3));
    let tag = chars_of("json");
    let rest: &[char] = if chars_start_with(rest0, tag.as_slice()) {
        let x = &rest0[4..rest0.len()];
        assert(x@ == rest0@.skip(4));
        x
    } else {
        rest0
    };
    let lead = count_leading(rest, '\n');
    let r2 = &rest[lead..rest.len()];
    assert(r2@ == trim_start_char(rest@, '\n'));
    match rfind_str(r2, fence.as_slice()) {
        Some(k) => {
            proof { lemma_rfind_substr(r2@, fence@); }
            let body = &r2[0..k];
            assert(body@ == r2@.take(k as int));
            trim_chars(body)
        },
        None => trim_chars(rest),
    }
}

/// `std::str::from_utf8`: `Some` exactly when the bytes are valid UTF-8, with the characters
/// they encode.
#[verifier::external_body]
pub(crate) fn utf8_text(bytes: &[u8]) -> (r: Option<&str>)
    ensures
        r is Some <==> valid_utf8(bytes@),
        r matches Some(s) ==> s@ == decode_utf8(bytes@),
{
    std::str::from_utf8(bytes).ok()
}

#[verifier::external_type_specification]
#[verifier::external_body]
pub struct ExJsonValue(serde_json::Value);

/// What `serde_json` parses `text` into: the value, with numbers read as `u64` where they fit,
/// or the parser's error message.
pub uninterp spec fn json_parse(text: Seq<char>) -> Result<Json, Seq<char>>;

/// A `serde_json::Value` as a [`Json`], node for node (objects in the map's own order).
#[verifier::external_body]
fn json_of_value(v: serde_json::Value) -> Json {
    match v {
        serde_json::Value::Null => Json::Null,
        serde_json::Value::Bool(b) => Json::Bool(b),
        serde_json::Value::Number(n) => Json::Number(match n.as_u64() { Some(u) => JsonNumber::UInt(u), None => JsonNumber::Other }),
        serde_json::Value::String(s) => Json::Str(s),
        serde_json::Value::Array(a) => Json::Array(a.into_iter().map(json_of_value).collect()),
        serde_json::Value::Object(m) => Json::Object(m.into_iter().map(|(k, x)| (k, json_of_value(x))).collect()),
    }
}

/// Whether every object in `j`, at any depth, lists its keys in strictly ascending order (the
/// order of a `serde_json` map, a `BTreeMap` keyed by `String`: byte order, which for UTF-8 is
/// code-point order).
pub open spec fn keys_ascending(j: Json) -> bool
    decreases j,
{
    match j {
        Json::Object(es) => {
            &&& forall|a: int, b: int| 0 <= a < b < es@.len() ==> seq_lt(#[trigger] es@[a].0@, #[trigger] es@[b].0@)
            &&& forall|i: int| 0 <= i < es@.len() ==> keys_ascending(#[trigger] es@[i].1)
        },
        Json::Array(xs) => forall|i: int| 0 <= i < xs@.len() ==> keys_ascending(#[trigger] xs@[i]),
        _ => true,
    }
}

/// `serde_json::from_str::<serde_json::Value>`, converted to a [`Json`]; the error is the
/// parser's `Display` text. The contract names the result (`json_parse`) and states what the
/// map type gives: every object's keys come out unique and in ascending order. The JSON grammar
/// itself is not restated here.
#[verifier::external_body]
pub(crate) fn parse_json(text: &str) -> (r: Result<Json, String>)
    ensures
        match r {
            Ok(j) => json_parse(text@) == Ok::<Json, Seq<char>>(j) && keys_ascending(j),
            Err(e) => json_parse(text@) == Err::<Json, Seq<char>>(e@),
        },
{
    match serde_json::from_str::<serde_json::Value>(text) {
        Ok(v) => Ok(json_of_value(v)),
        Err(e) => Err(e.to_string()),
    }
}

/// What decoding the bytes of a model reply yields.
pub open spec fn decode_bytes_ok(bytes: Seq<u8>, r: Result<ControlProposal, ControlDecodeError>) -> bool {
    if bytes.len() > MAX_CONTROL_BYTES {
        r == Err::<ControlProposal, ControlDecodeError>(ControlDecodeError::Oversize { got: bytes.len() as usize })
    } else if !valid_utf8(bytes) {
        r == Err::<ControlProposal, ControlDecodeError>(ControlDecodeError::NotUtf8)
    } else {
        match json_parse(strip_fence_spec(decode_utf8(bytes))) {
            Err(e) => r matches Err(ControlDecodeError::Malformed(m)) && m@ == "not a valid control form: "@ + e,
            Ok(v) => decode_ok(v, r),
        }
    }
}

/// Decodes model bytes into a typed proposal: the byte cap first, then UTF-8, then a leading
/// code fence is stripped, the JSON parsed, and the form decoded by [`decode_control_value`].
pub fn decode_control(bytes: &[u8]) -> (r: Result<ControlProposal, ControlDecodeError>)
    ensures
        decode_bytes_ok(bytes@, r),
        bytes@.len() <= MAX_CONTROL_BYTES && valid_utf8(bytes@) ==> (json_parse(strip_fence_spec(decode_utf8(bytes@))) matches Ok(v) ==> keys_ascending(v)),
{
    if bytes.len() > MAX_CONTROL_BYTES {
        return Err(ControlDecodeError::Oversize { got: bytes.len() });
    }
    let raw = match utf8_text(bytes) {
        Some(t) => t,
        None => { return Err(ControlDecodeError::NotUtf8); },
    };
    let rc = chars_of(raw);
    let stripped = strip_fence(rc.as_slice());
    let text = string_of(stripped.as_slice());
    match parse_json(text.as_str()) {
        Err(e) => Err(malformed_with("not a valid control form: ", e.as_str())),
        Ok(v) => decode_control_value(&v),
    }
}

/// A reply fenced as a `json` code block around `s`.
pub open spec fn fenced(s: Seq<char>) -> Seq<char> {
    "```json\n"@ + s + "\n```"@
}

proof fn lemma_strip_fenced(s: Seq<char>)
    requires
        !starts_with(trim(s), "```"@),
    ensures
        strip_fence_spec(fenced(s)) == strip_fence_spec(s),
{
    reveal_strlit("```json\n");
    reveal_strlit("\n```");
    reveal_strlit("```");
    reveal_strlit("json");
    reveal_strlit("json\n");
    reveal_strlit("\n");
    let f = fenced(s);
    // The fenced text is already trimmed: it begins and ends with a backtick.
    assert(f[0] == '`');
    assert(f.last() == '`');
    assert(!is_ws(f[0]));
    assert(!is_ws(f.last()));
    assert(lead_ws(f) == 0);
    assert(f.skip(0) =~= f);
    assert(trail_ws(f) == 0);
    assert(trim(f) =~= f);
    assert(starts_with(f, "```"@)) by {
        assert(f.take(3) =~= "```"@);
    }
    let rest0 = f.skip(3);
    assert(rest0 =~= "json\n"@ + s + "\n```"@);
    assert(starts_with(rest0, "json"@)) by {
        assert(rest0.take(4) =~= "json"@);
    }
    let rest = rest0.skip(4);
    let m = "\n"@ + s + "\n"@;
    assert(rest =~= m + "```"@);
    lemma_leading_count(rest, '\n');
    let c = leading_count(rest, '\n') as int;
    assert(rest[m.len() as int] == '`');
    assert(c <= m.len()) by {
        if c > m.len() {
            assert(rest[m.len() as int] == '\n');
        }
    }
    let r2 = trim_start_char(rest, '\n');
    assert(r2 =~= m.skip(c) + "```"@);
    assert(starts_with(r2.skip(r2.len() - 3), "```"@)) by {
        assert(r2.skip(r2.len() - 3).take(3) =~= "```"@);
    }
    assert(rfind_substr(r2, "```"@) == Some(r2.len() - 3));
    assert(r2.take(r2.len() - 3) =~= m.skip(c));
    // Leading newlines and the closing newline are whitespace, so trimming removes them.
    let w = m.take(c);
    assert(all_ws(w)) by {
        assert forall|i: int| 0 <= i < w.len() implies is_ws(#[trigger] w[i]) by {
            assert(w[i] == rest[i]);
        }
    }
    assert(m =~= w + m.skip(c));
    lemma_trim_ws_prefix(w, m.skip(c));
    assert(all_ws("\n"@)) by {
        assert forall|i: int| 0 <= i < ("\n"@).len() implies is_ws(#[trigger] ("\n"@)[i]) by {
            assert(("\n"@)[i] == '\n');
        }
    }
    lemma_trim_ws_prefix("\n"@, s + "\n"@);
    lemma_trim_ws_suffix(s, "\n"@);
    assert(m =~= "\n"@ + (s + "\n"@));
}

/// Law: a reply fenced as a `json` code block decodes exactly like the bare reply — the same
/// proposal or the same refusal — when the bare text does not itself begin with a fence and
/// the fenced reply is within the byte cap.
pub proof fn law_a_fenced_reply_decodes_like_the_bare_one(s: Seq<char>, r: Result<ControlProposal, ControlDecodeError>)
    requires
        !starts_with(trim(s), "```"@),
        encode_utf8(fenced(s)).len() <= MAX_CONTROL_BYTES,
    ensures
        decode_bytes_ok(encode_utf8(fenced(s)), r) <==> decode_bytes_ok(encode_utf8(s), r),
{
    lemma_strip_fenced(s);
    crate::text::lemma_encode_concat("```json\n"@ + s, "\n```"@);
    crate::text::lemma_encode_concat("```json\n"@, s);
    encode_utf8_valid_utf8(fenced(s));
    encode_utf8_valid_utf8(s);
    encode_utf8_decode_utf8(fenced(s));
    encode_utf8_decode_utf8(s);
}

/// Whether an object's entries have strictly ascending keys.
pub open spec fn entries_ascending(es: Seq<(String, Json)>) -> bool {
    forall|a: int, b: int| 0 <= a < b < es.len() ==> seq_lt(#[trigger] es[a].0@, #[trigger] es[b].0@)
}

proof fn lemma_form_entries_sorted(es: Seq<(String, Json)>, acc: (Option<Seq<char>>, Option<Seq<char>>, Seq<(String, Json)>))
    requires
        forall|i: int| 0 <= i < es.len() ==> keys_ascending(#[trigger] es[i].1),
        entries_ascending(acc.2),
    ensures
        form_entries(es, acc) matches Ok(t) ==> entries_ascending(t.2),
    decreases es.len(),
{
    if es.len() > 0 {
        let t = es.drop_first();
        assert forall|i: int| 0 <= i < t.len() implies keys_ascending(#[trigger] t[i].1) by {
            assert(t[i] == es[i + 1]);
        }
        assert(keys_ascending(es[0].1));
        match es[0].1 {
            Json::Str(d) => {
                lemma_form_entries_sorted(t, (Some(d@), acc.1, acc.2));
                lemma_form_entries_sorted(t, (acc.0, Some(d@), acc.2));
            },
            Json::Object(f) => {
                lemma_form_entries_sorted(t, (acc.0, acc.1, f@));
            },
            _ => {},
        }
    }
}

proof fn lemma_form_sorted(v: Json)
    requires
        keys_ascending(v),
    ensures
        form_spec(v) matches Ok(f) ==> entries_ascending(f.fields),
{
    match v {
        Json::Object(fes) => {
            assert forall|i: int| 0 <= i < fes@.len() implies keys_ascending(#[trigger] fes@[i].1) by {}
            lemma_form_entries_sorted(fes@, (None, None, Seq::empty()));
        },
        Json::Array(xs) => {
            if xs@.len() == 3 {
                assert(keys_ascending(xs@[2]));
            }
        },
        _ => {},
    }
}

proof fn lemma_envelope_entries_sorted(es: Seq<(String, Json)>, acc: Option<FormParts>)
    requires
        forall|i: int| 0 <= i < es.len() ==> keys_ascending(#[trigger] es[i].1),
        acc matches Some(f) ==> entries_ascending(f.fields),
    ensures
        envelope_entries(es, acc) matches Ok(Some(f)) ==> entries_ascending(f.fields),
    decreases es.len(),
{
    if es.len() > 0 {
        let t = es.drop_first();
        assert forall|i: int| 0 <= i < t.len() implies keys_ascending(#[trigger] t[i].1) by {
            assert(t[i] == es[i + 1]);
        }
        let v = es[0].1;
        assert(keys_ascending(v));
        lemma_form_sorted(v);
        match form_spec(v) {
            Ok(f) => lemma_envelope_entries_sorted(t, Some(f)),
            Err(_) => {},
        }
    }
}

proof fn lemma_first_forbidden_least(fields: Seq<(String, Json)>)
    requires
        entries_ascending(fields),
    ensures
        first_forbidden(fields) is None <==> forall|j: int| 0 <= j < fields.len() ==> !forbidden_key(#[trigger] fields[j].0@),
        first_forbidden(fields) matches Some(k) ==> forbidden_key(k)
            && (exists|i: int| 0 <= i < fields.len() && fields[i].0@ == k)
            && forall|j: int| 0 <= j < fields.len() && forbidden_key(#[trigger] fields[j].0@) ==> k == fields[j].0@ || seq_lt(k, fields[j].0@),
    decreases fields.len(),
{
    if fields.len() > 0 {
        let t = fields.drop_first();
        assert forall|a: int, b: int| 0 <= a < b < t.len() implies seq_lt(#[trigger] t[a].0@, #[trigger] t[b].0@) by {
            assert(t[a] == fields[a + 1] && t[b] == fields[b + 1]);
        }
        lemma_first_forbidden_least(t);
        if forbidden_key(fields[0].0@) {
            let k = fields[0].0@;
            assert forall|j: int| 0 <= j < fields.len() && forbidden_key(#[trigger] fields[j].0@) implies k == fields[j].0@ || seq_lt(k, fields[j].0@) by {
                if j > 0 {
                    assert(seq_lt(fields[0].0@, fields[j].0@));
                }
            }
        } else {
            if first_forbidden(t) is None {
                assert forall|j: int| 0 <= j < fields.len() implies !forbidden_key(#[trigger] fields[j].0@) by {
                    if j > 0 {
                        assert(fields[j] == t[j - 1]);
                    }
                }
            } else {
                let k = first_forbidden(t)->0;
                let i = choose|i: int| 0 <= i < t.len() && t[i].0@ == k;
                assert(fields[i + 1] == t[i]);
                assert forall|j: int| 0 <= j < fields.len() && forbidden_key(#[trigger] fields[j].0@) implies k == fields[j].0@ || seq_lt(k, fields[j].0@) by {
                    if j > 0 {
                        assert(fields[j] == t[j - 1]);
                    }
                }
            }
        }
    }
}

/// Law: whatever the domain, a named form that carries forbidden keys is refused by the LEAST
/// of them in key order (the parser hands objects over with their keys ascending, so the first
/// forbidden key met is the least one).
pub proof fn law_the_least_forbidden_key_is_refused(v: Json, r: Result<ControlProposal, ControlDecodeError>)
    requires
        keys_ascending(v),
        decode_ok(v, r),
        envelope_spec(v) matches Ok(form) && trim(form.name).len() > 0
            && exists|i: int| 0 <= i < form.fields.len() && forbidden_key(#[trigger] form.fields[i].0@),
    ensures
        envelope_spec(v) matches Ok(form) && (r matches Err(ControlDecodeError::Forbidden(k)) && forbidden_key(k@)
            && (exists|i: int| 0 <= i < form.fields.len() && form.fields[i].0@ == k@)
            && forall|j: int| 0 <= j < form.fields.len() && forbidden_key(#[trigger] form.fields[j].0@) ==> k@ == form.fields[j].0@ || seq_lt(k@, form.fields[j].0@)),
{
    match v {
        Json::Object(es) => {
            assert forall|i: int| 0 <= i < es@.len() implies keys_ascending(#[trigger] es@[i].1) by {}
            lemma_envelope_entries_sorted(es@, None);
        },
        Json::Array(xs) => {
            assert(keys_ascending(xs@[0]));
            lemma_form_sorted(xs@[0]);
        },
        _ => {},
    }
    let form = envelope_spec(v)->Ok_0;
    lemma_first_forbidden_least(form.fields);
    let i = choose|i: int| 0 <= i < form.fields.len() && forbidden_key(#[trigger] form.fields[i].0@);
    assert(!forall|j: int| 0 <= j < form.fields.len() ==> !forbidden_key(#[trigger] form.fields[j].0@));
}

// ----- laws: each proposal field comes from the form field of the same name -------------------

/// The text the form's field `key` holds, or `d` when it is absent, null or not a string.
pub open spec fn form_text(f: Seq<(String, Json)>, key: Seq<char>, d: Seq<char>) -> Seq<char> {
    match field_value(f, key) {
        Some(Json::Str(s)) => s@,
        _ => d,
    }
}

/// The flag the form's field `key` holds, or `d` when it is absent, null or not a boolean.
pub open spec fn form_flag(f: Seq<(String, Json)>, key: Seq<char>, d: bool) -> bool {
    match field_value(f, key) {
        Some(Json::Bool(b)) => b,
        _ => d,
    }
}

/// The form of a decoded value in domain `domain` that decoded successfully.
pub open spec fn decoded_in(v: Json, r: Result<ControlProposal, ControlDecodeError>, domain: Seq<char>) -> bool {
    &&& decode_ok(v, r)
    &&& r is Ok
    &&& envelope_spec(v) matches Ok(form) && trim(form.domain) == domain
}

proof fn lemma_domains_distinct()
    ensures
        "secrets"@ != "workflows"@ && "secrets"@ != "tools"@ && "secrets"@ != "connectors"@,
        "tools"@ != "workflows"@,
        "connectors"@ != "workflows"@ && "connectors"@ != "tools"@,
        "triggers"@ != "workflows"@ && "triggers"@ != "tools"@ && "triggers"@ != "connectors"@
            && "triggers"@ != "secrets"@ && "triggers"@ != "scripts"@,
        "scripts"@ != "workflows"@ && "scripts"@ != "tools"@ && "scripts"@ != "connectors"@ && "scripts"@ != "secrets"@,
        "policy"@ != "workflows"@ && "policy"@ != "tools"@ && "policy"@ != "connectors"@ && "policy"@ != "secrets"@
            && "policy"@ != "scripts"@ && "policy"@ != "triggers"@,
{
    reveal_strlit("secrets");
    reveal_strlit("workflows");
    reveal_strlit("tools");
    reveal_strlit("connectors");
    reveal_strlit("triggers");
    reveal_strlit("scripts");
    assert(("secrets"@).len() == 7 && ("workflows"@).len() == 9 && ("tools"@).len() == 5);
    assert(("connectors"@).len() == 10 && ("triggers"@).len() == 8 && ("scripts"@).len() == 7);
    reveal_strlit("policy");
    assert(("policy"@).len() == 6);
    assert(("scripts"@)[1] != ("secrets"@)[1]);
}

/// Law: a `secrets` form decodes field for field — the proposal's `secret_scope` is the form's
/// `secret_scope` and its `net_scope` the form's `net_scope` (each empty when absent), and it is
/// named by the trimmed form name.
pub proof fn law_a_secret_form_decodes_field_for_field(v: Json, r: Result<ControlProposal, ControlDecodeError>)
    requires
        decoded_in(v, r, "secrets"@),
    ensures
        r matches Ok(ControlProposal::PutSecret(x)) && ({
            let form = envelope_spec(v)->Ok_0;
            &&& x.name@ == trim(form.name)
            &&& x.secret_scope@ == form_text(form.fields, "secret_scope"@, ""@)
            &&& x.net_scope@ == form_text(form.fields, "net_scope"@, ""@)
        }),
{
    lemma_domains_distinct();
}

/// Law: a `tools` form decodes field for field (version `1` and idempotency class `Token` by
/// default, the rest empty).
pub proof fn law_a_tool_form_decodes_field_for_field(v: Json, r: Result<ControlProposal, ControlDecodeError>)
    requires
        decoded_in(v, r, "tools"@),
    ensures
        r matches Ok(ControlProposal::RegisterTool(t)) && ({
            let form = envelope_spec(v)->Ok_0;
            &&& t.tool_name@ == trim(form.name)
            &&& t.tool_version@ == form_text(form.fields, "tool_version"@, "1"@)
            &&& t.description@ == form_text(form.fields, "description"@, ""@)
            &&& t.idempotency_class@ == form_text(form.fields, "idempotency_class"@, "Token"@)
            &&& t.server_host@ == form_text(form.fields, "server_host"@, ""@)
            &&& t.remote_name@ == form_text(form.fields, "remote_name"@, ""@)
        }),
{
    lemma_domains_distinct();
}

/// Law: a `connectors` form decodes field for field (transport `http` and TLS required by
/// default, the rest empty).
pub proof fn law_a_connector_form_decodes_field_for_field(v: Json, r: Result<ControlProposal, ControlDecodeError>)
    requires
        decoded_in(v, r, "connectors"@),
    ensures
        r matches Ok(ControlProposal::RegisterMcpServer(c)) && ({
            let form = envelope_spec(v)->Ok_0;
            &&& c.server_name@ == trim(form.name)
            &&& c.transport@ == form_text(form.fields, "transport"@, "http"@)
            &&& c.endpoint@ == form_text(form.fields, "endpoint"@, ""@)
            &&& c.tls_required == form_flag(form.fields, "tls_required"@, true)
            &&& c.credential_ref@ == form_text(form.fields, "credential_ref"@, ""@)
            &&& c.session_mode@ == form_text(form.fields, "session_mode"@, ""@)
        }),
{
    lemma_domains_distinct();
}

/// Law: a `triggers` form decodes field for field (kind `cron`, auth `none`, enabled, no
/// approval by default, the rest empty).
pub proof fn law_a_trigger_form_decodes_field_for_field(v: Json, r: Result<ControlProposal, ControlDecodeError>)
    requires
        decoded_in(v, r, "triggers"@),
    ensures
        r matches Ok(ControlProposal::RegisterTrigger(t)) && ({
            let form = envelope_spec(v)->Ok_0;
            &&& t.name@ == trim(form.name)
            &&& t.kind@ == form_text(form.fields, "kind"@, "cron"@)
            &&& t.auth@ == form_text(form.fields, "auth"@, "none"@)
            &&& t.auth_secret_ref@ == form_text(form.fields, "auth_secret_ref"@, ""@)
            &&& t.schedule_spec@ == form_text(form.fields, "schedule_spec"@, ""@)
            &&& t.timezone@ == form_text(form.fields, "timezone"@, ""@)
            &&& t.enabled == form_flag(form.fields, "enabled"@, true)
            &&& t.require_approval == form_flag(form.fields, "require_approval"@, false)
            &&& t.recipe_handle@ == form_text(form.fields, "recipe_handle"@, ""@)
            &&& t.app_handle@ == form_text(form.fields, "app_handle"@, ""@)
            &&& t.workflow_handle@ == form_text(form.fields, "workflow_handle"@, ""@)
        }),
{
    lemma_domains_distinct();
}

/// Law: a `workflows` form decodes field for field: the handle is the trimmed form name, the
/// envelope the UTF-8 bytes of the form's `envelope_json`, the lifecycle the form's `lifecycle`.
pub proof fn law_a_workflow_form_decodes_field_for_field(v: Json, r: Result<ControlProposal, ControlDecodeError>)
    requires
        decoded_in(v, r, "workflows"@),
    ensures
        r matches Ok(ControlProposal::SaveWorkflow(w)) && ({
            let form = envelope_spec(v)->Ok_0;
            &&& w.handle@ == trim(form.name)
            &&& w.envelope_json@ == encode_utf8(form_text(form.fields, "envelope_json"@, ""@))
            &&& w.lifecycle@ == form_text(form.fields, "lifecycle"@, ""@)
        }),
{
}

/// Law: a `scripts` form decodes field for field (version `1` by default), the source being the
/// UTF-8 bytes of the form's `source`; argv, env, mounts and the memory and output caps are never
/// taken from the form.
pub proof fn law_a_script_form_decodes_field_for_field(v: Json, r: Result<ControlProposal, ControlDecodeError>)
    requires
        decoded_in(v, r, "scripts"@),
    ensures
        r matches Ok(ControlProposal::RegisterScript(x)) && ({
            let form = envelope_spec(v)->Ok_0;
            &&& x.script_name@ == trim(form.name)
            &&& x.script_version@ == form_text(form.fields, "script_version"@, "1"@)
            &&& x.description@ == form_text(form.fields, "description"@, ""@)
            &&& x.interpreter@ == form_text(form.fields, "interpreter"@, ""@)
            &&& x.source@ == encode_utf8(form_text(form.fields, "source"@, ""@))
            &&& x.wall_clock_ms == (match field_value(form.fields, "wall_clock_ms"@) {
                Some(Json::Number(JsonNumber::UInt(n))) => n,
                _ => 0,
            })
            &&& x.fs_mounts@.len() == 0 && x.mem_bytes == 0 && x.max_output_bytes == 0
        }),
{
    lemma_domains_distinct();
}

/// Law: a `policy` form with a non-blank `party` assigns the role named by the form to that
/// party; otherwise it defines the role, with the form's `description`.
pub proof fn law_a_policy_form_assigns_or_defines(v: Json, r: Result<ControlProposal, ControlDecodeError>)
    requires
        decoded_in(v, r, "policy"@),
    ensures
        ({
            let form = envelope_spec(v)->Ok_0;
            let party = form_text(form.fields, "party"@, ""@);
            if trim(party).len() > 0 {
                r matches Ok(ControlProposal::AssignPolicyRole { party: pp, role }) && pp@ == party && role@ == trim(form.name)
            } else {
                r matches Ok(ControlProposal::PutPolicyRole(x)) && x.name@ == trim(form.name)
                    && x.description@ == form_text(form.fields, "description"@, ""@)
            }
        }),
{
    lemma_domains_distinct();
    reveal_strlit("");
    assert(""@ =~= Seq::<char>::empty());
    assert(trim(Seq::<char>::empty()).len() == 0);
}

} // verus!
