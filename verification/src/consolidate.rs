//! The read-only memory-consolidation tool (`consolidate@1`): decoding the arguments a model
//! proposes, the bundle request they make, and the observation committed back — the recent
//! (or most similar) memories as ordered `(ref, text)` entries within a byte budget, never a
//! score or a timestamp. A recoverable memory fault is an honest empty bundle; only an internal
//! fault fails the call.
use vstd::prelude::*;
use vstd::string::*;
use vstd::utf8::*;

use crate::console::json_string;
use crate::control::{json_parse, parse_json, utf8_text, Json, JsonNumber};
use crate::text::{
    chars_eq_ignore_case, chars_of, decimal, eq_ignore_case, from_utf8_lossy, hex_lower,
    hex_lower_spec, push_decimal, push_str, trim, trim_string, utf8_lossy,
};

verus! {

/// The default number of memories to bundle.
pub const DEFAULT_K: usize = 16;

/// The hard ceiling on the number of bundled memories.
pub const MAX_K: usize = 64;

/// The most content bytes a bundle carries (the first entry always rides).
pub const MAX_BUNDLE_BYTES: usize = 24576;

/// The arguments a model proposes.
#[derive(Debug, Clone, PartialEq, Eq)]
pub struct ConsolidateArgs {
    pub query: Option<String>,
    pub k: Option<u32>,
    pub kind_filter: Option<String>,
    pub window_hours: Option<u32>,
}

/// The arguments as plain values.
pub struct ArgsView {
    pub query: Option<Seq<char>>,
    pub k: Option<u32>,
    pub kind_filter: Option<Seq<char>>,
    pub window_hours: Option<u32>,
}

pub open spec fn opt_str(o: Option<String>) -> Option<Seq<char>> {
    match o {
        Some(s) => Some(s@),
        None => None,
    }
}

pub open spec fn args_view(a: ConsolidateArgs) -> ArgsView {
    ArgsView { query: opt_str(a.query), k: a.k, kind_filter: opt_str(a.kind_filter), window_hours: a.window_hours }
}

pub open spec fn no_args() -> ArgsView {
    ArgsView { query: None, k: None, kind_filter: None, window_hours: None }
}

pub open spec fn bad_args(m: Seq<char>) -> Seq<char> {
    "consolidate: bad args: "@ + m
}

pub open spec fn unknown_field_message(key: Seq<char>) -> Seq<char> {
    "unknown field `"@ + key + "`, expected one of `query`, `k`, `kind_filter`, `window_hours`"@
}

pub open spec fn wrong_type_message(key: Seq<char>, expected: Seq<char>) -> Seq<char> {
    "invalid type for `"@ + key + "`: expected "@ + expected
}

/// A string field: `null` is absent.
pub open spec fn str_field(key: Seq<char>, v: Json) -> Result<Option<Seq<char>>, Seq<char>> {
    match v {
        Json::Null => Ok(None),
        Json::Str(s) => Ok(Some(s@)),
        _ => Err(wrong_type_message(key, "a string"@)),
    }
}

/// A `u32` field: `null` is absent.
pub open spec fn u32_field(key: Seq<char>, v: Json) -> Result<Option<u32>, Seq<char>> {
    match v {
        Json::Null => Ok(None),
        Json::Number(JsonNumber::UInt(n)) => if n <= u32::MAX { Ok(Some(n as u32)) } else { Err(wrong_type_message(key, "an integer in 0..=4294967295"@)) },
        _ => Err(wrong_type_message(key, "an integer in 0..=4294967295"@)),
    }
}

/// One entry applied to the arguments read so far (a later entry for a key overrides).
pub open spec fn args_entry(acc: ArgsView, key: Seq<char>, v: Json) -> Result<ArgsView, Seq<char>> {
    if key == "query"@ {
        match str_field(key, v) { Ok(q) => Ok(ArgsView { query: q, ..acc }), Err(m) => Err(m) }
    } else if key == "k"@ {
        match u32_field(key, v) { Ok(k) => Ok(ArgsView { k: k, ..acc }), Err(m) => Err(m) }
    } else if key == "kind_filter"@ {
        match str_field(key, v) { Ok(f) => Ok(ArgsView { kind_filter: f, ..acc }), Err(m) => Err(m) }
    } else if key == "window_hours"@ {
        match u32_field(key, v) { Ok(w) => Ok(ArgsView { window_hours: w, ..acc }), Err(m) => Err(m) }
    } else {
        Err(unknown_field_message(key))
    }
}

/// The arguments an object's entries make, refused at the first entry that is unknown or of
/// the wrong type.
pub open spec fn args_from(es: Seq<(String, Json)>, acc: ArgsView) -> Result<ArgsView, Seq<char>>
    decreases es.len(),
{
    if es.len() == 0 {
        Ok(acc)
    } else {
        match args_entry(acc, es[0].0@, es[0].1) {
            Ok(a) => args_from(es.drop_first(), a),
            Err(m) => Err(m),
        }
    }
}

/// What a payload decodes to: UTF-8 JSON holding an object whose keys are among `query`,
/// `k`, `kind_filter`, `window_hours` (each may be `null`); anything else is refused, the
/// message prefixed `consolidate: bad args: `.
pub open spec fn args_spec(payload: Seq<u8>) -> Result<ArgsView, Seq<char>> {
    if !valid_utf8(payload) {
        Err(bad_args("invalid UTF-8"@))
    } else {
        match json_parse(decode_utf8(payload)) {
            Err(e) => Err(bad_args(e)),
            Ok(Json::Object(es)) => match args_from(es@, no_args()) {
                Ok(a) => Ok(a),
                Err(m) => Err(bad_args(m)),
            },
            Ok(_) => Err(bad_args("expected a JSON object"@)),
        }
    }
}

fn bad(m: &str) -> (r: String)
    ensures
        r@ == bad_args(m@),
{
    let mut s = String::from_str("consolidate: bad args: ");
    push_str(&mut s, m);
    s
}

fn wrong_type(key: &str, expected: &str) -> (r: String)
    ensures
        r@ == bad_args(wrong_type_message(key@, expected@)),
{
    let mut m = String::from_str("invalid type for `");
    push_str(&mut m, key);
    push_str(&mut m, "`: expected ");
    push_str(&mut m, expected);
    bad(m.as_str())
}

/// Decodes the arguments a model proposed (see [`args_spec`]).
pub fn decode_consolidate_args(payload: &[u8]) -> (r: Result<ConsolidateArgs, String>)
    ensures
        match args_spec(payload@) {
            Ok(a) => r matches Ok(x) && args_view(x) == a,
            Err(m) => r matches Err(e) && e@ == m,
        },
{
    let text = match utf8_text(payload) {
        Some(t) => t,
        None => return Err(bad("invalid UTF-8")),
    };
    let j = match parse_json(text) {
        Ok(j) => j,
        Err(e) => return Err(bad(e.as_str())),
    };
    let es = match &j {
        Json::Object(es) => es,
        _ => return Err(bad("expected a JSON object")),
    };
    let mut out = ConsolidateArgs { query: None, k: None, kind_filter: None, window_hours: None };
    let mut i: usize = 0;
    assert(es@.skip(0) == es@);
    while i < es.len()
        invariant
            i <= es.len(),
            args_spec(payload@) == (match args_from(es@, no_args()) { Ok(a) => Ok(a), Err(m) => Err(bad_args(m)) }),
            args_from(es@, no_args()) == args_from(es@.skip(i as int), args_view(out)),
        decreases es.len() - i,
    {
        assert(es@.skip(i as int)[0] == es@[i as int]);
        assert(es@.skip(i as int).drop_first() == es@.skip(i + 1));
        let key = es[i].0.as_str();
        let v = &es[i].1;
        proof {
            reveal_strlit("query");
            reveal_strlit("k");
            reveal_strlit("kind_filter");
            reveal_strlit("window_hours");
        }
        if crate::text::str_eq(key, "query") || crate::text::str_eq(key, "kind_filter") {
            let val: Option<String> = match v {
                Json::Null => None,
                Json::Str(s) => Some(s.clone()),
                _ => return Err(wrong_type(key, "a string")),
            };
            if crate::text::str_eq(key, "query") {
                out.query = val;
            } else {
                out.kind_filter = val;
            }
        } else if crate::text::str_eq(key, "k") || crate::text::str_eq(key, "window_hours") {
            let val: Option<u32> = match v {
                Json::Null => None,
                Json::Number(JsonNumber::UInt(n)) => {
                    if *n <= 4294967295u64 {
                        Some(*n as u32)
                    } else {
                        return Err(wrong_type(key, "an integer in 0..=4294967295"));
                    }
                },
                _ => return Err(wrong_type(key, "an integer in 0..=4294967295")),
            };
            if crate::text::str_eq(key, "k") {
                out.k = val;
            } else {
                out.window_hours = val;
            }
        } else {
            let mut m = String::from_str("unknown field `");
            push_str(&mut m, key);
            push_str(&mut m, "`, expected one of `query`, `k`, `kind_filter`, `window_hours`");
            return Err(bad(m.as_str()));
        }
        i = i + 1;
    }
    assert(es@.skip(es.len() as int).len() == 0);
    Ok(out)
}

// ----- the bundle request ---------------------------------------------------------------------

/// Which memories a bundle draws on.
#[derive(Debug, Clone, Copy, PartialEq, Eq, Structural)]
pub enum MemoryKind {
    Episodic,
    Semantic,
}

/// The `kind_filter` argument: absent means episodic (consolidation distills raw events);
/// `semantic` (any case, trimmed) means semantic; `any`, `all` or empty means every kind;
/// anything else falls back to episodic.
pub open spec fn kind_filter_spec(s: Option<Seq<char>>) -> Option<MemoryKind> {
    match s {
        None => Some(MemoryKind::Episodic),
        Some(x) => {
            let t = trim(x);
            if eq_ignore_case(t, "semantic"@) {
                Some(MemoryKind::Semantic)
            } else if eq_ignore_case(t, "any"@) || eq_ignore_case(t, "all"@) || t.len() == 0 {
                None
            } else {
                Some(MemoryKind::Episodic)
            }
        },
    }
}

pub fn parse_kind_filter(s: Option<&str>) -> (r: Option<MemoryKind>)
    ensures
        r == kind_filter_spec(match s { Some(x) => Some(x@), None => None }),
{
    match s {
        None => Some(MemoryKind::Episodic),
        Some(x) => {
            let t = trim_string(x);
            let tc = chars_of(t.as_str());
            let sem = chars_of("semantic");
            let any = chars_of("any");
            let all = chars_of("all");
            if chars_eq_ignore_case(tc.as_slice(), sem.as_slice()) {
                Some(MemoryKind::Semantic)
            } else if chars_eq_ignore_case(tc.as_slice(), any.as_slice()) || chars_eq_ignore_case(tc.as_slice(), all.as_slice()) || tc.len() == 0 {
                None
            } else {
                Some(MemoryKind::Episodic)
            }
        },
    }
}

/// What to ask the memory store for.
#[derive(Debug, Clone, PartialEq, Eq)]
pub struct BundleRequest {
    /// A non-empty similarity focus, if any (otherwise the most recent).
    pub query: Option<String>,
    /// How many memories, within `1..=MAX_K`.
    pub k: usize,
    /// `None` is every kind.
    pub kind: Option<MemoryKind>,
    /// `(from, to)` unix-ms: the last `window_hours` before `now`.
    pub window: Option<(i64, i64)>,
}

/// `now - hours` in ms, saturating at `i64::MIN`.
pub open spec fn window_start(now: i64, hours: u32) -> i64 {
    let s = now - hours * 3600000;
    if s < i64::MIN { i64::MIN } else { s as i64 }
}

/// The request the arguments make at wall-clock `now`.
pub fn consolidate_request(args: &ConsolidateArgs, now: i64) -> (r: BundleRequest)
    ensures
        opt_str(r.query) == (match args.query { Some(q) => if q@.len() > 0 { Some(q@) } else { None }, None => None::<Seq<char>> }),
        r.k == (match args.k { None => DEFAULT_K as int, Some(k) => if k < 1 { 1 } else if k > MAX_K { MAX_K as int } else { k as int } }),
        r.kind == kind_filter_spec(opt_str(args.kind_filter)),
        r.window == (match args.window_hours { Some(h) => Some((window_start(now, h), now)), None => None::<(i64, i64)> }),
{
    let k: usize = match args.k {
        None => DEFAULT_K,
        Some(k) => if k < 1 { 1 } else if k as usize > MAX_K { MAX_K } else { k as usize },
    };
    let kind = match &args.kind_filter {
        Some(f) => parse_kind_filter(Some(f.as_str())),
        None => parse_kind_filter(None),
    };
    let window = match args.window_hours {
        Some(h) => {
            let span: i64 = (h as i64) * 3600000;
            let start: i64 = if now < i64::MIN + span { i64::MIN } else { now - span };
            Some((start, now))
        },
        None => None,
    };
    let query = match &args.query {
        Some(q) => if chars_of(q.as_str()).len() > 0 { Some(q.clone()) } else { None },
        None => None,
    };
    BundleRequest { query, k, kind, window }
}

// ----- the observation ------------------------------------------------------------------------

/// One memory the store returned: its id and content.
#[derive(Debug, Clone, PartialEq, Eq)]
pub struct MemoryEntry {
    pub memory_id: [u8; 32],
    pub content: Vec<u8>,
}

/// One bundled memory: its content hash and its text. No score, no timestamp.
#[derive(Debug, Clone, PartialEq, Eq)]
pub struct Bundled {
    pub ref_hex: String,
    pub text: String,
}

/// The committed observation.
#[derive(Debug, Clone, PartialEq, Eq)]
pub struct Observation {
    pub focus: Option<String>,
    pub entries: Vec<Bundled>,
    pub count: usize,
    pub note: Option<String>,
}

/// How many entries fit the budget, and whether any were dropped: the running content total
/// may pass the budget only on the first entry.
pub open spec fn bundle_cut(entries: Seq<MemoryEntry>, used: nat, any: bool) -> (nat, bool)
    decreases entries.len(),
{
    if entries.len() == 0 {
        (0, false)
    } else {
        let u = used + entries[0].content@.len();
        if any && u > MAX_BUNDLE_BYTES {
            (0, true)
        } else {
            let (n, t) = bundle_cut(entries.drop_first(), u, true);
            (n + 1, t)
        }
    }
}

pub open spec fn total_content(entries: Seq<MemoryEntry>) -> nat
    decreases entries.len(),
{
    if entries.len() == 0 { 0 } else { entries[0].content@.len() + total_content(entries.drop_first()) }
}

pub open spec fn bundled_view(b: Bundled) -> (Seq<char>, Seq<char>) {
    (b.ref_hex@, b.text@)
}

pub open spec fn empty_note() -> Seq<char> {
    "no episodic memories to consolidate"@
}

pub open spec fn truncated_note() -> Seq<char> {
    "bundle truncated to fit the input window"@
}

pub open spec fn unavailable_note() -> Seq<char> {
    "no memories to consolidate (empty, stale, or no embedder)"@
}

proof fn lemma_cut_bound(entries: Seq<MemoryEntry>, used: nat, any: bool)
    ensures
        bundle_cut(entries, used, any).0 <= entries.len(),
    decreases entries.len(),
{
    if entries.len() > 0 {
        lemma_cut_bound(entries.drop_first(), used + entries[0].content@.len(), true);
    }
}

/// The bundle of `entries` (the store's order: most relevant or most recent first): the front
/// that fits [`MAX_BUNDLE_BYTES`] (at least one entry), each as its hex content hash and its
/// text (UTF-8, invalid sequences replaced), with a note when nothing or not everything fit.
pub fn bundle_observation(focus: Option<String>, entries: &[MemoryEntry]) -> (r: Observation)
    requires
        total_content(entries@) <= usize::MAX,
    ensures
        ({
            let (n, t) = bundle_cut(entries@, 0, false);
            &&& opt_str(r.focus) == opt_str(focus)
            &&& r.count == n && r.entries@.len() == n
            &&& forall|i: int| 0 <= i < n ==> bundled_view(#[trigger] r.entries@[i])
                == (hex_lower_spec(entries@[i].memory_id@), utf8_lossy(entries@[i].content@))
            &&& opt_str(r.note) == (if n == 0 { Some(empty_note()) } else if t { Some(truncated_note()) } else { None::<Seq<char>> })
        }),
{
    let mut out: Vec<Bundled> = Vec::new();
    let mut used: usize = 0;
    let mut truncated = false;
    let mut i: usize = 0;
    proof { lemma_cut_bound(entries@, 0, false); }
    assert(entries@.skip(0) == entries@);
    while i < entries.len()
        invariant_except_break
            !truncated,
            used as nat + total_content(entries@.skip(i as int)) <= total_content(entries@),
            bundle_cut(entries@, 0, false) == ({
                let (n, t) = bundle_cut(entries@.skip(i as int), used as nat, i > 0);
                ((n + i) as nat, t)
            }),
        invariant
            i <= entries.len(),
            out@.len() == i,
            total_content(entries@) <= usize::MAX,
            forall|j: int| 0 <= j < i ==> bundled_view(#[trigger] out@[j])
                == (hex_lower_spec(entries@[j].memory_id@), utf8_lossy(entries@[j].content@)),
        ensures
            ({
                let (n, t) = bundle_cut(entries@, 0, false);
                n == out@.len() && t == truncated
            }),
            forall|j: int| 0 <= j < out@.len() ==> bundled_view(#[trigger] out@[j])
                == (hex_lower_spec(entries@[j].memory_id@), utf8_lossy(entries@[j].content@)),
        decreases entries.len() - i,
    {
        let ghost rest = entries@.skip(i as int);
        assert(rest[0] == entries@[i as int]);
        assert(rest.drop_first() == entries@.skip(i + 1));
        let e = &entries[i];
        used = used + e.content.len();
        if out.len() > 0 && used > MAX_BUNDLE_BYTES {
            truncated = true;
            break;
        }
        out.push(Bundled { ref_hex: hex_lower(&e.memory_id), text: from_utf8_lossy(e.content.as_slice()) });
        i = i + 1;
    }
    proof {
        if i == entries.len() && !truncated {
            assert(entries@.skip(i as int).len() == 0);
        }
    }
    let count = out.len();
    let note = if count == 0 {
        Some(String::from_str("no episodic memories to consolidate"))
    } else if truncated {
        Some(String::from_str("bundle truncated to fit the input window"))
    } else {
        None
    };
    Observation { focus, entries: out, count, note }
}

// ----- encoding -------------------------------------------------------------------------------

/// `serde_json::to_string` of a `&str`: the quoted JSON string literal, with `"` and `\\`
/// escaped by a backslash, `\b \t \n \f \r` in their short forms, every other character below
/// U+0020 as `\u00XX` (lower-case hex), and everything else as it is. Serializing a string
/// cannot fail.
#[verifier::external_body]
pub(crate) fn json_quote(s: &str) -> (r: String)
    ensures
        r@ == json_string(s@),
{
    serde_json::to_string(s).unwrap_or_default()
}

/// The entries of a bundle of `es` cut at `n`.
pub open spec fn bundle_entries(es: Seq<MemoryEntry>, n: nat) -> Seq<(Seq<char>, Seq<char>)> {
    Seq::new(n, |i: int| (hex_lower_spec(es[i].memory_id@), utf8_lossy(es[i].content@)))
}

/// The note of a bundle of `n` entries, `t` when some were dropped.
pub open spec fn bundle_note(n: nat, t: bool) -> Option<Seq<char>> {
    if n == 0 { Some(empty_note()) } else if t { Some(truncated_note()) } else { None }
}

pub open spec fn entry_json(b: (Seq<char>, Seq<char>)) -> Seq<char> {
    "{\"ref\":"@ + json_string(b.0) + ",\"text\":"@ + json_string(b.1) + "}"@
}

/// The entries joined by commas.
pub open spec fn entries_json(bs: Seq<(Seq<char>, Seq<char>)>) -> Seq<char>
    decreases bs.len(),
{
    if bs.len() == 0 {
        Seq::empty()
    } else if bs.len() == 1 {
        entry_json(bs[0])
    } else {
        entries_json(bs.drop_last()) + ","@ + entry_json(bs.last())
    }
}

/// The observation as compact JSON with its fields in order (`focus` and `note` only when
/// present): `{"focus":..,"entries":[{"ref":..,"text":..},..],"count":N,"note":..}`.
pub open spec fn observation_text(focus: Option<Seq<char>>, bs: Seq<(Seq<char>, Seq<char>)>, count: nat, note: Option<Seq<char>>) -> Seq<char> {
    "{"@
        + (match focus { Some(f) => "\"focus\":"@ + json_string(f) + ","@, None => Seq::<char>::empty() })
        + "\"entries\":["@ + entries_json(bs) + "],\"count\":"@
        + decimal(count)
        + (match note { Some(n) => ",\"note\":"@ + json_string(n), None => Seq::<char>::empty() })
        + "}"@
}

pub open spec fn observation_json(o: Observation) -> Seq<char> {
    observation_text(opt_str(o.focus), o.entries@.map_values(|b: Bundled| bundled_view(b)), o.count as nat, opt_str(o.note))
}

/// The observation's committed bytes.
pub fn encode_observation(o: &Observation) -> (r: Vec<u8>)
    ensures
        r@ == encode_utf8(observation_json(*o)),
{
    let mut s = String::from_str("{");
    match &o.focus {
        Some(f) => {
            push_str(&mut s, "\"focus\":");
            let q = json_quote(f.as_str());
            push_str(&mut s, q.as_str());
            push_str(&mut s, ",");
        },
        None => {},
    }
    push_str(&mut s, "\"entries\":[");
    let ghost head = s@;
    let ghost bv = o.entries@.map_values(|b: Bundled| bundled_view(b));
    let mut i: usize = 0;
    while i < o.entries.len()
        invariant
            i <= o.entries.len(),
            bv == o.entries@.map_values(|b: Bundled| bundled_view(b)),
            s@ == head + entries_json(bv.take(i as int)),
        decreases o.entries.len() - i,
    {
        let ghost before = s@;
        if i > 0 {
            push_str(&mut s, ",");
        }
        push_str(&mut s, "{\"ref\":");
        let r = json_quote(o.entries[i].ref_hex.as_str());
        push_str(&mut s, r.as_str());
        push_str(&mut s, ",\"text\":");
        let t = json_quote(o.entries[i].text.as_str());
        push_str(&mut s, t.as_str());
        push_str(&mut s, "}");
        proof {
            let t1 = bv.take(i + 1);
            assert(t1.drop_last() == bv.take(i as int));
            assert(t1.last() == bv[i as int]);
            assert(bv[i as int] == bundled_view(o.entries@[i as int]));
            if i == 0 {
                assert(bv.take(0).len() == 0);
                assert(s@ =~= head + entries_json(t1));
            } else {
                assert(s@ =~= head + entries_json(t1));
            }
        }
        i = i + 1;
    }
    assert(bv.take(o.entries.len() as int) == bv);
    push_str(&mut s, "],\"count\":");
    crate::text::push_decimal(&mut s, o.count as u64);
    match &o.note {
        Some(n) => {
            push_str(&mut s, ",\"note\":");
            let q = json_quote(n.as_str());
            push_str(&mut s, q.as_str());
        },
        None => {},
    }
    push_str(&mut s, "}");
    proof {
        assert(s@ =~= observation_json(*o));
    }
    let b = s.as_str().as_bytes();
    let mut out: Vec<u8> = Vec::new();
    let mut k: usize = 0;
    while k < b.len()
        invariant
            k <= b.len(),
            out@ == b@.take(k as int),
        decreases b.len() - k,
    {
        out.push(b[k]);
        assert(b@.take(k + 1) == b@.take(k as int).push(b@[k as int]));
        k = k + 1;
    }
    assert(b@.take(b.len() as int) == b@);
    out
}

// ----- the outcome ----------------------------------------------------------------------------

/// How a memory-store read failed.
#[derive(Debug, Clone, PartialEq, Eq)]
pub enum MemoryFault {
    /// Not found, a dimension mismatch, no embedder, a stale index or a bad argument: the model
    /// reads an empty bundle and recovers.
    Recoverable,
    /// A backend fault: the call fails.
    Internal(String),
}

/// A memory-store read error.
#[derive(Debug, Clone, PartialEq, Eq)]
pub enum MemoryError {
    NotFound,
    DimMismatch(String),
    EmbedderUnavailable,
    StaleIndex(String),
    InvalidArgument(String),
    Internal(String),
}

/// How the tool treats a memory-store error: every one but a backend fault is recoverable.
pub fn memory_fault(e: MemoryError) -> (r: MemoryFault)
    ensures
        match e {
            MemoryError::Internal(d) => r matches MemoryFault::Internal(x) && x@ == d@,
            _ => r == MemoryFault::Recoverable,
        },
{
    match e {
        MemoryError::Internal(d) => MemoryFault::Internal(d),
        _ => MemoryFault::Recoverable,
    }
}

/// The tool's result for what the store returned: the bundle's bytes, an honest empty bundle
/// for a recoverable fault, or `consolidate: <detail>` for an internal one.
pub fn consolidate_outcome(focus: Option<String>, read: Result<Vec<MemoryEntry>, MemoryFault>) -> (r: Result<Vec<u8>, String>)
    requires
        read matches Ok(es) ==> total_content(es@) <= usize::MAX,
    ensures
        match read {
            Ok(es) => r matches Ok(b) && ({
                let (n, t) = bundle_cut(es@, 0, false);
                b@ == encode_utf8(observation_text(opt_str(focus), bundle_entries(es@, n), n, bundle_note(n, t)))
            }),
            Err(MemoryFault::Recoverable) => r matches Ok(b)
                && b@ == encode_utf8(observation_text(opt_str(focus), Seq::empty(), 0, Some(unavailable_note()))),
            Err(MemoryFault::Internal(d)) => r matches Err(m) && m@ == "consolidate: "@ + d@,
        },
{
    match read {
        Ok(es) => {
            let ghost f = opt_str(focus);
            let o = bundle_observation(focus, es.as_slice());
            let b = encode_observation(&o);
            proof {
                let (n, t) = bundle_cut(es@, 0, false);
                assert(o.entries@.map_values(|x: Bundled| bundled_view(x)) =~= bundle_entries(es@, n));
            }
            Ok(b)
        },
        Err(MemoryFault::Recoverable) => {
            let o = Observation { focus, entries: Vec::new(), count: 0, note: Some(String::from_str("no memories to consolidate (empty, stale, or no embedder)")) };
            let b = encode_observation(&o);
            assert(o.entries@.map_values(|x: Bundled| bundled_view(x)) =~= Seq::<(Seq<char>, Seq<char>)>::empty());
            Ok(b)
        },
        Err(MemoryFault::Internal(d)) => {
            let mut m = String::from_str("consolidate: ");
            push_str(&mut m, d.as_str());
            Err(m)
        },
    }
}

} // verus!
