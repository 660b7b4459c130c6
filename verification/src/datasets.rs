//! The dataset data-plane's decisions: which names are valid, what an ingest batch commits
//! (dimension, staleness, content-addressed dedup), how wide a search runs and which arms it
//! uses, how a stored row rebuilds into the in-memory state, and what each refusal says.
//!
//! The vectors, the ANN / keyword indices and the embedder are the caller's; only their
//! integer shape (lengths, refs, flags) reaches these functions.
use vstd::prelude::*;
use vstd::string::*;

use crate::text::{chars_of, decimal, push_decimal, push_str};

verus! {

/// The longest dataset name.
pub const MAX_NAME_LEN: usize = 128;

/// The server-side cap on a query's top-`k`.
pub const MAX_K: usize = 64;

/// The current index schema version.
pub const INDEX_VERSION: u32 = 1;

/// Why a dataset request failed.
#[derive(Debug, Clone, PartialEq, Eq)]
pub enum DatasetError {
    InvalidArgument(String),
    DimMismatch(String),
    StaleIndex(String),
    NotFound,
}

/// How a query retrieves.
#[derive(Debug, Clone, Copy, PartialEq, Eq, Structural)]
pub enum RetrievalMode {
    /// The operator's configured default.
    Default,
    Dense,
    Hybrid,
}

/// Operator retrieval tuning (from the serve's configuration, never chosen by a client).
#[derive(Debug, Clone, Copy, PartialEq, Eq)]
pub struct RagConfig {
    /// The largest chunk, in characters, a server-embed ingest cuts.
    pub chunk_max_chars: usize,
    /// How many characters consecutive chunks overlap.
    pub chunk_overlap_chars: usize,
    /// The per-document chunk cap (0: none).
    pub max_chunks_per_doc: usize,
    /// The mode a query that names none runs in.
    pub default_mode: RetrievalMode,
    /// The reciprocal-rank-fusion constant.
    pub rrf_k: u32,
    /// The relevance / diversity trade-off of the rerank, in basis points.
    pub mmr_lambda_bp: u32,
    /// Whether the diversity rerank runs.
    pub rerank: bool,
    /// Whether the keyword tokenizer drops the English stoplist.
    pub stopwords: bool,
}

// ----- names ----------------------------------------------------------------------------------

pub open spec fn name_char_ok(c: char) -> bool {
    ('a' <= c && c <= 'z') || ('A' <= c && c <= 'Z') || ('0' <= c && c <= '9') || c == '.' || c == '_' || c == '-'
}

pub open spec fn name_check(name: Seq<char>) -> Option<Seq<char>> {
    if name.len() == 0 || crate::text::blen(name) > MAX_NAME_LEN {
        Some("dataset name must be 1..=128 chars"@)
    } else if name == "."@ || name == ".."@ {
        Some("invalid dataset name"@)
    } else if !(forall|i: int| 0 <= i < name.len() ==> name_char_ok(#[trigger] name[i])) {
        Some("dataset name allows [A-Za-z0-9._-] only"@)
    } else {
        None
    }
}

/// A dataset name is a store key: 1 to 128 bytes, not `.` or `..`, and only `[A-Za-z0-9._-]`.
#[verifier::loop_isolation(false)]
pub fn validate_dataset_name(name: &str) -> (r: Result<(), DatasetError>)
    ensures
        match name_check(name@) {
            None => r is Ok,
            Some(m) => r matches Err(DatasetError::InvalidArgument(e)) && e@ == m,
        },
{
    let nc = chars_of(name);
    let blen = name.as_bytes().len();
    if nc.len() == 0 || blen > MAX_NAME_LEN {
        return Err(DatasetError::InvalidArgument(String::from_str("dataset name must be 1..=128 chars")));
    }
    if crate::text::str_eq(name, ".") || crate::text::str_eq(name, "..") {
        return Err(DatasetError::InvalidArgument(String::from_str("invalid dataset name")));
    }
    let mut i: usize = 0;
    while i < nc.len()
        invariant
            i <= nc.len(),
            nc@ == name@,
            forall|j: int| 0 <= j < i ==> name_char_ok(#[trigger] nc@[j]),
        decreases nc.len() - i,
    {
        let c = nc[i];
        if !(('a' <= c && c <= 'z') || ('A' <= c && c <= 'Z') || ('0' <= c && c <= '9') || c == '.' || c == '_' || c == '-') {
            return Err(DatasetError::InvalidArgument(String::from_str("dataset name allows [A-Za-z0-9._-] only")));
        }
        i = i + 1;
    }
    Ok(())
}


// ----- ingest ---------------------------------------------------------------------------------

/// The checks an ingest makes on the whole batch before resolving any document: a valid name,
/// then at least one document.
pub fn check_ingest_batch(dataset: &str, docs: usize) -> (r: Result<(), DatasetError>)
    ensures
        match name_check(dataset@) {
            Some(m) => r matches Err(DatasetError::InvalidArgument(e)) && e@ == m,
            None => if docs == 0 {
                r matches Err(DatasetError::InvalidArgument(e)) && e@ == "no documents"@
            } else {
                r is Ok
            },
        },
{
    validate_dataset_name(dataset)?;
    if docs == 0 {
        return Err(DatasetError::InvalidArgument(String::from_str("no documents")));
    }
    Ok(())
}

/// The first check on each document, before its vector or chunks: its content is not empty.
pub fn check_doc_content(content_len: usize) -> (r: Result<(), DatasetError>)
    ensures
        if content_len == 0 {
            r matches Err(DatasetError::InvalidArgument(e)) && e@ == "empty document content"@
        } else {
            r is Ok
        },
{
    if content_len == 0 {
        return Err(DatasetError::InvalidArgument(String::from_str("empty document content")));
    }
    Ok(())
}

/// After resolving every document: a batch that yields no chunk is refused.
pub fn check_indexable(rows: usize) -> (r: Result<(), DatasetError>)
    ensures
        if rows == 0 {
            r matches Err(DatasetError::InvalidArgument(e)) && e@ == "no indexable content"@
        } else {
            r is Ok
        },
{
    if rows == 0 {
        return Err(DatasetError::InvalidArgument(String::from_str("no indexable content")));
    }
    Ok(())
}

/// One resolved chunk of an ingest batch, by its shape: its content ref and its vector length.
#[derive(Debug, Clone, Copy, PartialEq, Eq)]
pub struct ChunkShape {
    pub chunk_ref: [u8; 32],
    pub vector_len: usize,
}

/// What a dataset already holds, as far as an ingest decides on it.
pub struct DatasetFacts {
    pub dim: Option<u32>,
    /// The embed fingerprint the corpus was indexed under (empty when unstamped).
    pub embed_fingerprint: String,
    /// The chunk refs already persisted.
    pub chunk_refs: Vec<[u8; 32]>,
}

/// What an ingest batch commits: the dataset's dimension and the batch positions to apply.
#[derive(Debug, Clone, PartialEq, Eq)]
pub struct IngestPlan {
    pub target_dim: u32,
    pub apply: Vec<usize>,
}

pub open spec fn dim_mismatch_message(target: u32, got: nat, what: Seq<char>) -> Seq<char> {
    "dataset dim is "@ + decimal(target as nat) + ", got a "@ + decimal(got) + "-dim "@ + what
}

pub open spec fn ingest_stale_message(dataset: Seq<char>) -> Seq<char> {
    "dataset '"@ + dataset + "' was indexed under a different embed model / chunk config; create a new dataset or re-ingest to rebuild"@
}

pub open spec fn query_stale_message(dataset: Seq<char>) -> Seq<char> {
    "dataset '"@ + dataset + "' was indexed under a different embed model / chunk config; re-ingest to rebuild (the client-vector path is unaffected)"@
}

/// The first batch position whose vector length is not `target` (or does not fit `u32`).
pub open spec fn first_bad_dim(rows: Seq<ChunkShape>, target: u32) -> Option<int> {
    if exists|i: int| 0 <= i < rows.len() && #[trigger] rows[i].vector_len != target {
        Some(choose|i: int| 0 <= i < rows.len() && #[trigger] rows[i].vector_len != target
            && forall|j: int| 0 <= j < i ==> #[trigger] rows[j].vector_len == target)
    } else {
        None
    }
}

/// The batch positions that are new: not already persisted and first in the batch.
pub open spec fn fresh_positions(rows: Seq<ChunkShape>, existing: Seq<[u8; 32]>) -> Seq<usize>
    decreases rows.len(),
{
    if rows.len() == 0 {
        Seq::empty()
    } else {
        let prev = fresh_positions(rows.drop_last(), existing);
        let r = rows.last().chunk_ref;
        let seen = has_ref(existing, r) || exists|j: int| 0 <= j < rows.len() - 1 && (#[trigger] rows[j].chunk_ref)@ == r@;
        if seen { prev } else { prev.push((rows.len() - 1) as usize) }
    }
}

/// What an ingest batch commits, or why it is refused: a batch needs a row; its vectors must
/// all have the dataset's dimension (the batch fixes it for a new dataset); a server-embed batch
/// may not mix with a corpus indexed under another fingerprint; and only chunks not already
/// persisted (and first within the batch) are applied.
pub open spec fn ingest_ok(dataset: Seq<char>, existing: Option<DatasetFacts>, rows: Seq<ChunkShape>, fingerprint: Option<Seq<char>>, r: Result<IngestPlan, DatasetError>) -> bool {
    if rows.len() == 0 {
        r matches Err(DatasetError::InvalidArgument(m)) && m@ == "no documents"@
    } else if rows[0].vector_len > u32::MAX {
        r matches Err(DatasetError::InvalidArgument(m)) && m@ == "vector too large"@
    } else {
        let target: u32 = match existing { Some(f) => match f.dim { Some(d) => d, None => rows[0].vector_len as u32 }, None => rows[0].vector_len as u32 };
        match first_bad_dim(rows, target) {
            Some(i) => if rows[i].vector_len > u32::MAX {
                r matches Err(DatasetError::InvalidArgument(m)) && m@ == "vector too large"@
            } else {
                r matches Err(DatasetError::DimMismatch(m)) && m@ == dim_mismatch_message(target, rows[i].vector_len as nat, "vector"@)
            },
            None => {
                let stale = match (existing, fingerprint) {
                    (Some(f), Some(fp)) => f.embed_fingerprint@.len() > 0 && f.embed_fingerprint@ != fp,
                    _ => false,
                };
                if stale {
                    r matches Err(DatasetError::StaleIndex(m)) && m@ == ingest_stale_message(dataset)
                } else {
                    r matches Ok(p) && p.target_dim == target
                        && p.apply@ == fresh_positions(rows, match existing { Some(f) => f.chunk_refs@, None => Seq::empty() })
                }
            },
        }
    }
}

fn same_ref(a: &[u8; 32], b: &[u8; 32]) -> (r: bool)
    ensures
        r == (a@ == b@),
{
    let mut i: usize = 0;
    while i < 32
        invariant
            i <= 32,
            forall|j: int| 0 <= j < i ==> a@[j] == b@[j],
        decreases 32 - i,
    {
        if a[i] != b[i] {
            return false;
        }
        i = i + 1;
    }
    assert(a@ =~= b@);
    true
}

pub open spec fn has_ref(refs: Seq<[u8; 32]>, r: [u8; 32]) -> bool {
    exists|j: int| 0 <= j < refs.len() && (#[trigger] refs[j])@ == r@
}

fn ref_in(refs: &[[u8; 32]], r: &[u8; 32]) -> (b: bool)
    ensures
        b == has_ref(refs@, *r),
{
    let mut i: usize = 0;
    while i < refs.len()
        invariant
            i <= refs.len(),
            forall|j: int| 0 <= j < i ==> (#[trigger] refs@[j])@ != r@,
        decreases refs.len() - i,
    {
        if same_ref(&refs[i], r) {
            assert(refs@[i as int]@ == r@);
            return true;
        }
        i = i + 1;
    }
    false
}

fn msg_dim(target: u32, got: usize, what: &str) -> (r: String)
    ensures
        r@ == dim_mismatch_message(target, got as nat, what@),
{
    let mut m = String::from_str("dataset dim is ");
    push_decimal(&mut m, target as u64);
    push_str(&mut m, ", got a ");
    push_decimal(&mut m, got as u64);
    push_str(&mut m, "-dim ");
    push_str(&mut m, what);
    m
}

/// Decides an ingest batch against what the dataset holds.
#[verifier::loop_isolation(false)]
pub fn plan_ingest(dataset: &str, existing: Option<&DatasetFacts>, rows: &[ChunkShape], fingerprint: Option<&str>) -> (r: Result<IngestPlan, DatasetError>)
    ensures
        ingest_ok(dataset@, match existing { Some(f) => Some(*f), None => None }, rows@,
            match fingerprint { Some(f) => Some(f@), None => None }, r),
{
    if rows.len() == 0 {
        return Err(DatasetError::InvalidArgument(String::from_str("no documents")));
    }
    if rows[0].vector_len > 4294967295usize {
        return Err(DatasetError::InvalidArgument(String::from_str("vector too large")));
    }
    let batch_dim: u32 = rows[0].vector_len as u32;
    let target: u32 = match existing {
        Some(f) => match f.dim { Some(d) => d, None => batch_dim },
        None => batch_dim,
    };
    let mut i: usize = 0;
    while i < rows.len()
        invariant
            i <= rows.len(),
            forall|j: int| 0 <= j < i ==> #[trigger] rows@[j].vector_len == target,
        decreases rows.len() - i,
    {
        let vlen = rows[i].vector_len;
        if vlen != target as usize {
            proof {
                assert(rows@[i as int].vector_len != target);
                assert(0 <= i < rows@.len() && rows@[i as int].vector_len != target
                    && forall|j: int| 0 <= j < i ==> #[trigger] rows@[j].vector_len == target);
                assert(exists|k: int| 0 <= k < rows@.len() && #[trigger] rows@[k].vector_len != target
                    && forall|j: int| 0 <= j < k ==> #[trigger] rows@[j].vector_len == target);
                let k = choose|k: int| 0 <= k < rows@.len() && #[trigger] rows@[k].vector_len != target
                    && forall|j: int| 0 <= j < k ==> #[trigger] rows@[j].vector_len == target;
                if k < i { assert(rows@[k].vector_len == target); }
                if k > i { assert(rows@[i as int].vector_len == target); }
            }
            if vlen > 4294967295usize {
                return Err(DatasetError::InvalidArgument(String::from_str("vector too large")));
            }
            return Err(DatasetError::DimMismatch(msg_dim(target, vlen, "vector")));
        }
        i = i + 1;
    }
    proof {
        if exists|k: int| 0 <= k < rows@.len() && #[trigger] rows@[k].vector_len != target {
            let k = choose|k: int| 0 <= k < rows@.len() && #[trigger] rows@[k].vector_len != target;
            assert(rows@[k].vector_len == target);
        }
    }
    if let (Some(f), Some(fp)) = (existing, fingerprint) {
        let fc = chars_of(f.embed_fingerprint.as_str());
        if fc.len() > 0 && !crate::text::str_eq(f.embed_fingerprint.as_str(), fp) {
            let mut m = String::from_str("dataset '");
            push_str(&mut m, dataset);
            push_str(&mut m, "' was indexed under a different embed model / chunk config; create a new dataset or re-ingest to rebuild");
            return Err(DatasetError::StaleIndex(m));
        }
    }
    let empty: Vec<[u8; 32]> = Vec::new();
    let known: &[[u8; 32]] = match existing { Some(f) => f.chunk_refs.as_slice(), None => empty.as_slice() };
    let mut apply: Vec<usize> = Vec::new();
    let mut k: usize = 0;
    while k < rows.len()
        invariant
            k <= rows.len(),
            apply@ == fresh_positions(rows@.take(k as int), known@),
        decreases rows.len() - k,
    {
        let mut dup = ref_in(known, &rows[k].chunk_ref);
        let mut j: usize = 0;
        while j < k
            invariant
                j <= k < rows.len(),
                dup == (has_ref(known@, rows@[k as int].chunk_ref) || exists|x: int| 0 <= x < j && (#[trigger] rows@[x].chunk_ref)@ == rows@[k as int].chunk_ref@),
            decreases k - j,
        {
            if same_ref(&rows[j].chunk_ref, &rows[k].chunk_ref) {
                dup = true;
            }
            j = j + 1;
        }
        proof {
            let t = rows@.take(k + 1);
            assert(t.drop_last() == rows@.take(k as int));
            assert(t.last() == rows@[k as int]);
            assert forall|x: int| 0 <= x < t.len() - 1 implies t[x] == rows@[x] by {}
            assert((exists|x: int| 0 <= x < t.len() - 1 && (#[trigger] t[x].chunk_ref)@ == t.last().chunk_ref@)
                == (exists|x: int| 0 <= x < k && (#[trigger] rows@[x].chunk_ref)@ == rows@[k as int].chunk_ref@)) by {
                if exists|x: int| 0 <= x < t.len() - 1 && (#[trigger] t[x].chunk_ref)@ == t.last().chunk_ref@ {
                    let x = choose|x: int| 0 <= x < t.len() - 1 && (#[trigger] t[x].chunk_ref)@ == t.last().chunk_ref@;
                    assert(rows@[x].chunk_ref@ == rows@[k as int].chunk_ref@);
                }
                if exists|x: int| 0 <= x < k && (#[trigger] rows@[x].chunk_ref)@ == rows@[k as int].chunk_ref@ {
                    let x = choose|x: int| 0 <= x < k && (#[trigger] rows@[x].chunk_ref)@ == rows@[k as int].chunk_ref@;
                    assert(t[x].chunk_ref@ == t.last().chunk_ref@);
                }
            }
        }
        if !dup {
            apply.push(k);
        }
        k = k + 1;
    }
    assert(rows@.take(rows.len() as int) == rows@);
    Ok(IngestPlan { target_dim: target, apply })
}

// ----- search ---------------------------------------------------------------------------------

/// A search's bounds: `None` for `k == 0` (no hits); otherwise the capped top-`k` and the
/// candidate width (four times `k`, at least `k`, at most 256).
pub fn search_width(k: usize) -> (r: Option<(usize, usize)>)
    ensures
        k == 0 ==> r is None,
        k > 0 ==> ({
            let kk: int = if k < MAX_K { k as int } else { MAX_K as int };
            let n: int = if 4 * kk < kk { kk } else if 4 * kk > 256 { 256 } else { 4 * kk };
            r == Some((kk as usize, n as usize))
        }),
{
    if k == 0 {
        return None;
    }
    let kk = if k < MAX_K { k } else { MAX_K };
    let wide = kk * 4;
    let n = if wide < kk { kk } else if wide > 256 { 256 } else { wide };
    Some((kk, n))
}

/// The operator's default when a query asks for none.
pub fn effective_mode(mode: RetrievalMode, default_mode: RetrievalMode) -> (r: RetrievalMode)
    ensures
        r == (if mode == RetrievalMode::Default { default_mode } else { mode }),
{
    match mode {
        RetrievalMode::Default => default_mode,
        m => m,
    }
}

/// Where a query's vector comes from: the client's (when non-empty), else the server embedder
/// over the query text (which must then be non-empty). `Ok(true)` means server-embedded.
pub fn query_source(embedding_len: Option<usize>, query_text: &str) -> (r: Result<bool, DatasetError>)
    ensures
        match embedding_len {
            Some(n) if n > 0 => r == Ok::<bool, DatasetError>(false),
            _ => if query_text@.len() == 0 {
                r matches Err(DatasetError::InvalidArgument(m)) && m@ == "query requires query_text or a query_embedding"@
            } else {
                r == Ok::<bool, DatasetError>(true)
            },
        },
{
    match embedding_len {
        Some(n) if n > 0 => Ok(false),
        _ => {
            if chars_of(query_text).len() == 0 {
                Err(DatasetError::InvalidArgument(String::from_str("query requires query_text or a query_embedding")))
            } else {
                Ok(true)
            }
        },
    }
}

/// A query's vector must have the dataset's dimension (a dataset with none yet takes any).
pub fn check_query_dim(dim: Option<u32>, query_len: usize) -> (r: Result<(), DatasetError>)
    ensures
        match dim {
            None => r is Ok,
            Some(d) => if query_len > u32::MAX {
                r matches Err(DatasetError::InvalidArgument(m)) && m@ == "query vector too large"@
            } else if query_len != d {
                r matches Err(DatasetError::DimMismatch(m)) && m@ == dim_mismatch_message(d, query_len as nat, "query"@)
            } else {
                r is Ok
            },
        },
{
    match dim {
        None => Ok(()),
        Some(d) => {
            if query_len > 4294967295usize {
                Err(DatasetError::InvalidArgument(String::from_str("query vector too large")))
            } else if query_len != d as usize {
                Err(DatasetError::DimMismatch(msg_dim(d, query_len, "query")))
            } else {
                Ok(())
            }
        },
    }
}

/// A server-embedded query may not run against a corpus indexed under another fingerprint.
pub fn check_query_staleness(dataset: &str, stored: &str, live: Option<&str>) -> (r: Result<(), DatasetError>)
    ensures
        match live {
            Some(l) if stored@.len() > 0 && stored@ != l@ => r matches Err(DatasetError::StaleIndex(m)) && m@ == query_stale_message(dataset@),
            _ => r is Ok,
        },
{
    match live {
        Some(l) => {
            if chars_of(stored).len() > 0 && !crate::text::str_eq(stored, l) {
                let mut m = String::from_str("dataset '");
                push_str(&mut m, dataset);
                push_str(&mut m, "' was indexed under a different embed model / chunk config; re-ingest to rebuild (the client-vector path is unaffected)");
                Err(DatasetError::StaleIndex(m))
            } else {
                Ok(())
            }
        },
        None => Ok(()),
    }
}

/// The keyword arm runs only for a hybrid query with text, over a non-empty keyword index.
pub fn sparse_arm(mode: RetrievalMode, query_text: &str, lex_empty: bool) -> (r: bool)
    ensures
        r == (mode == RetrievalMode::Hybrid && query_text@.len() > 0 && !lex_empty),
{
    mode == RetrievalMode::Hybrid && chars_of(query_text).len() > 0 && !lex_empty
}

/// The diversity rerank runs unless a per-query override or the operator turns it off.
pub fn rerank_on(per_query: Option<bool>, operator_default: bool) -> (r: bool)
    ensures
        r == (match per_query { Some(b) => b, None => operator_default }),
{
    match per_query {
        Some(b) => b,
        None => operator_default,
    }
}

// ----- server-embed ingest --------------------------------------------------------------------

pub open spec fn chunk_cap_message(got: nat, cap: nat) -> Seq<char> {
    "document produces "@ + decimal(got) + " chunks, over the "@ + decimal(cap) + "-chunk cap"@
}

/// A chunked document may not produce more than the per-document cap (0: no cap).
pub fn check_chunk_cap(chunks: usize, cap: usize) -> (r: Result<(), DatasetError>)
    ensures
        if cap > 0 && chunks > cap {
            r matches Err(DatasetError::InvalidArgument(m)) && m@ == chunk_cap_message(chunks as nat, cap as nat)
        } else {
            r is Ok
        },
{
    if cap > 0 && chunks > cap {
        let mut m = String::from_str("document produces ");
        push_decimal(&mut m, chunks as u64);
        push_str(&mut m, " chunks, over the ");
        push_decimal(&mut m, cap as u64);
        push_str(&mut m, "-chunk cap");
        return Err(DatasetError::InvalidArgument(m));
    }
    Ok(())
}

// ----- rebuilding from the store --------------------------------------------------------------

/// A stored dataset row's dimension: a positive stored value that fits `u32`, else none.
pub fn stored_dim(dim: i64) -> (r: Option<u32>)
    ensures
        r == (if 0 < dim && dim <= u32::MAX { Some(dim as u32) } else { None::<u32> }),
{
    if 0 < dim && dim <= 4294967295i64 { Some(dim as u32) } else { None }
}

/// A stored index version that fits `u32`, else the current one.
pub fn stored_index_version(v: i64) -> (r: u32)
    ensures
        r == (if 0 <= v && v <= u32::MAX { v as u32 } else { INDEX_VERSION }),
{
    if 0 <= v && v <= 4294967295i64 { v as u32 } else { INDEX_VERSION }
}

/// A stored chunk ordinal that fits `u32`, else 0.
pub fn stored_chunk_index(v: i64) -> (r: u32)
    ensures
        r == (if 0 <= v && v <= u32::MAX { v as u32 } else { 0u32 }),
{
    if 0 <= v && v <= 4294967295i64 { v as u32 } else { 0 }
}

/// Whether a stored document row rebuilds, and the dataset's dimension afterwards: a dataset
/// with no dimension takes the first non-empty vector's; a row whose vector disagrees with the
/// dimension is skipped (so counts never over-report).
pub fn rebuild_row(dim: Option<u32>, vector_len: usize) -> (r: (Option<u32>, bool))
    ensures
        ({
            let d2 = if dim is None && vector_len > 0 && vector_len <= u32::MAX { Some(vector_len as u32) } else { dim };
            r.0 == d2 && r.1 == (match d2 { None => true, Some(d) => vector_len == d })
        }),
{
    let d2 = if dim.is_none() && vector_len > 0 && vector_len <= 4294967295usize { Some(vector_len as u32) } else { dim };
    let ok = match d2 {
        None => true,
        Some(d) => vector_len == d as usize,
    };
    (d2, ok)
}

/// A stored chunk's parent: the stored parent ref when it is 32 bytes, else the chunk itself
/// (a legacy whole-document row).
pub fn stored_parent(chunk_ref: [u8; 32], parent: Option<&[u8]>) -> (r: [u8; 32])
    ensures
        match parent {
            Some(p) if p@.len() == 32 => r@ == p@,
            _ => r == chunk_ref,
        },
{
    match parent {
        Some(p) => {
            if p.len() == 32 {
                let mut out = [0u8; 32];
                let mut i: usize = 0;
                while i < 32
                    invariant
                        i <= 32,
                        p@.len() == 32,
                        out@.len() == 32,
                        forall|j: int| 0 <= j < i ==> out@[j] == p@[j],
                    decreases 32 - i,
                {
                    out[i] = p[i];
                    i = i + 1;
                }
                assert(out@ =~= p@);
                out
            } else {
                chunk_ref
            }
        },
        None => chunk_ref,
    }
}

impl DatasetError {
    /// The error's text (the status message it is reported with).
    pub fn message(&self) -> (r: String)
        ensures
            r@ == (match *self {
                DatasetError::InvalidArgument(m) => m@,
                DatasetError::DimMismatch(m) => m@,
                DatasetError::StaleIndex(m) => m@,
                DatasetError::NotFound => "dataset not found"@,
            }),
    {
        match self {
            DatasetError::InvalidArgument(m) => m.clone(),
            DatasetError::DimMismatch(m) => m.clone(),
            DatasetError::StaleIndex(m) => m.clone(),
            DatasetError::NotFound => String::from_str("dataset not found"),
        }
    }
}

// ----- laws -----------------------------------------------------------------------------------

/// The refs a plan applies.
pub open spec fn applied_refs(rows: Seq<ChunkShape>, existing: Seq<[u8; 32]>) -> Seq<[u8; 32]> {
    fresh_positions(rows, existing).map_values(|p: usize| rows[p as int].chunk_ref)
}

proof fn lemma_fresh_prefix(rows: Seq<ChunkShape>, existing: Seq<[u8; 32]>)
    requires
        rows.len() <= usize::MAX,
    ensures
        forall|k: int| 0 <= k < fresh_positions(rows, existing).len() ==> (#[trigger] fresh_positions(rows, existing)[k]) < rows.len(),
    decreases rows.len(),
{
    if rows.len() > 0 {
        let t = rows.drop_last();
        lemma_fresh_prefix(t, existing);
        let prev = fresh_positions(t, existing);
        let l = rows.len() - 1;
        let seen = has_ref(existing, rows.last().chunk_ref) || exists|j: int| 0 <= j < l && (#[trigger] rows[j].chunk_ref)@ == rows.last().chunk_ref@;
        assert(fresh_positions(rows, existing) == if seen { prev } else { prev.push(l as usize) });
        assert forall|k: int| 0 <= k < fresh_positions(rows, existing).len() implies (#[trigger] fresh_positions(rows, existing)[k]) < rows.len() by {
            if k < prev.len() {
                assert(prev[k] < t.len());
            }
        }
    }
}

proof fn lemma_every_row_covered(rows: Seq<ChunkShape>, existing: Seq<[u8; 32]>, i: int)
    requires
        0 <= i < rows.len(),
        rows.len() <= usize::MAX,
    ensures
        has_ref(existing, rows[i].chunk_ref) || has_ref(applied_refs(rows, existing), rows[i].chunk_ref),
    decreases rows.len(),
{
    let t = rows.drop_last();
    let f = fresh_positions(rows, existing);
    let ft = fresh_positions(t, existing);
    lemma_fresh_prefix(t, existing);
    lemma_fresh_prefix(rows, existing);
    let l = rows.len() - 1;
    let seen = has_ref(existing, rows[l].chunk_ref) || exists|j: int| 0 <= j < l && (#[trigger] rows[j].chunk_ref)@ == rows[l].chunk_ref@;
    assert(f == if seen { ft } else { ft.push(l as usize) });
    // Everything `t` applied, `rows` applies too (at the same positions).
    assert forall|r: [u8; 32]| has_ref(applied_refs(t, existing), r) implies has_ref(applied_refs(rows, existing), r) by {
        let k = choose|k: int| 0 <= k < applied_refs(t, existing).len() && (#[trigger] applied_refs(t, existing)[k])@ == r@;
        assert(ft[k] < t.len());
        assert(f[k] == ft[k]);
        assert(applied_refs(rows, existing)[k] == rows[f[k] as int].chunk_ref);
        assert(t[ft[k] as int] == rows[ft[k] as int]);
    }
    if i < l {
        lemma_every_row_covered(t, existing, i);
        assert(t[i] == rows[i]);
    } else if seen {
        if !has_ref(existing, rows[l].chunk_ref) {
            let j = choose|j: int| 0 <= j < l && (#[trigger] rows[j].chunk_ref)@ == rows[l].chunk_ref@;
            lemma_every_row_covered(t, existing, j);
            assert(t[j] == rows[j]);
            if has_ref(existing, rows[j].chunk_ref) {
                let q = choose|q: int| 0 <= q < existing.len() && (#[trigger] existing[q])@ == rows[j].chunk_ref@;
                assert(existing[q]@ == rows[l].chunk_ref@);
            } else {
                let q = choose|q: int| 0 <= q < applied_refs(t, existing).len() && (#[trigger] applied_refs(t, existing)[q])@ == rows[j].chunk_ref@;
                assert(has_ref(applied_refs(t, existing), rows[l].chunk_ref));
            }
        }
    } else {
        let k = ft.len() as int;
        assert(f[k] == l as usize);
        assert(f[k] as int == l);
        assert(applied_refs(rows, existing)[k] == rows[l].chunk_ref);
    }
}

proof fn lemma_all_known_applies_nothing(rows: Seq<ChunkShape>, existing: Seq<[u8; 32]>)
    requires
        forall|i: int| 0 <= i < rows.len() ==> has_ref(existing, #[trigger] rows[i].chunk_ref),
    ensures
        fresh_positions(rows, existing).len() == 0,
    decreases rows.len(),
{
    if rows.len() > 0 {
        let t = rows.drop_last();
        assert forall|i: int| 0 <= i < t.len() implies has_ref(existing, #[trigger] t[i].chunk_ref) by {
            assert(t[i] == rows[i]);
        }
        lemma_all_known_applies_nothing(t, existing);
        assert(has_ref(existing, rows[rows.len() - 1].chunk_ref));
    }
}

/// Ingest is content-addressed: once a batch's plan has been applied (its fresh chunks added to
/// what the dataset holds), ingesting the same batch again applies nothing.
pub proof fn law_reingest_applies_nothing(rows: Seq<ChunkShape>, existing: Seq<[u8; 32]>)
    requires
        rows.len() <= usize::MAX,
    ensures
        fresh_positions(rows, existing + applied_refs(rows, existing)).len() == 0,
{
    let all = existing + applied_refs(rows, existing);
    assert forall|i: int| 0 <= i < rows.len() implies has_ref(all, #[trigger] rows[i].chunk_ref) by {
        lemma_every_row_covered(rows, existing, i);
        if has_ref(existing, rows[i].chunk_ref) {
            let q = choose|q: int| 0 <= q < existing.len() && (#[trigger] existing[q])@ == rows[i].chunk_ref@;
            assert(all[q] == existing[q]);
        } else {
            let q = choose|q: int| 0 <= q < applied_refs(rows, existing).len() && (#[trigger] applied_refs(rows, existing)[q])@ == rows[i].chunk_ref@;
            assert(all[existing.len() + q] == applied_refs(rows, existing)[q]);
        }
    }
    lemma_all_known_applies_nothing(rows, all);
}

} // verus!
