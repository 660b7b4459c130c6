//! The journal-derived read caches (the alerts inbox and the action-capture ledger): what each
//! fold tick reads, and what it writes for each journal entry.
//!
//! Both caches are rebuildable projections of the journal. A tick reads `(watermark, head]`,
//! turns each entry into store writes in journal order, stamps the rows still missing the
//! session instance, and advances the watermark last. The store itself (and the journal) are
//! the caller's; the decisions are here.
use vstd::prelude::*;
use vstd::string::*;

verus! {

// ----- the journal vocabulary -----------------------------------------------------------------

/// Why a Mote failed.
#[derive(Clone, Copy, Debug, PartialEq, Eq, Structural)]
pub enum FailureReason {
    TimedOut,
    ExecutorRefused,
    ValidatorRejected,
    WorkerCrashed,
    UpstreamRepudiated,
    UnsafeWorldMutatingConstruction,
    CompensatedAtLeastOnce,
    QuarantinedAtLeastOnce,
    DeadLettered,
}

/// A Mote's nondeterminism class.
#[derive(Clone, Copy, Debug, PartialEq, Eq, Structural)]
pub enum NdClass {
    Pure,
    ReadOnlyNondet,
    WorldMutating,
}

/// Where a ReAct round settled.
#[derive(Clone, Copy, Debug, PartialEq, Eq, Structural)]
pub enum ReactBranch {
    Answer,
    Tool,
    DeadLettered,
    Pending,
}

/// One journal entry, as far as the caches read it.
pub enum FoldEntry {
    RunRegistered { instance_id: [u8; 16] },
    Failed { mote_id: [u8; 32], seq: u64, reason: FailureReason, reason_code: u8 },
    Committed { mote_id: [u8; 32], nd: NdClass, result_ref: [u8; 32], seq: u64 },
    ReactRound { turn: u32, turn_mote_id: [u8; 32], branch: ReactBranch },
    Other,
}

/// The liveness failures that re-dispatch (not terminal, so not an alert).
pub open spec fn pre_commit_crash(r: FailureReason) -> bool {
    r == FailureReason::TimedOut || r == FailureReason::WorkerCrashed
}

pub fn is_pre_commit_crash(r: FailureReason) -> (b: bool)
    ensures
        b == pre_commit_crash(r),
{
    match r {
        FailureReason::TimedOut | FailureReason::WorkerCrashed => true,
        _ => false,
    }
}

pub open spec fn reason_wire_spec(r: FailureReason) -> Seq<char> {
    match r {
        FailureReason::TimedOut => "timed_out"@,
        FailureReason::ExecutorRefused => "executor_refused"@,
        FailureReason::ValidatorRejected => "validator_rejected"@,
        FailureReason::WorkerCrashed => "worker_crashed"@,
        FailureReason::UpstreamRepudiated => "upstream_repudiated"@,
        FailureReason::UnsafeWorldMutatingConstruction => "unsafe_world_mutating_construction"@,
        FailureReason::CompensatedAtLeastOnce => "compensated_at_least_once"@,
        FailureReason::QuarantinedAtLeastOnce => "quarantined_at_least_once"@,
        FailureReason::DeadLettered => "dead_lettered"@,
    }
}

/// The closed failure-reason wire vocabulary.
pub fn reason_wire(r: FailureReason) -> (s: String)
    ensures
        s@ == reason_wire_spec(r),
{
    String::from_str(match r {
        FailureReason::TimedOut => "timed_out",
        FailureReason::ExecutorRefused => "executor_refused",
        FailureReason::ValidatorRejected => "validator_rejected",
        FailureReason::WorkerCrashed => "worker_crashed",
        FailureReason::UpstreamRepudiated => "upstream_repudiated",
        FailureReason::UnsafeWorldMutatingConstruction => "unsafe_world_mutating_construction",
        FailureReason::CompensatedAtLeastOnce => "compensated_at_least_once",
        FailureReason::QuarantinedAtLeastOnce => "quarantined_at_least_once",
        FailureReason::DeadLettered => "dead_lettered",
    })
}

/// Deliberate refusals read as `refused`; every other terminal failure as `error`.
pub open spec fn severity_spec(r: FailureReason) -> Seq<char> {
    if r == FailureReason::ExecutorRefused || r == FailureReason::UnsafeWorldMutatingConstruction { "refused"@ } else { "error"@ }
}

pub fn severity_for(r: FailureReason) -> (s: String)
    ensures
        s@ == severity_spec(r),
{
    match r {
        FailureReason::ExecutorRefused | FailureReason::UnsafeWorldMutatingConstruction => String::from_str("refused"),
        _ => String::from_str("error"),
    }
}

pub open spec fn nd_class_spec(nd: NdClass) -> Seq<char> {
    match nd {
        NdClass::Pure => "pure"@,
        NdClass::ReadOnlyNondet => "read_only_nondet"@,
        NdClass::WorldMutating => "world_mutating"@,
    }
}

pub fn nd_class_wire(nd: NdClass) -> (s: String)
    ensures
        s@ == nd_class_spec(nd),
{
    String::from_str(match nd {
        NdClass::Pure => "pure",
        NdClass::ReadOnlyNondet => "read_only_nondet",
        NdClass::WorldMutating => "world_mutating",
    })
}

pub open spec fn branch_spec(b: ReactBranch) -> Seq<char> {
    match b {
        ReactBranch::Answer => "answer"@,
        ReactBranch::Tool => "tool"@,
        ReactBranch::DeadLettered => "dead_lettered"@,
        ReactBranch::Pending => "pending"@,
    }
}

pub fn branch_wire(b: ReactBranch) -> (s: String)
    ensures
        s@ == branch_spec(b),
{
    String::from_str(match b {
        ReactBranch::Answer => "answer",
        ReactBranch::Tool => "tool",
        ReactBranch::DeadLettered => "dead_lettered",
        ReactBranch::Pending => "pending",
    })
}

// ----- the fold window and the store's integers -----------------------------------------------

/// A store integer for a journal count: the value, or `i64::MAX` past it.
pub open spec fn db_int_spec(x: u64) -> i64 {
    if x <= i64::MAX { x as i64 } else { i64::MAX }
}

pub fn db_int(x: u64) -> (r: i64)
    ensures
        r == db_int_spec(x),
{
    if x <= 9223372036854775807u64 { x as i64 } else { 9223372036854775807i64 }
}

/// The seqs a tick folds: `(watermark, head]` as `(first, last)`, or `None` when nothing is
/// new (a negative stored watermark reads as 0).
pub open spec fn fold_window_spec(head: u64, watermark: i64) -> Option<(u64, u64)> {
    let from: int = if watermark < 0 { 0 } else { watermark as int };
    if head <= from { None } else { Some(((from + 1) as u64, head)) }
}

pub fn fold_window(head: u64, watermark: i64) -> (r: Option<(u64, u64)>)
    ensures
        r == fold_window_spec(head, watermark),
{
    let from: u64 = if watermark < 0 { 0 } else { watermark as u64 };
    if head <= from {
        None
    } else {
        Some((from + 1, head))
    }
}

/// The `alert_id` preimage: `"kx-alert-id\0" ‖ mote_id ‖ seq (little-endian)`; the alert id is
/// the first 16 bytes of its content ref.
pub open spec fn alert_preimage_spec(mote_id: Seq<u8>, seq: u64) -> Seq<u8> {
    seq![107u8, 120, 45, 97, 108, 101, 114, 116, 45, 105, 100, 0] + mote_id + le_bytes(seq)
}

/// The eight little-endian bytes of `x`.
pub open spec fn le_bytes(x: u64) -> Seq<u8> {
    Seq::new(8, |i: int| ((x as int / pow256(i)) % 256) as u8)
}

pub open spec fn pow256(i: int) -> int
    decreases i,
{
    if i <= 0 { 1 } else { 256 * pow256(i - 1) }
}

pub fn alert_id_preimage(mote_id: &[u8; 32], seq: u64) -> (r: Vec<u8>)
    ensures
        r@ == alert_preimage_spec(mote_id@, seq),
{
    let mut out: Vec<u8> = vec![107u8, 120, 45, 97, 108, 101, 114, 116, 45, 105, 100, 0];
    let mut i: usize = 0;
    while i < 32
        invariant
            i <= 32,
            out@ == seq![107u8, 120, 45, 97, 108, 101, 114, 116, 45, 105, 100, 0] + mote_id@.take(i as int),
        decreases 32 - i,
    {
        out.push(mote_id[i]);
        assert(mote_id@.take(i + 1) == mote_id@.take(i as int).push(mote_id@[i as int]));
        i = i + 1;
    }
    assert(mote_id@.take(32) == mote_id@);
    let ghost head = out@;
    let mut x = seq;
    let mut k: usize = 0;
    while k < 8
        invariant
            k <= 8,
            out@ == head + le_bytes(seq).take(k as int),
            x as int == seq as int / pow256(k as int),
        decreases 8 - k,
    {
        let b: u8 = (x % 256) as u8;
        proof {
            assert(pow256(k + 1) == 256 * pow256(k as int));
            assert(pow256(k as int) > 0) by { lemma_pow256_pos(k as int); }
            assert((seq as int / pow256(k as int)) / 256 == seq as int / pow256(k + 1)) by {
                vstd::arithmetic::div_mod::lemma_div_denominator(seq as int, pow256(k as int), 256);
            }
            assert(le_bytes(seq)[k as int] == b);
            assert(le_bytes(seq).take(k + 1) == le_bytes(seq).take(k as int).push(b));
        }
        out.push(b);
        x = x / 256;
        k = k + 1;
    }
    assert(le_bytes(seq).take(8) == le_bytes(seq));
    out
}

proof fn lemma_pow256_pos(i: int)
    ensures
        pow256(i) > 0,
    decreases i,
{
    if i > 0 {
        lemma_pow256_pos(i - 1);
    }
}

// ----- the alerts fold ------------------------------------------------------------------------

/// One alert row, as inserted (`INSERT OR IGNORE` by its alert id).
pub struct AlertRow {
    pub mote_id: [u8; 32],
    pub seq: u64,
    /// The session instance known when the row was folded (empty before registration).
    pub instance_id: Vec<u8>,
    pub reason_class: String,
    pub reason_code: u8,
    pub severity: String,
    pub created_unix_ms: u64,
}

/// One store write of an alerts tick, in journal order.
pub enum AlertsWrite {
    /// Persist the session instance (the durable `run_meta` row).
    RecordInstance(Vec<u8>),
    /// Insert a terminal failure.
    InsertAlert(AlertRow),
}

/// The writes of one alerts tick: in order, then stamp every unstamped row with `stamp` (if
/// any), then set the watermark to `last_seq`.
pub struct AlertsPlan {
    pub writes: Vec<AlertsWrite>,
    pub stamp: Option<Vec<u8>>,
    pub last_seq: i64,
}

/// The view of one alerts write: the instance bytes, or the row's fields.
pub enum AlertsWriteView {
    Instance(Seq<u8>),
    Alert { mote_id: Seq<u8>, seq: u64, instance: Seq<u8>, reason_class: Seq<char>, reason_code: u8, severity: Seq<char>, created: u64 },
}

pub open spec fn alerts_write_view(w: AlertsWrite) -> AlertsWriteView {
    match w {
        AlertsWrite::RecordInstance(i) => AlertsWriteView::Instance(i@),
        AlertsWrite::InsertAlert(a) => AlertsWriteView::Alert {
            mote_id: a.mote_id@, seq: a.seq, instance: a.instance_id@, reason_class: a.reason_class@,
            reason_code: a.reason_code, severity: a.severity@, created: a.created_unix_ms,
        },
    }
}

pub open spec fn opt_bytes(o: Option<Vec<u8>>) -> Option<Seq<u8>> {
    match o {
        Some(v) => Some(v@),
        None => None,
    }
}

/// The writes a run of entries makes and the instance known after them, from `seed` (the
/// durable instance, if one registered in an earlier tick): a registration records and adopts
/// its instance; a TERMINAL failure inserts an alert stamped with the instance known so far;
/// everything else writes nothing.
pub open spec fn alerts_fold_spec(seed: Option<Seq<u8>>, entries: Seq<FoldEntry>, now: u64) -> (Seq<AlertsWriteView>, Option<Seq<u8>>)
    decreases entries.len(),
{
    if entries.len() == 0 {
        (Seq::empty(), seed)
    } else {
        let (ws, inst) = alerts_fold_spec(seed, entries.drop_last(), now);
        match entries.last() {
            FoldEntry::RunRegistered { instance_id } => (ws.push(AlertsWriteView::Instance(instance_id@)), Some(instance_id@)),
            FoldEntry::Failed { mote_id, seq, reason, reason_code } => if pre_commit_crash(reason) {
                (ws, inst)
            } else {
                (ws.push(AlertsWriteView::Alert {
                    mote_id: mote_id@, seq, instance: match inst { Some(i) => i, None => Seq::empty() },
                    reason_class: reason_wire_spec(reason), reason_code, severity: severity_spec(reason), created: now,
                }), inst)
            },
            _ => (ws, inst),
        }
    }
}

fn copy_bytes(v: &Vec<u8>) -> (r: Vec<u8>)
    ensures
        r@ == v@,
{
    let mut out: Vec<u8> = Vec::new();
    let mut i: usize = 0;
    while i < v.len()
        invariant
            i <= v.len(),
            out@ == v@.take(i as int),
        decreases v.len() - i,
    {
        out.push(v[i]);
        assert(v@.take(i + 1) == v@.take(i as int).push(v@[i as int]));
        i = i + 1;
    }
    assert(v@.take(v.len() as int) == v@);
    out
}

fn array16_bytes(a: &[u8; 16]) -> (r: Vec<u8>)
    ensures
        r@ == a@,
{
    let mut out: Vec<u8> = Vec::new();
    let mut i: usize = 0;
    while i < 16
        invariant
            i <= 16,
            out@ == a@.take(i as int),
        decreases 16 - i,
    {
        out.push(a[i]);
        assert(a@.take(i + 1) == a@.take(i as int).push(a@[i as int]));
        i = i + 1;
    }
    assert(a@.take(16) == a@);
    out
}

/// The writes of one alerts tick over `entries` (the journal's `(watermark, head]`), with the
/// durable instance `seed` and the wall clock `now_ms` stamped on new rows.
pub fn alerts_fold_plan(seed: Option<Vec<u8>>, entries: &[FoldEntry], head: u64, now_ms: u64) -> (r: AlertsPlan)
    ensures
        r.writes@.map_values(|w: AlertsWrite| alerts_write_view(w)) == alerts_fold_spec(opt_bytes(seed), entries@, now_ms).0,
        opt_bytes(r.stamp) == alerts_fold_spec(opt_bytes(seed), entries@, now_ms).1,
        r.last_seq == db_int_spec(head),
{
    let ghost s0 = opt_bytes(seed);
    let mut instance = seed;
    let mut writes: Vec<AlertsWrite> = Vec::new();
    let mut i: usize = 0;
    while i < entries.len()
        invariant
            i <= entries.len(),
            (writes@.map_values(|w: AlertsWrite| alerts_write_view(w)), opt_bytes(instance)) == alerts_fold_spec(s0, entries@.take(i as int), now_ms),
        decreases entries.len() - i,
    {
        proof {
            assert(entries@.take(i + 1).drop_last() == entries@.take(i as int));
            assert(entries@.take(i + 1).last() == entries@[i as int]);
        }
        let ghost before = writes@;
        match &entries[i] {
            FoldEntry::RunRegistered { instance_id } => {
                writes.push(AlertsWrite::RecordInstance(array16_bytes(instance_id)));
                instance = Some(array16_bytes(instance_id));
                assert(writes@.map_values(|w: AlertsWrite| alerts_write_view(w)) =~= before.map_values(|w: AlertsWrite| alerts_write_view(w)).push(AlertsWriteView::Instance(instance_id@)));
            },
            FoldEntry::Failed { mote_id, seq, reason, reason_code } => {
                if !is_pre_commit_crash(*reason) {
                    let inst = match &instance {
                        Some(v) => copy_bytes(v),
                        None => Vec::new(),
                    };
                    let row = AlertRow {
                        mote_id: *mote_id,
                        seq: *seq,
                        instance_id: inst,
                        reason_class: reason_wire(*reason),
                        reason_code: *reason_code,
                        severity: severity_for(*reason),
                        created_unix_ms: now_ms,
                    };
                    writes.push(AlertsWrite::InsertAlert(row));
                    assert(writes@.map_values(|w: AlertsWrite| alerts_write_view(w)) =~= before.map_values(|w: AlertsWrite| alerts_write_view(w)).push(alerts_write_view(writes@.last())));
                }
            },
            _ => {},
        }
        i = i + 1;
    }
    assert(entries@.take(entries.len() as int) == entries@);
    AlertsPlan { writes, stamp: instance, last_seq: db_int(head) }
}

// ----- the capture fold -----------------------------------------------------------------------

/// One captured action, as upserted by its Mote id (join keys only; no payload).
pub struct CaptureRow {
    pub mote_id: [u8; 32],
    pub instance_id: Vec<u8>,
    /// The action's join key: the committed Mote's result ref.
    pub result_ref: [u8; 32],
    pub nd_class: String,
    pub seq: i64,
}

/// One store write of a capture tick, in journal order.
pub enum CaptureWrite {
    RecordInstance(Vec<u8>),
    InsertRecord(CaptureRow),
}

/// The latest ReAct fact for one turn Mote: joined onto the matching action row and upserted
/// into the turn table.
pub struct ReactUpdate {
    pub turn_mote_id: [u8; 32],
    pub turn: u32,
    pub branch: String,
}

/// The writes of one capture tick: in order, then the instance stamp, then each ReAct update,
/// then the watermark.
pub struct CapturePlan {
    pub writes: Vec<CaptureWrite>,
    pub stamp: Option<Vec<u8>>,
    pub react: Vec<ReactUpdate>,
    pub last_seq: i64,
}

pub enum CaptureWriteView {
    Instance(Seq<u8>),
    Record { mote_id: Seq<u8>, instance: Seq<u8>, result_ref: Seq<u8>, nd_class: Seq<char>, seq: i64 },
}

pub open spec fn capture_write_view(w: CaptureWrite) -> CaptureWriteView {
    match w {
        CaptureWrite::RecordInstance(i) => CaptureWriteView::Instance(i@),
        CaptureWrite::InsertRecord(c) => CaptureWriteView::Record {
            mote_id: c.mote_id@, instance: c.instance_id@, result_ref: c.result_ref@, nd_class: c.nd_class@, seq: c.seq,
        },
    }
}

pub open spec fn react_view(u: ReactUpdate) -> (Seq<u8>, u32, Seq<char>) {
    (u.turn_mote_id@, u.turn, u.branch@)
}

/// `us` with the fact for `key` replaced (kept in place) or appended.
pub open spec fn upsert_react(us: Seq<(Seq<u8>, u32, Seq<char>)>, key: Seq<u8>, turn: u32, branch: Seq<char>) -> Seq<(Seq<u8>, u32, Seq<char>)> {
    if exists|k: int| 0 <= k < us.len() && #[trigger] us[k].0 == key {
        let k = choose|k: int| 0 <= k < us.len() && #[trigger] us[k].0 == key;
        us.update(k, (key, turn, branch))
    } else {
        us.push((key, turn, branch))
    }
}

/// The writes, the instance known after them, and the ReAct facts (the latest per turn Mote,
/// in order of first mention) of a run of entries.
pub open spec fn capture_fold_spec(seed: Option<Seq<u8>>, entries: Seq<FoldEntry>) -> (Seq<CaptureWriteView>, Option<Seq<u8>>, Seq<(Seq<u8>, u32, Seq<char>)>)
    decreases entries.len(),
{
    if entries.len() == 0 {
        (Seq::empty(), seed, Seq::empty())
    } else {
        let (ws, inst, rs) = capture_fold_spec(seed, entries.drop_last());
        match entries.last() {
            FoldEntry::RunRegistered { instance_id } => (ws.push(CaptureWriteView::Instance(instance_id@)), Some(instance_id@), rs),
            FoldEntry::Committed { mote_id, nd, result_ref, seq } => (ws.push(CaptureWriteView::Record {
                mote_id: mote_id@, instance: match inst { Some(i) => i, None => Seq::empty() }, result_ref: result_ref@,
                nd_class: nd_class_spec(nd), seq: db_int_spec(seq),
            }), inst, rs),
            FoldEntry::ReactRound { turn, turn_mote_id, branch } => (ws, inst, upsert_react(rs, turn_mote_id@, turn, branch_spec(branch))),
            _ => (ws, inst, rs),
        }
    }
}

/// Distinct turn keys.
pub open spec fn react_keys_distinct(us: Seq<(Seq<u8>, u32, Seq<char>)>) -> bool {
    forall|a: int, b: int| 0 <= a < b < us.len() ==> #[trigger] us[a].0 != #[trigger] us[b].0
}

proof fn lemma_upsert_distinct(us: Seq<(Seq<u8>, u32, Seq<char>)>, key: Seq<u8>, turn: u32, branch: Seq<char>)
    requires
        react_keys_distinct(us),
    ensures
        react_keys_distinct(upsert_react(us, key, turn, branch)),
{
    if exists|k: int| 0 <= k < us.len() && #[trigger] us[k].0 == key {
        let k = choose|k: int| 0 <= k < us.len() && #[trigger] us[k].0 == key;
        let n = us.update(k, (key, turn, branch));
        assert forall|a: int, b: int| 0 <= a < b < n.len() implies #[trigger] n[a].0 != #[trigger] n[b].0 by {
            if a == k { assert(us[b].0 != us[k].0); }
            else if b == k { assert(us[a].0 != us[k].0); }
            else { assert(us[a].0 != us[b].0); }
        }
    } else {
        let n = us.push((key, turn, branch));
        assert forall|a: int, b: int| 0 <= a < b < n.len() implies #[trigger] n[a].0 != #[trigger] n[b].0 by {
            if b == us.len() { assert(us[a].0 != key); }
        }
    }
}

fn same_id(a: &[u8; 32], b: &[u8; 32]) -> (r: bool)
    ensures
        r == (a@ == b@),
{
    let mut i: usize = 0;
    while i < 32
        invariant
            i <= 32,
            forall|j: int| 0 <= j < i ==> a@[j] == b@[j],
        decreases 32 - i,
    {
        if a[i] != b[i] {
            return false;
        }
        i = i + 1;
    }
    assert(a@ =~= b@);
    true
}

fn upsert_react_exec(us: &mut Vec<ReactUpdate>, key: &[u8; 32], turn: u32, branch: ReactBranch)
    requires
        react_keys_distinct(old(us)@.map_values(|u: ReactUpdate| react_view(u))),
    ensures
        final(us)@.map_values(|u: ReactUpdate| react_view(u)) == upsert_react(old(us)@.map_values(|u: ReactUpdate| react_view(u)), key@, turn, branch_spec(branch)),
        react_keys_distinct(final(us)@.map_values(|u: ReactUpdate| react_view(u))),
{
    let ghost v = us@.map_values(|u: ReactUpdate| react_view(u));
    proof { lemma_upsert_distinct(v, key@, turn, branch_spec(branch)); }
    let mut k: usize = 0;
    while k < us.len()
        invariant
            k <= us.len(),
            us@ == old(us)@,
            v == us@.map_values(|u: ReactUpdate| react_view(u)),
            react_keys_distinct(v),
            forall|j: int| 0 <= j < k ==> v[j].0 != key@,
        decreases us.len() - k,
    {
        if same_id(&us[k].turn_mote_id, key) {
            proof {
                assert(v[k as int].0 == key@);
                assert(exists|c: int| 0 <= c < v.len() && #[trigger] v[c].0 == key@);
                let c = choose|c: int| 0 <= c < v.len() && #[trigger] v[c].0 == key@;
                if c != k {
                    if c < k { assert(v[c].0 != v[k as int].0); } else { assert(v[k as int].0 != v[c].0); }
                }
                assert(c == k);
                assert(upsert_react(v, key@, turn, branch_spec(branch)) == v.update(k as int, (key@, turn, branch_spec(branch))));
            }
            us.set(k, ReactUpdate { turn_mote_id: *key, turn, branch: branch_wire(branch) });
            assert(us@.map_values(|u: ReactUpdate| react_view(u)) =~= v.update(k as int, (key@, turn, branch_spec(branch))));
            return;
        }
        k = k + 1;
    }
    us.push(ReactUpdate { turn_mote_id: *key, turn, branch: branch_wire(branch) });
    assert(us@.map_values(|u: ReactUpdate| react_view(u)) =~= v.push((key@, turn, branch_spec(branch))));
}

/// The writes of one capture tick over `entries` (the journal's `(watermark, head]`), with the
/// durable instance `seed`.
pub fn capture_fold_plan(seed: Option<Vec<u8>>, entries: &[FoldEntry], head: u64) -> (r: CapturePlan)
    ensures
        r.writes@.map_values(|w: CaptureWrite| capture_write_view(w)) == capture_fold_spec(opt_bytes(seed), entries@).0,
        opt_bytes(r.stamp) == capture_fold_spec(opt_bytes(seed), entries@).1,
        r.react@.map_values(|u: ReactUpdate| react_view(u)) == capture_fold_spec(opt_bytes(seed), entries@).2,
        react_keys_distinct(r.react@.map_values(|u: ReactUpdate| react_view(u))),
        r.last_seq == db_int_spec(head),
{
    let ghost s0 = opt_bytes(seed);
    let mut instance = seed;
    let mut writes: Vec<CaptureWrite> = Vec::new();
    let mut react: Vec<ReactUpdate> = Vec::new();
    let mut i: usize = 0;
    while i < entries.len()
        invariant
            i <= entries.len(),
            (writes@.map_values(|w: CaptureWrite| capture_write_view(w)), opt_bytes(instance), react@.map_values(|u: ReactUpdate| react_view(u)))
                == capture_fold_spec(s0, entries@.take(i as int)),
            react_keys_distinct(react@.map_values(|u: ReactUpdate| react_view(u))),
        decreases entries.len() - i,
    {
        proof {
            assert(entries@.take(i + 1).drop_last() == entries@.take(i as int));
            assert(entries@.take(i + 1).last() == entries@[i as int]);
        }
        let ghost before = writes@;
        match &entries[i] {
            FoldEntry::RunRegistered { instance_id } => {
                writes.push(CaptureWrite::RecordInstance(array16_bytes(instance_id)));
                instance = Some(array16_bytes(instance_id));
                assert(writes@.map_values(|w: CaptureWrite| capture_write_view(w)) =~= before.map_values(|w: CaptureWrite| capture_write_view(w)).push(CaptureWriteView::Instance(instance_id@)));
            },
            FoldEntry::Committed { mote_id, nd, result_ref, seq } => {
                let inst = match &instance {
                    Some(v) => copy_bytes(v),
                    None => Vec::new(),
                };
                let row = CaptureRow {
                    mote_id: *mote_id,
                    instance_id: inst,
                    result_ref: *result_ref,
                    nd_class: nd_class_wire(*nd),
                    seq: db_int(*seq),
                };
                writes.push(CaptureWrite::InsertRecord(row));
                assert(writes@.map_values(|w: CaptureWrite| capture_write_view(w)) =~= before.map_values(|w: CaptureWrite| capture_write_view(w)).push(capture_write_view(writes@.last())));
            },
            FoldEntry::ReactRound { turn, turn_mote_id, branch } => {
                upsert_react_exec(&mut react, turn_mote_id, *turn, *branch);
            },
            _ => {},
        }
        i = i + 1;
    }
    assert(entries@.take(entries.len() as int) == entries@);
    CapturePlan { writes, stamp: instance, react, last_seq: db_int(head) }
}

// ----- reading a page -------------------------------------------------------------------------

/// The alerts page query's bounds: the seq cursor (rows strictly below `before_seq`, or from
/// the head) and the over-fetch limit (one more than asked, to learn whether more exist).
pub fn alerts_query_bounds(limit: usize, before_seq: Option<u64>) -> (r: (i64, i64))
    ensures
        r.0 == (match before_seq { Some(s) => db_int_spec(s) - 1, None => i64::MAX - 1 }),
        r.1 == (if limit + 1 <= i64::MAX { (limit + 1) as i64 } else { i64::MAX }),
{
    let cursor: i64 = match before_seq {
        Some(s) => db_int(s) - 1,
        None => 9223372036854775806i64,
    };
    let l: u64 = limit as u64;
    let over: i64 = if l < 9223372036854775807u64 { (l + 1) as i64 } else { 9223372036854775807i64 };
    (cursor, over)
}

/// A page of at most `limit` rows, and whether the over-fetch found more.
pub fn split_page<T>(rows: Vec<T>, limit: usize) -> (r: (Vec<T>, bool))
    ensures
        r.1 == (rows@.len() > limit),
        r.0@ == (if rows@.len() > limit { rows@.take(limit as int) } else { rows@ }),
{
    let has_more = rows.len() > limit;
    let mut rows = rows;
    if has_more {
        rows.truncate(limit);
    }
    (rows, has_more)
}

/// The pending approvals a listing returns: the first `limit` (0: all of them).
pub fn pending_page<T>(views: Vec<T>, limit: u32) -> (r: Vec<T>)
    ensures
        r@ == (if limit > 0 && views@.len() > limit { views@.take(limit as int) } else { views@ }),
{
    let mut views = views;
    if limit > 0 && views.len() > limit as usize {
        views.truncate(limit as usize);
    }
    views
}

/// A fold is watermarked: once a tick has folded up to `head` and stored its watermark, a
/// later tick folds nothing again at the same head, and at a later head folds exactly the seqs
/// after it — no entry is folded twice and none is skipped. (A head past `i64::MAX` cannot be
/// stored as a watermark and is left out.)
pub proof fn law_fold_is_watermarked(head: u64, later: u64)
    requires
        head <= i64::MAX,
    ensures
        fold_window_spec(head, db_int_spec(head)) is None,
        head < later ==> fold_window_spec(later, db_int_spec(head)) == Some(((head + 1) as u64, later)),
{
}

// ----- laws on what a fold records -----------------------------------------------------------

/// `w` is the alert a terminal failure `e` raises when folded at `now`: its Mote, seq and code,
/// the reason's wire name, and the severity — `refused` for a deliberate refusal (an executor
/// refusal or an unsafe world-mutating construction), `error` for every other terminal reason.
pub open spec fn alert_for_failure(e: FoldEntry, w: AlertsWriteView, now: u64) -> bool {
    &&& e matches FoldEntry::Failed { mote_id, seq, reason, reason_code }
    &&& reason != FailureReason::TimedOut && reason != FailureReason::WorkerCrashed
    &&& w matches AlertsWriteView::Alert { mote_id: m, seq: s, reason_class: rc, reason_code: c, severity: sv, created: cr, .. }
    &&& m == mote_id@ && s == seq && c == reason_code && cr == now
    &&& sv == (if reason == FailureReason::ExecutorRefused || reason == FailureReason::UnsafeWorldMutatingConstruction {
        "refused"@
    } else {
        "error"@
    })
    &&& rc == (match reason {
        FailureReason::TimedOut => "timed_out"@,
        FailureReason::ExecutorRefused => "executor_refused"@,
        FailureReason::ValidatorRejected => "validator_rejected"@,
        FailureReason::WorkerCrashed => "worker_crashed"@,
        FailureReason::UpstreamRepudiated => "upstream_repudiated"@,
        FailureReason::UnsafeWorldMutatingConstruction => "unsafe_world_mutating_construction"@,
        FailureReason::CompensatedAtLeastOnce => "compensated_at_least_once"@,
        FailureReason::QuarantinedAtLeastOnce => "quarantined_at_least_once"@,
        FailureReason::DeadLettered => "dead_lettered"@,
    })
}

/// Whether `e` is a terminal failure (not a liveness crash that re-dispatches).
pub open spec fn is_terminal_failure(e: FoldEntry) -> bool {
    e matches FoldEntry::Failed { reason, .. } && reason != FailureReason::TimedOut && reason != FailureReason::WorkerCrashed
}

/// Law: the alerts a fold inserts are exactly its terminal failures — every alert row is the
/// alert of some terminal failure among the folded entries (severity `refused` exactly for an
/// executor refusal or an unsafe world-mutating construction, `error` otherwise; the reason
/// under its wire name), and every terminal failure folded raises such a row.
pub proof fn law_alerts_are_the_terminal_failures(seed: Option<Seq<u8>>, entries: Seq<FoldEntry>, now: u64)
    ensures
        forall|k: int| 0 <= k < alerts_fold_spec(seed, entries, now).0.len()
            && (#[trigger] alerts_fold_spec(seed, entries, now).0[k]) is Alert
            ==> exists|j: int| 0 <= j < entries.len() && alert_for_failure(entries[j], alerts_fold_spec(seed, entries, now).0[k], now),
        forall|j: int| 0 <= j < entries.len() && is_terminal_failure(#[trigger] entries[j])
            ==> exists|k: int| 0 <= k < alerts_fold_spec(seed, entries, now).0.len()
                && alert_for_failure(entries[j], alerts_fold_spec(seed, entries, now).0[k], now),
    decreases entries.len(),
{
    if entries.len() > 0 {
        let d = entries.drop_last();
        law_alerts_are_the_terminal_failures(seed, d, now);
        let (ws0, inst0) = alerts_fold_spec(seed, d, now);
        let ws = alerts_fold_spec(seed, entries, now).0;
        let n = entries.len() - 1;
        assert(entries[n] == entries.last());
        assert forall|k: int| 0 <= k < ws.len() && (#[trigger] ws[k]) is Alert
            implies exists|j: int| 0 <= j < entries.len() && alert_for_failure(entries[j], ws[k], now) by {
            if k < ws0.len() {
                assert(ws[k] == ws0[k]);
                let j = choose|j: int| 0 <= j < d.len() && alert_for_failure(d[j], ws0[k], now);
                assert(entries[j] == d[j]);
            } else {
                assert(alert_for_failure(entries[n], ws[k], now));
            }
        }
        assert forall|j: int| 0 <= j < entries.len() && is_terminal_failure(#[trigger] entries[j])
            implies exists|k: int| 0 <= k < ws.len() && alert_for_failure(entries[j], ws[k], now) by {
            if j < n {
                assert(entries[j] == d[j]);
                let k = choose|k: int| 0 <= k < ws0.len() && alert_for_failure(d[j], ws0[k], now);
                assert(ws[k] == ws0[k]);
            } else {
                assert(alert_for_failure(entries[n], ws[ws0.len() as int], now));
            }
        }
    }
}

/// `w` is the capture row a committed action `e` records: its Mote and result ref, its
/// nondeterminism class under its own name (`pure`, `read_only_nondet`, `world_mutating`), and
/// its seq as a store integer.
pub open spec fn record_for_commit(e: FoldEntry, w: CaptureWriteView) -> bool {
    &&& e matches FoldEntry::Committed { mote_id, nd, result_ref, seq }
    &&& w matches CaptureWriteView::Record { mote_id: m, result_ref: r, nd_class: c, seq: s, .. }
    &&& m == mote_id@ && r == result_ref@
    &&& c == (match nd {
        NdClass::Pure => "pure"@,
        NdClass::ReadOnlyNondet => "read_only_nondet"@,
        NdClass::WorldMutating => "world_mutating"@,
    })
    &&& s == (if seq <= i64::MAX { seq as i64 } else { i64::MAX })
}

/// Law: the capture rows a fold writes are exactly its committed actions — every row records
/// some committed entry (its nondeterminism class under its own name), and every committed
/// entry folded is recorded.
pub proof fn law_capture_records_each_commit(seed: Option<Seq<u8>>, entries: Seq<FoldEntry>)
    ensures
        forall|k: int| 0 <= k < capture_fold_spec(seed, entries).0.len()
            && (#[trigger] capture_fold_spec(seed, entries).0[k]) is Record
            ==> exists|j: int| 0 <= j < entries.len() && record_for_commit(entries[j], capture_fold_spec(seed, entries).0[k]),
        forall|j: int| 0 <= j < entries.len() && (#[trigger] entries[j]) is Committed
            ==> exists|k: int| 0 <= k < capture_fold_spec(seed, entries).0.len()
                && record_for_commit(entries[j], capture_fold_spec(seed, entries).0[k]),
    decreases entries.len(),
{
    if entries.len() > 0 {
        let d = entries.drop_last();
        law_capture_records_each_commit(seed, d);
        let ws0 = capture_fold_spec(seed, d).0;
        let ws = capture_fold_spec(seed, entries).0;
        let n = entries.len() - 1;
        assert(entries[n] == entries.last());
        assert forall|k: int| 0 <= k < ws.len() && (#[trigger] ws[k]) is Record
            implies exists|j: int| 0 <= j < entries.len() && record_for_commit(entries[j], ws[k]) by {
            if k < ws0.len() {
                assert(ws[k] == ws0[k]);
                let j = choose|j: int| 0 <= j < d.len() && record_for_commit(d[j], ws0[k]);
                assert(entries[j] == d[j]);
            } else {
                assert(record_for_commit(entries[n], ws[k]));
            }
        }
        assert forall|j: int| 0 <= j < entries.len() && (#[trigger] entries[j]) is Committed
            implies exists|k: int| 0 <= k < ws.len() && record_for_commit(entries[j], ws[k]) by {
            if j < n {
                assert(entries[j] == d[j]);
                let k = choose|k: int| 0 <= k < ws0.len() && record_for_commit(d[j], ws0[k]);
                assert(ws[k] == ws0[k]);
            } else {
                assert(record_for_commit(entries[n], ws[ws0.len() as int]));
            }
        }
    }
}

/// `u` is the ReAct fact a round `e` reports: its turn Mote, turn and where it settled, under
/// the branch's own name (`answer`, `tool`, `dead_lettered`, `pending`).
pub open spec fn fact_for_round(e: FoldEntry, u: (Seq<u8>, u32, Seq<char>)) -> bool {
    &&& e matches FoldEntry::ReactRound { turn, turn_mote_id, branch }
    &&& u == (turn_mote_id@, turn, match branch {
        ReactBranch::Answer => "answer"@,
        ReactBranch::Tool => "tool"@,
        ReactBranch::DeadLettered => "dead_lettered"@,
        ReactBranch::Pending => "pending"@,
    })
}

/// Whether `e` is a ReAct round of the turn Mote `key`.
pub open spec fn round_of(e: FoldEntry, key: Seq<u8>) -> bool {
    e matches FoldEntry::ReactRound { turn_mote_id, .. } && turn_mote_id@ == key
}

/// Every fact is reported by a round of `entries` with no later round of its turn Mote.
#[verifier::opaque]
pub open spec fn facts_are_latest(entries: Seq<FoldEntry>, rs: Seq<(Seq<u8>, u32, Seq<char>)>) -> bool {
    forall|k: int| 0 <= k < rs.len() ==> exists|j: int| 0 <= j < entries.len()
        && fact_for_round(entries[j], #[trigger] rs[k])
        && forall|l: int| j < l < entries.len() ==> !round_of(#[trigger] entries[l], rs[k].0)
}

/// Every turn Mote with a round in `entries` has a fact.
#[verifier::opaque]
pub open spec fn rounds_have_facts(entries: Seq<FoldEntry>, rs: Seq<(Seq<u8>, u32, Seq<char>)>) -> bool {
    forall|j: int| 0 <= j < entries.len() && (#[trigger] entries[j]) is ReactRound ==> exists|k: int|
        0 <= k < rs.len() && round_of(entries[j], rs[k].0)
}

proof fn lemma_fact_kept(d: Seq<FoldEntry>, e: FoldEntry, rs0: Seq<(Seq<u8>, u32, Seq<char>)>, k: int)
    requires
        facts_are_latest(d, rs0),
        0 <= k < rs0.len(),
        !round_of(e, rs0[k].0),
    ensures
        exists|j: int| 0 <= j < d.push(e).len() && fact_for_round(d.push(e)[j], rs0[k])
            && forall|l: int| j < l < d.push(e).len() ==> !round_of(#[trigger] d.push(e)[l], rs0[k].0),
{
    reveal(facts_are_latest);
    reveal(rounds_have_facts);
    let es = d.push(e);
    let j = choose|j: int| 0 <= j < d.len() && fact_for_round(d[j], #[trigger] rs0[k])
        && forall|l: int| j < l < d.len() ==> !round_of(#[trigger] d[l], rs0[k].0);
    assert(es[j] == d[j]);
    assert forall|l: int| j < l < es.len() implies !round_of(#[trigger] es[l], rs0[k].0) by {
        if l < d.len() { assert(es[l] == d[l]); } else { assert(es[l] == e); }
    }
}

proof fn lemma_round_kept(d: Seq<FoldEntry>, e: FoldEntry, rs0: Seq<(Seq<u8>, u32, Seq<char>)>, rs: Seq<(Seq<u8>, u32, Seq<char>)>, j: int)
    requires
        rounds_have_facts(d, rs0),
        0 <= j < d.len(),
        d[j] is ReactRound,
        rs.len() >= rs0.len(),
        forall|k: int| 0 <= k < rs0.len() ==> (#[trigger] rs[k]).0 == rs0[k].0,
    ensures
        exists|k: int| 0 <= k < rs.len() && round_of(d.push(e)[j], rs[k].0),
{
    reveal(facts_are_latest);
    reveal(rounds_have_facts);
    assert(d.push(e)[j] == d[j]);
    let k = choose|k: int| 0 <= k < rs0.len() && round_of(d[j], rs0[k].0);
    assert(rs[k].0 == rs0[k].0);
}

proof fn lemma_new_fact_latest(d: Seq<FoldEntry>, e: FoldEntry, fact: (Seq<u8>, u32, Seq<char>))
    requires
        fact_for_round(e, fact),
    ensures
        exists|j: int| 0 <= j < d.push(e).len() && fact_for_round(d.push(e)[j], fact)
            && forall|l: int| j < l < d.push(e).len() ==> !round_of(#[trigger] d.push(e)[l], fact.0),
{
    assert(d.push(e)[d.len() as int] == e);
}

proof fn lemma_new_round_has_fact(d: Seq<FoldEntry>, e: FoldEntry, rs: Seq<(Seq<u8>, u32, Seq<char>)>, k: int)
    requires
        0 <= k < rs.len(),
        e matches FoldEntry::ReactRound { turn_mote_id, .. } && rs[k].0 == turn_mote_id@,
    ensures
        exists|k2: int| 0 <= k2 < rs.len() && round_of(d.push(e)[d.len() as int], rs[k2].0),
{
    assert(d.push(e)[d.len() as int] == e);
    assert(round_of(e, rs[k].0));
}

#[verifier::spinoff_prover]
proof fn lemma_react_step_update(d: Seq<FoldEntry>, e: FoldEntry, rs0: Seq<(Seq<u8>, u32, Seq<char>)>, c: int, fact: (Seq<u8>, u32, Seq<char>))
    requires
        react_keys_distinct(rs0),
        facts_are_latest(d, rs0),
        rounds_have_facts(d, rs0),
        fact_for_round(e, fact),
        0 <= c < rs0.len(),
        rs0[c].0 == fact.0,
    ensures
        facts_are_latest(d.push(e), rs0.update(c, fact)),
        rounds_have_facts(d.push(e), rs0.update(c, fact)),
{
    reveal(facts_are_latest);
    reveal(rounds_have_facts);
    let es = d.push(e);
    let rs = rs0.update(c, fact);
    let n = d.len() as int;
    assert forall|k: int| 0 <= k < rs.len() implies exists|j: int| 0 <= j < es.len()
        && fact_for_round(es[j], #[trigger] rs[k])
        && forall|l: int| j < l < es.len() ==> !round_of(#[trigger] es[l], rs[k].0) by {
        if k == c {
            lemma_new_fact_latest(d, e, fact);
        } else {
            assert(rs[k] == rs0[k]);
            assert(rs0[k].0 != rs0[c].0);
            assert(!round_of(e, rs0[k].0));
            lemma_fact_kept(d, e, rs0, k);
        }
    }
    assert forall|j: int| 0 <= j < es.len() && (#[trigger] es[j]) is ReactRound implies exists|k: int|
        0 <= k < rs.len() && round_of(es[j], rs[k].0) by {
        if j < n {
            assert(es[j] == d[j]);
            lemma_round_kept(d, e, rs0, rs, j);
        } else {
            lemma_new_round_has_fact(d, e, rs, c);
        }
    }
}

#[verifier::spinoff_prover]
proof fn lemma_react_step_push(d: Seq<FoldEntry>, e: FoldEntry, rs0: Seq<(Seq<u8>, u32, Seq<char>)>, fact: (Seq<u8>, u32, Seq<char>))
    requires
        facts_are_latest(d, rs0),
        rounds_have_facts(d, rs0),
        fact_for_round(e, fact),
        forall|c: int| 0 <= c < rs0.len() ==> (#[trigger] rs0[c]).0 != fact.0,
    ensures
        facts_are_latest(d.push(e), rs0.push(fact)),
        rounds_have_facts(d.push(e), rs0.push(fact)),
{
    reveal(facts_are_latest);
    reveal(rounds_have_facts);
    let es = d.push(e);
    let rs = rs0.push(fact);
    let n = d.len() as int;
    assert forall|k: int| 0 <= k < rs.len() implies exists|j: int| 0 <= j < es.len()
        && fact_for_round(es[j], #[trigger] rs[k])
        && forall|l: int| j < l < es.len() ==> !round_of(#[trigger] es[l], rs[k].0) by {
        if k == rs0.len() {
            lemma_new_fact_latest(d, e, fact);
        } else {
            assert(rs[k] == rs0[k]);
            assert(!round_of(e, rs0[k].0));
            lemma_fact_kept(d, e, rs0, k);
        }
    }
    assert forall|j: int| 0 <= j < es.len() && (#[trigger] es[j]) is ReactRound implies exists|k: int|
        0 <= k < rs.len() && round_of(es[j], rs[k].0) by {
        if j < n {
            assert(es[j] == d[j]);
            lemma_round_kept(d, e, rs0, rs, j);
        } else {
            lemma_new_round_has_fact(d, e, rs, rs0.len() as int);
        }
    }
}

#[verifier::spinoff_prover]
proof fn lemma_react_step_other(d: Seq<FoldEntry>, e: FoldEntry, rs0: Seq<(Seq<u8>, u32, Seq<char>)>)
    requires
        facts_are_latest(d, rs0),
        rounds_have_facts(d, rs0),
        !(e is ReactRound),
    ensures
        facts_are_latest(d.push(e), rs0),
        rounds_have_facts(d.push(e), rs0),
{
    reveal(facts_are_latest);
    reveal(rounds_have_facts);
    let es = d.push(e);
    let n = d.len() as int;
    assert(es[n] == e);
    assert forall|k: int| 0 <= k < rs0.len() implies exists|j: int| 0 <= j < es.len()
        && fact_for_round(es[j], #[trigger] rs0[k])
        && forall|l: int| j < l < es.len() ==> !round_of(#[trigger] es[l], rs0[k].0) by {
        lemma_fact_kept(d, e, rs0, k);
    }
    assert forall|j: int| 0 <= j < es.len() && (#[trigger] es[j]) is ReactRound implies exists|k: int|
        0 <= k < rs0.len() && round_of(es[j], rs0[k].0) by {
        assert(j < n);
        assert(es[j] == d[j]);
        lemma_round_kept(d, e, rs0, rs0, j);
    }
}

/// Law: the ReAct facts a capture fold joins are the LATEST round of each turn Mote — every
/// fact is reported (its branch under its own name) by a round with no later round of the same
/// turn Mote, every turn Mote that had a round has a fact, and no turn Mote has two.
pub proof fn law_react_facts_are_the_latest_rounds(seed: Option<Seq<u8>>, entries: Seq<FoldEntry>)
    ensures
        react_keys_distinct(capture_fold_spec(seed, entries).2),
        facts_are_latest(entries, capture_fold_spec(seed, entries).2),
        rounds_have_facts(entries, capture_fold_spec(seed, entries).2),
    decreases entries.len(),
{
    if entries.len() == 0 {
        reveal(facts_are_latest);
        reveal(rounds_have_facts);
    } else {
        let d = entries.drop_last();
        law_react_facts_are_the_latest_rounds(seed, d);
        let e = entries.last();
        let rs0 = capture_fold_spec(seed, d).2;
        assert(d.push(e) == entries);
        match e {
            FoldEntry::ReactRound { turn, turn_mote_id, branch } => {
                let key = turn_mote_id@;
                let fact = (key, turn, branch_spec(branch));
                lemma_upsert_distinct(rs0, key, turn, branch_spec(branch));
                assert(fact_for_round(e, fact));
                if exists|c: int| 0 <= c < rs0.len() && #[trigger] rs0[c].0 == key {
                    let c = choose|c: int| 0 <= c < rs0.len() && #[trigger] rs0[c].0 == key;
                    lemma_react_step_update(d, e, rs0, c, fact);
                } else {
                    lemma_react_step_push(d, e, rs0, fact);
                }
            },
            _ => {
                assert(capture_fold_spec(seed, entries).2 == rs0);
                lemma_react_step_other(d, e, rs0);
            },
        }
    }
}

} // verus!
