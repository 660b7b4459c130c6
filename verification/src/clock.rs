//! Wall-clock milliseconds (audit-only; off every hash) and the cron fire decision.
use vstd::prelude::*;
use vstd::string::*;

use crate::text::{decimal, push_decimal, push_str};

verus! {

/// `SystemTime::now()` since the Unix epoch, in whole milliseconds; `None` for a clock set
/// before the epoch. The time itself is whatever the machine says, so nothing is stated of it.
#[verifier::external_body]
fn epoch_millis() -> (r: Option<u128>) {
    std::time::SystemTime::now().duration_since(std::time::UNIX_EPOCH).ok().map(|d| d.as_millis())
}

/// Milliseconds as a `u64`: 0 for a clock before the epoch, `u64::MAX` past it.
pub fn millis_u64(ms: Option<u128>) -> (r: u64)
    ensures
        r == (match ms { None => 0, Some(m) => if m <= u64::MAX { m as u64 } else { u64::MAX } }),
{
    match ms {
        None => 0,
        Some(m) => if m <= 18446744073709551615u128 { m as u64 } else { 18446744073709551615u64 },
    }
}

/// Milliseconds as an `i64`: 0 for a clock before the epoch, `i64::MAX` past it.
pub fn millis_i64(ms: Option<u128>) -> (r: i64)
    ensures
        r == (match ms { None => 0, Some(m) => if m <= i64::MAX { m as i64 } else { i64::MAX } }),
{
    match ms {
        None => 0,
        Some(m) => if m <= 9223372036854775807u128 { m as i64 } else { 9223372036854775807i64 },
    }
}

/// Wall-clock milliseconds since the epoch as a `u64` (saturating).
pub fn now_unix_ms() -> (r: u64) {
    millis_u64(epoch_millis())
}

/// Wall-clock milliseconds since the epoch as an `i64` (saturating).
pub fn now_ms() -> (r: i64)
    ensures
        r >= 0,
{
    millis_i64(epoch_millis())
}

// ----- cron -----------------------------------------------------------------------------------

/// The back-off after a schedule that no longer parses at fire time: one hour.
pub const CRON_BACKOFF_MS: u64 = 3600000;

pub open spec fn fire_key_spec(name: Seq<char>, next_fire: u64) -> Seq<char> {
    "cron:"@ + name + ":"@ + decimal(next_fire as nat)
}

/// The idempotency key of a cron fire: bound to the trigger and the scheduled tick that made
/// it due, so a retried or raced tick with the same watermark dedups.
pub fn fire_key(name: &str, next_fire_unix_ms: u64) -> (r: String)
    ensures
        r@ == fire_key_spec(name@, next_fire_unix_ms),
{
    let mut k = String::from_str("cron:");
    push_str(&mut k, name);
    push_str(&mut k, ":");
    push_decimal(&mut k, next_fire_unix_ms);
    k
}

/// The trigger's next watermark: the schedule's next fire, or (for a schedule that no longer
/// parses) an hour from now, saturating, rather than hot-looping the poll.
pub fn next_watermark(next_fire: Option<u64>, now: u64) -> (r: u64)
    ensures
        r == (match next_fire { Some(n) => n, None => if now + CRON_BACKOFF_MS <= u64::MAX { (now + CRON_BACKOFF_MS) as u64 } else { u64::MAX } }),
{
    match next_fire {
        Some(n) => n,
        None => now.saturating_add(CRON_BACKOFF_MS),
    }
}

/// One due trigger's fire: the watermark to store BEFORE firing (so neither a slow submit nor
/// the next tick re-picks it) and the idempotency key bound to the tick that made it due.
pub struct CronFire {
    pub watermark: u64,
    pub key: String,
}

/// Plan the fire of a trigger due at `due_at`, given its schedule's next fire after `now`
/// (`None` when the stored schedule no longer parses).
pub fn cron_fire(name: &str, due_at: u64, next_fire: Option<u64>, now: u64) -> (r: CronFire)
    ensures
        r.watermark == (match next_fire { Some(n) => n, None => if now + CRON_BACKOFF_MS <= u64::MAX { (now + CRON_BACKOFF_MS) as u64 } else { u64::MAX } }),
        r.key@ == fire_key_spec(name@, due_at),
{
    CronFire { watermark: next_watermark(next_fire, now), key: fire_key(name, due_at) }
}

/// What to submit once the store has answered the watermark write: the fire's key when the
/// watermark was stored, nothing when it was not (the trigger is skipped this tick rather than
/// fired without a guard against re-firing).
pub fn cron_submit(fire: CronFire, stored: bool) -> (r: Option<String>)
    ensures
        stored ==> (r matches Some(k) && k@ == fire.key@),
        !stored ==> r is None,
{
    if stored { Some(fire.key) } else { None }
}

} // verus!
