//! The wall clock the catalog's hybrid logical clock reads, and the two
//! warnings reading and appending to the event log can give.
use vstd::prelude::*;
use crate::text::{cat, decimal, push_decimal};

verus! {

/// A point in wall-clock time.
#[verifier::external_type_specification]
#[verifier::external_body]
pub struct ExSystemTime(std::time::SystemTime);

/// `SystemTime::now`: the current wall-clock time; nothing is known of
/// the value.
#[verifier::external_body]
fn system_now() -> std::time::SystemTime {
    std::time::SystemTime::now()
}

/// `SystemTime::duration_since(UNIX_EPOCH)`: how long after the Unix epoch
/// `t` lies, or `None` when `t` lies before it; nothing is known of the
/// value.
#[verifier::external_body]
fn since_epoch(t: &std::time::SystemTime) -> Option<core::time::Duration> {
    t.duration_since(std::time::UNIX_EPOCH).ok()
}

/// `Duration::as_millis`: the whole milliseconds in `d`; nothing is known
/// of the value.
#[verifier::external_body]
fn whole_millis(d: &core::time::Duration) -> u128 {
    d.as_millis()
}

/// A millisecond count as a `u64`, saturating at `u64::MAX`.
pub fn saturating_millis(ms: u128) -> (r: u64)
    ensures
        r == if ms <= u64::MAX as u128 {
            ms as u64
        } else {
            u64::MAX
        },
{
    if ms <= u64::MAX as u128 {
        ms as u64
    } else {
        u64::MAX
    }
}

/// A clock reading as milliseconds since the Unix epoch, from how long
/// after the epoch it lies (`None` for a reading before it): `0` before
/// the epoch, `u64::MAX` past what a `u64` holds.
pub fn epoch_millis(since: Option<u128>) -> (r: u64)
    ensures
        r == match since {
            None => 0,
            Some(ms) => if ms <= u64::MAX as u128 {
                ms as u64
            } else {
                u64::MAX
            },
        },
{
    match since {
        None => 0,
        Some(ms) => saturating_millis(ms),
    }
}

/// Current wall-clock time in milliseconds since the Unix epoch: `0` for
/// a clock set before the epoch, `u64::MAX` past what a `u64` holds.
pub fn physical_now_ms() -> u64 {
    let since: Option<u128> = match since_epoch(&system_now()) {
        Some(d) => Some(whole_millis(&d)),
        None => None,
    };
    epoch_millis(since)
}

/// The wall clock a catalog's logical clock reads.
#[derive(Debug, Clone, Copy)]
pub struct SystemClock;

impl SystemClock {
    /// The wall clock's reading, in milliseconds since the Unix epoch.
    pub fn wall_ms(&self) -> u64 {
        physical_now_ms()
    }
}

/// Milliseconds in a day.
pub const DAY_MS: u64 = 86400000;

/// The warning for events whose timestamps lay more than a day in the
/// future and were clamped: how many, and how many whole days ahead the
/// worst was (`0` if the clock has since caught up).
pub open spec fn clamp_text(clamped: nat, worst_remote_wall_ms: u64, now_ms: u64) -> Seq<char> {
    let ahead: nat = if worst_remote_wall_ms > now_ms {
        (worst_remote_wall_ms - now_ms) as nat
    } else {
        0
    };
    "warning: "@ + decimal(clamped) + " event(s) carry timestamps more than 24h in the future (worst: ~"@ + decimal(
        ahead / (DAY_MS as nat),
    ) + "d ahead) — a peer's clock may be wrong; ordering was clamped locally"@
}

/// The clamp warning, when any event was clamped.
pub fn clamp_warning(clamped: usize, worst_remote_wall_ms: u64, now_ms: u64) -> (r: Option<String>)
    ensures
        clamped == 0 ==> r is None,
        clamped > 0 ==> (r matches Some(m) && m@ == clamp_text(clamped as nat, worst_remote_wall_ms, now_ms)),
{
    if clamped == 0 {
        return None;
    }
    let ahead: u64 = if worst_remote_wall_ms > now_ms { worst_remote_wall_ms - now_ms } else { 0 };
    let mut m = String::new();
    m.append("warning: ");
    push_decimal(&mut m, clamped as u64);
    m.append(" event(s) carry timestamps more than 24h in the future (worst: ~");
    push_decimal(&mut m, ahead / DAY_MS);
    m.append("d ahead) — a peer's clock may be wrong; ordering was clamped locally");
    Some(m)
}

/// The warning for corrupt event-log lines skipped while reading the
/// catalog at `root`.
pub open spec fn skipped_text(skipped: nat, root: Seq<char>) -> Seq<char> {
    "warning: skipped "@ + decimal(skipped) + " corrupt event log line(s) in "@ + root
        + "/events — damaged transport; affected metadata may be missing"@
}

/// The skipped-lines warning, when any line was skipped.
pub fn skipped_lines_warning(skipped: usize, root: &str) -> (r: Option<String>)
    ensures
        skipped == 0 ==> r is None,
        skipped > 0 ==> (r matches Some(m) && m@ == skipped_text(skipped as nat, root@)),
{
    if skipped == 0 {
        return None;
    }
    let mut m = String::new();
    m.append("warning: skipped ");
    push_decimal(&mut m, skipped as u64);
    m.append(" corrupt event log line(s) in ");
    m.append(root);
    m.append("/events — damaged transport; affected metadata may be missing");
    Some(m)
}

/// How many of the first `n` observed events were clamped (`Some`, with
/// the remote wall time they carried).
pub open spec fn clamped_count(observed: Seq<Option<u64>>, n: nat) -> nat
    decreases n,
{
    if n == 0 {
        0
    } else {
        clamped_count(observed, (n - 1) as nat) + if observed[n - 1] is Some { 1nat } else { 0nat }
    }
}

/// The latest remote wall time among the first `n` clamped events, or 0.
pub open spec fn worst_clamped(observed: Seq<Option<u64>>, n: nat) -> u64
    decreases n,
{
    if n == 0 {
        0
    } else {
        let w = worst_clamped(observed, (n - 1) as nat);
        match observed[n - 1] {
            Some(t) => if t > w { t } else { w },
            None => w,
        }
    }
}

/// Tallies what folding the log into the clock observed, event by event
/// (`Some(remote_wall_ms)` for an event clamped as too far in the future):
/// how many were clamped, and the latest remote wall time among them.
pub fn clamp_tally(observed: &Vec<Option<u64>>) -> (r: (usize, u64))
    ensures
        r.0 == clamped_count(observed@, observed.len() as nat),
        r.1 == worst_clamped(observed@, observed.len() as nat),
{
    let mut clamped: usize = 0;
    let mut worst: u64 = 0;
    let mut i: usize = 0;
    while i < observed.len()
        invariant
            i <= observed.len(),
            clamped == clamped_count(observed@, i as nat),
            clamped <= i,
            worst == worst_clamped(observed@, i as nat),
        decreases observed.len() - i,
    {
        match observed[i] {
            Some(t) => {
                clamped = clamped + 1;
                if t > worst {
                    worst = t;
                }
            },
            None => {},
        }
        i = i + 1;
    }
    (clamped, worst)
}

} // verus!
