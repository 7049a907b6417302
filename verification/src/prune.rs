//! Retention policy and the prune selection rule.
//!
//! Runs of a job are considered newest first.  A run is pruned when it
//! exceeds the effective retention policy: too old (`max_age`, days),
//! too many newer runs (`max_runs`), or too much log data accumulated
//! from the newest run down to it (`max_size`, bytes).  Statistics stay
//! exact while the enumerated list of pruned runs is capped.

use vstd::prelude::*;

use crate::digits::{dec_digits, int_digits, i64_to_dec, u128_to_dec, u64_to_dec};
use crate::stamp::{rfc3339_utc_of, time_string_from_timestamp_ms, MAX_STAMP_MS};

verus! {

/// The most entries a prune report enumerates; statistics stay exact
/// beyond it.
pub const PRUNE_LIST_CAP: usize = 1000;

/// Per-job retention limits; an unset field does not constrain.
#[derive(Clone, Copy, Debug, PartialEq, Eq, Structural)]
pub struct RetentionSettings {
    /// Prune runs at least this many days old.
    pub max_age: Option<usize>,
    /// Prune runs with at least this many newer runs.
    pub max_runs: Option<usize>,
    /// Prune runs once the log bytes from the newest run down to them
    /// reach this total.
    pub max_size: Option<usize>,
}

impl Default for RetentionSettings {
    /// No limits set.
    fn default() -> (r: RetentionSettings)
        ensures
            r.max_age is None,
            r.max_runs is None,
            r.max_size is None,
    {
        RetentionSettings { max_age: None, max_runs: None, max_size: None }
    }
}

/// A job either follows the global retention setting or carries its own.
#[derive(Clone, Copy, Debug, PartialEq, Eq, Structural)]
pub enum JobRetention {
    Default,
    Custom(RetentionSettings),
}

impl Default for JobRetention {
    /// Follow the global setting.
    fn default() -> (r: JobRetention)
        ensures
            r is Default,
    {
        JobRetention::Default
    }
}

/// The per-job settings stored in the job row.
#[derive(Clone, Copy, Debug, PartialEq, Eq, Structural)]
pub struct JobSettings {
    pub retention: JobRetention,
}

impl Default for JobSettings {
    fn default() -> (r: JobSettings)
        ensures
            r.retention is Default,
    {
        JobSettings { retention: JobRetention::Default }
    }
}

/// The retention that actually governs a job: its own custom setting if
/// it has one, otherwise the global one.
pub open spec fn spec_effective_retention(
    settings: JobSettings,
    global: RetentionSettings,
) -> RetentionSettings {
    match settings.retention {
        JobRetention::Custom(r) => r,
        JobRetention::Default => global,
    }
}

/// Resolves the retention that governs a job.
pub fn effective_retention(settings: &JobSettings, global: &RetentionSettings) -> (r:
    RetentionSettings)
    ensures
        r == spec_effective_retention(*settings, *global),
{
    match settings.retention {
        JobRetention::Custom(r) => r,
        JobRetention::Default => *global,
    }
}

/// What the prune pass needs to know of one run.
#[derive(Clone, Copy, Debug, PartialEq, Eq, Structural)]
pub struct RunMeta {
    /// Start of the run, milliseconds since the Unix epoch.
    pub start_ms: i64,
    /// Size of the run's log file in bytes.
    pub size: u64,
}

/// One run pruned by a prune pass.
#[derive(Clone, Debug)]
pub struct Pruned {
    pub job_id: i64,
    pub run_id: String,
    pub size: usize,
    pub reason: String,
}

/// Counted runs and their total log bytes.
#[derive(Clone, Copy, Debug, PartialEq, Eq, Structural)]
pub struct RunCount {
    pub runs: usize,
    pub size: usize,
}

impl Default for RunCount {
    fn default() -> (r: RunCount)
        ensures
            r.runs == 0,
            r.size == 0,
    {
        RunCount { runs: 0, size: 0 }
    }
}

/// What a prune pass did: how many runs it pruned and kept, and how
/// many log bytes each side held.
#[derive(Clone, Copy, Debug, PartialEq, Eq, Structural)]
pub struct PruneStats {
    pub pruned: RunCount,
    pub kept: RunCount,
}

impl Default for PruneStats {
    fn default() -> (r: PruneStats)
        ensures
            r.pruned.runs == 0,
            r.pruned.size == 0,
            r.kept.runs == 0,
            r.kept.size == 0,
    {
        PruneStats { pruned: RunCount { runs: 0, size: 0 }, kept: RunCount { runs: 0, size: 0 } }
    }
}

impl PruneStats {
    /// Accounts one considered run: onto the pruned side when its
    /// deletion went through, onto the kept side otherwise.  Counts
    /// saturate at the machine word; every call lands on exactly one
    /// side, so pruned plus kept grows by exactly one.
    pub fn record(&mut self, size: u64, pruned: bool)
        ensures
            pruned ==> final(self).pruned.runs as nat == sat_usize(old(self).pruned.runs as nat
                + 1) && final(self).pruned.size as nat == sat_usize(
                old(self).pruned.size as nat + size as nat,
            ) && final(self).kept == old(self).kept,
            !pruned ==> final(self).kept.runs as nat == sat_usize(old(self).kept.runs as nat + 1)
                && final(self).kept.size as nat == sat_usize(
                old(self).kept.size as nat + size as nat,
            ) && final(self).pruned == old(self).pruned,
    {
        if pruned {
            self.pruned.runs = sat_add_usize(self.pruned.runs, 1);
            self.pruned.size = sat_add_u64(self.pruned.size, size);
        } else {
            self.kept.runs = sat_add_usize(self.kept.runs, 1);
            self.kept.size = sat_add_u64(self.kept.size, size);
        }
    }
}

fn sat_add_usize(a: usize, b: usize) -> (r: usize)
    ensures
        r as nat == sat_usize(a as nat + b as nat),
{
    if a > usize::MAX - b {
        usize::MAX
    } else {
        a + b
    }
}

fn sat_add_u64(a: usize, b: u64) -> (r: usize)
    ensures
        r as nat == sat_usize(a as nat + b as nat),
{
    if (b as u128) > (usize::MAX as u128) || a > usize::MAX - (b as usize) {
        usize::MAX
    } else {
        a + (b as usize)
    }
}

/// Whole days elapsed from `start` to `now` (milliseconds), truncated
/// toward zero.
pub open spec fn age_days_of(now: int, start: int) -> int {
    if now >= start {
        (now - start) / 86_400_000
    } else {
        -((start - now) / 86_400_000)
    }
}

/// The log bytes of runs `0..=i` in newest-first order: what the runs
/// newer than run `i`, and run `i` itself, occupy together.
pub open spec fn total_through(runs: Seq<RunMeta>, i: int) -> nat
    decreases i + 1,
{
    if i < 0 {
        0
    } else {
        total_through(runs, i - 1) + runs[i].size as nat
    }
}

/// Whether run `i` (newest-first order, so `i` is the number of newer
/// runs) is pruned under `ret`.  The age rule wins over the count rule,
/// which wins over the size rule.
pub open spec fn spec_should_prune(
    runs: Seq<RunMeta>,
    ret: RetentionSettings,
    now_ms: int,
    i: int,
) -> bool {
    let age = age_days_of(now_ms, runs[i].start_ms as int);
    if ret.max_age matches Some(m) && age >= m as int {
        true
    } else if ret.max_runs matches Some(m) && i >= m as int {
        true
    } else if ret.max_size matches Some(m) && total_through(runs, i) >= m as nat {
        true
    } else {
        false
    }
}

/// The reason text recorded for a pruned run.
pub open spec fn spec_prune_reason(
    runs: Seq<RunMeta>,
    ret: RetentionSettings,
    now_ms: int,
    i: int,
) -> Seq<char> {
    let age = age_days_of(now_ms, runs[i].start_ms as int);
    if ret.max_age is Some && age >= ret.max_age->0 as int {
        "exceeded max age ("@ + int_digits(age) + " > "@ + dec_digits(ret.max_age->0 as nat) + ")"@
    } else if ret.max_runs is Some && i >= ret.max_runs->0 as int {
        "exceeded max runs ("@ + dec_digits(i as nat) + " > "@ + dec_digits(ret.max_runs->0 as nat)
            + ")"@
    } else if ret.max_size is Some && total_through(runs, i) >= ret.max_size->0 as nat {
        "exceeded max size ("@ + dec_digits(total_through(runs, i)) + " > "@ + dec_digits(
            ret.max_size->0 as nat,
        ) + ")"@
    } else {
        Seq::empty()
    }
}

/// The decision of a prune pass for one run.
#[derive(Clone, Debug)]
pub struct PruneChoice {
    /// Whether the run is pruned.
    pub prune: bool,
    /// The reason recorded when it is; empty when it is kept.
    pub reason: String,
}

/// Whole days elapsed from `start_ms` to `now_ms`, truncated toward
/// zero.
pub fn age_days(now_ms: i64, start_ms: i64) -> (r: i64)
    ensures
        r as int == age_days_of(now_ms as int, start_ms as int),
{
    if now_ms >= start_ms {
        let d: i128 = ((now_ms as i128) - (start_ms as i128)) / 86_400_000;
        d as i64
    } else {
        let d: i128 = ((start_ms as i128) - (now_ms as i128)) / 86_400_000;
        let r: i128 = -d;
        r as i64
    }
}

fn reason_string(prefix: &str, lhs: String, m: u64) -> (r: String)
    ensures
        r@ == prefix@ + lhs@ + " > "@ + dec_digits(m as nat) + ")"@,
{
    let mut out = prefix.to_owned();
    out.append(lhs.as_str());
    out.append(" > ");
    let md = u64_to_dec(m);
    out.append(md.as_str());
    out.append(")");
    proof {
        assert(out@ =~= prefix@ + lhs@ + " > "@ + dec_digits(m as nat) + ")"@);
    }
    out
}

/// Decides, for every run of a job in newest-first order, whether the
/// retention policy prunes it, and with which reason.
pub fn plan_prune(runs: &Vec<RunMeta>, ret: &RetentionSettings, now_ms: i64) -> (r: Vec<
    PruneChoice,
>)
    ensures
        r.len() == runs.len(),
        forall|i: int|
            0 <= i < runs.len() ==> (#[trigger] r[i]).prune == spec_should_prune(
                runs@,
                *ret,
                now_ms as int,
                i,
            ),
        forall|i: int|
            0 <= i < runs.len() ==> (#[trigger] r[i]).reason@ == spec_prune_reason(
                runs@,
                *ret,
                now_ms as int,
                i,
            ),
{
    let len = runs.len();
    let mut out: Vec<PruneChoice> = Vec::new();
    let mut total: u128 = 0;
    let mut i: usize = 0;
    while i < len
        invariant
            0 <= i <= len,
            len == runs.len(),
            out.len() == i,
            total == total_through(runs@, i as int - 1),
            forall|j: int|
                0 <= j < i ==> (#[trigger] out[j]).prune == spec_should_prune(
                    runs@,
                    *ret,
                    now_ms as int,
                    j,
                ),
            forall|j: int|
                0 <= j < i ==> (#[trigger] out[j]).reason@ == spec_prune_reason(
                    runs@,
                    *ret,
                    now_ms as int,
                    j,
                ),
        decreases len - i,
    {
        let meta = runs[i];
        proof {
            // each run's size fits u64 and at most usize::MAX runs exist,
            // so the running total stays far below u128::MAX
            assert(total_through(runs@, i as int) == total_through(runs@, i as int - 1)
                + runs@[i as int].size);
            lemma_total_through_bound(runs@, i as int);
            assert((i as int + 1) * (u64::MAX as nat) < u128::MAX as nat) by (nonlinear_arith)
                requires
                    0 <= i as int + 1 <= 0x1_0000_0000_0000_0000,
            ;
        }
        total = total + (meta.size as u128);
        let age = age_days(now_ms, meta.start_ms);
        let choice: PruneChoice = if let Some(m) = ret.max_age {
            if age >= 0 && (age as u64) >= (m as u64) {
                let reason = reason_string("exceeded max age (", i64_to_dec(age), m as u64);
                PruneChoice { prune: true, reason }
            } else {
                prune_rest(runs, ret, i, total, age, now_ms)
            }
        } else {
            prune_rest(runs, ret, i, total, age, now_ms)
        };
        out.push(choice);
        i += 1;
    }
    out
}

/// The count and size rules, tried after the age rule declined.
fn prune_rest(
    runs: &Vec<RunMeta>,
    ret: &RetentionSettings,
    i: usize,
    total: u128,
    age: i64,
    now_ms: i64,
) -> (r: PruneChoice)
    requires
        i < runs.len(),
        age as int == age_days_of(now_ms as int, runs@[i as int].start_ms as int),
        total == total_through(runs@, i as int),
        match ret.max_age {
            Some(m) => (age as int) < (m as int),
            None => true,
        },
    ensures
        r.prune == spec_should_prune(runs@, *ret, now_ms as int, i as int),
        r.reason@ == spec_prune_reason(runs@, *ret, now_ms as int, i as int),
{
    if let Some(m) = ret.max_runs {
        if i >= m {
            let reason = reason_string("exceeded max runs (", u64_to_dec(i as u64), m as u64);
            return PruneChoice { prune: true, reason };
        }
    }
    if let Some(m) = ret.max_size {
        if total >= m as u128 {
            let reason = reason_string("exceeded max size (", u128_to_dec(total), m as u64);
            proof {
                assert(total as nat == total_through(runs@, i as int));
            }
            return PruneChoice { prune: true, reason };
        }
    }
    PruneChoice { prune: false, reason: String::new() }
}

/// The running total stays below `u128::MAX`: there are at most
/// `usize::MAX` runs of at most `u64::MAX` bytes each.
pub proof fn lemma_total_through_bound(runs: Seq<RunMeta>, i: int)
    requires
        -1 <= i < runs.len(),
    ensures
        total_through(runs, i) <= (i + 1) * (u64::MAX as nat),
    decreases i + 1,
{
    if i >= 0 {
        lemma_total_through_bound(runs, i - 1);
        assert((i + 1) * (u64::MAX as int) == i * (u64::MAX as int) + u64::MAX as int)
            by (nonlinear_arith);
    } else {
        assert(total_through(runs, i) == 0);
    }
}

/// How many of the choices prune their run.
pub open spec fn count_pruned(cs: Seq<PruneChoice>) -> nat
    decreases cs.len(),
{
    if cs.len() == 0 {
        0
    } else {
        count_pruned(cs.drop_last()) + if cs.last().prune {
            1nat
        } else {
            0nat
        }
    }
}

pub proof fn lemma_count_pruned_le(cs: Seq<PruneChoice>)
    ensures
        count_pruned(cs) <= cs.len(),
    decreases cs.len(),
{
    if cs.len() > 0 {
        lemma_count_pruned_le(cs.drop_last());
    }
}

/// Saturating byte totals: counts stay exact, sizes cap at the machine
/// word.
pub open spec fn sat_usize(n: nat) -> nat {
    if n > usize::MAX as nat {
        usize::MAX as nat
    } else {
        n
    }
}

/// The log bytes of the runs selected (`want == true`) or kept
/// (`want == false`) among the first `i` choices.
pub open spec fn side_size(runs: Seq<RunMeta>, cs: Seq<PruneChoice>, i: int, want: bool) -> nat
    decreases i + 1,
{
    if i < 0 {
        0
    } else {
        side_size(runs, cs, i - 1, want) + if cs[i].prune == want {
            runs[i].size as nat
        } else {
            0
        }
    }
}

/// Accounting for a prune pass over `runs` with decisions `cs`: every
/// run considered lands on exactly one side, so the pruned and kept
/// counts add up to the number of runs considered.
pub fn prune_stats_for(runs: &Vec<RunMeta>, cs: &Vec<PruneChoice>) -> (r: PruneStats)
    requires
        cs.len() == runs.len(),
    ensures
        r.pruned.runs + r.kept.runs == runs.len(),
        r.pruned.runs == count_pruned(cs@),
        r.pruned.size == sat_usize(side_size(runs@, cs@, runs.len() as int - 1, true)),
        r.kept.size == sat_usize(side_size(runs@, cs@, runs.len() as int - 1, false)),
{
    let len = runs.len();
    let mut pruned_runs: usize = 0;
    let mut kept_runs: usize = 0;
    let mut pruned_size: u128 = 0;
    let mut kept_size: u128 = 0;
    let mut i: usize = 0;
    while i < len
        invariant
            0 <= i <= len,
            len == runs.len(),
            len == cs.len(),
            pruned_runs + kept_runs == i,
            pruned_runs == count_pruned(cs@.take(i as int)),
            pruned_size == side_size(runs@, cs@, i as int - 1, true),
            kept_size == side_size(runs@, cs@, i as int - 1, false),
        decreases len - i,
    {
        proof {
            assert(cs@.take(i as int + 1).drop_last() =~= cs@.take(i as int));
            assert(cs@.take(i as int + 1).last() == cs@[i as int]);
            lemma_side_size_bound(runs@, cs@, i as int, true);
            lemma_side_size_bound(runs@, cs@, i as int, false);
            assert((i as int + 1) * (u64::MAX as nat) < u128::MAX as nat) by (nonlinear_arith)
                requires
                    0 <= i as int + 1 <= 0x1_0000_0000_0000_0000,
            ;
            assert(side_size(runs@, cs@, i as int, true) == side_size(runs@, cs@, i as int - 1, true)
                + if cs@[i as int].prune {
                runs@[i as int].size as nat
            } else {
                0nat
            });
            assert(side_size(runs@, cs@, i as int, false) == side_size(runs@, cs@, i as int - 1, false)
                + if !cs@[i as int].prune {
                runs@[i as int].size as nat
            } else {
                0nat
            });
        }
        if cs[i].prune {
            pruned_runs += 1;
            pruned_size += runs[i].size as u128;
        } else {
            kept_runs += 1;
            kept_size += runs[i].size as u128;
        }
        i += 1;
    }
    proof {
        assert(cs@.take(len as int) =~= cs@);
    }
    PruneStats {
        pruned: RunCount { runs: pruned_runs, size: clamp_usize(pruned_size) },
        kept: RunCount { runs: kept_runs, size: clamp_usize(kept_size) },
    }
}

/// A side's byte total is bounded by the number of runs on it.
pub proof fn lemma_side_size_bound(runs: Seq<RunMeta>, cs: Seq<PruneChoice>, i: int, want: bool)
    requires
        -1 <= i < runs.len(),
    ensures
        side_size(runs, cs, i, want) <= (i + 1) * (u64::MAX as nat),
    decreases i + 1,
{
    if i >= 0 {
        lemma_side_size_bound(runs, cs, i - 1, want);
        assert((i + 1) * (u64::MAX as int) == i * (u64::MAX as int) + u64::MAX as int)
            by (nonlinear_arith);
    } else {
        assert(side_size(runs, cs, i, want) == 0);
    }
}

fn clamp_usize(n: u128) -> (r: usize)
    ensures
        r as nat == sat_usize(n as nat),
{
    if n > usize::MAX as u128 {
        usize::MAX
    } else {
        n as usize
    }
}

/// Appends a pruned entry to the report unless the cap is reached; the
/// statistics stay exact regardless.
pub fn push_capped(list: &mut Vec<Pruned>, entry: Pruned)
    ensures
        old(list).len() < PRUNE_LIST_CAP ==> final(list)@ == old(list)@.push(entry),
        old(list).len() >= PRUNE_LIST_CAP ==> final(list)@ == old(list)@,
{
    if list.len() < PRUNE_LIST_CAP {
        list.push(entry);
    }
}

/// Builds the report entry for one pruned run, identified by the
/// textual form of its start time.
pub fn make_pruned(job_id: i64, start_ms: i64, size: usize, reason: String) -> (r: Pruned)
    requires
        0 <= start_ms <= MAX_STAMP_MS,
    ensures
        r.job_id == job_id,
        r.run_id@ == rfc3339_utc_of(start_ms as int),
        r.size == size,
        r.reason == reason,
{
    Pruned { job_id, run_id: time_string_from_timestamp_ms(start_ms), size, reason }
}

/// Every considered run is counted exactly once: pruned plus kept
/// equals the total.
pub proof fn lemma_prune_accounting(cs: Seq<PruneChoice>)
    ensures
        count_pruned(cs) + (cs.len() - count_pruned(cs)) == cs.len(),
        count_pruned(cs) <= cs.len(),
{
    lemma_count_pruned_le(cs);
}

} // verus!
