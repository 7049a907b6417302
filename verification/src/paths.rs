//! The on-disk layout of run logs, relative to the database root.
//!
//! A run's files live under
//! `jobs/<user>/<job-id>/<year>/<month>/<day>/<run-id>/`, with the year,
//! month and day of the start time unpadded; the date sharding only
//! bounds per-directory entry counts.

use vstd::prelude::*;

use crate::digits::dec_digits;
use crate::stamp::{civil_from_days, civil_of_ms, days_part, rfc3339_utc_of, MAX_STAMP_MS};
use crate::stamp::time_string_from_timestamp_ms;

verus! {

/// The directory all job data lives under.
pub open spec fn jobs_dir() -> Seq<char> {
    "jobs"@
}

/// `jobs/<user>/<id>`.
pub open spec fn job_path_of(user: Seq<char>, id: Seq<char>) -> Seq<char> {
    jobs_dir() + seq!['/'] + user + seq!['/'] + id
}

/// `jobs/<user>/<id>/<year>/<month>/<day>/<run-id>`.
pub open spec fn run_path_of(user: Seq<char>, id: Seq<char>, start_ms: int) -> Seq<char> {
    let c = civil_from_days(days_part(start_ms));
    job_path_of(user, id) + seq!['/'] + dec_digits(c.0 as nat) + seq!['/'] + dec_digits(c.1 as nat)
        + seq!['/'] + dec_digits(c.2 as nat) + seq!['/'] + rfc3339_utc_of(start_ms)
}

/// The run directory with `/log` appended.
pub open spec fn log_path_of(user: Seq<char>, id: Seq<char>, start_ms: int) -> Seq<char> {
    run_path_of(user, id, start_ms) + seq!['/'] + "log"@
}

/// The directory a job's runs live under.
pub fn job_path(user: &str, id: &str) -> (r: String)
    ensures
        r@ == job_path_of(user@, id@),
{
    let mut out = "jobs/".to_owned();
    out.append(user);
    out.append("/");
    out.append(id);
    proof {
        reveal_strlit("jobs");
        reveal_strlit("jobs/");
        reveal_strlit("/");
        assert(out@ =~= job_path_of(user@, id@));
    }
    out
}

/// The directory one run's files live under.
pub fn run_path(user: &str, id: &str, start_ms: i64) -> (r: String)
    requires
        0 <= start_ms <= MAX_STAMP_MS,
    ensures
        r@ == run_path_of(user@, id@, start_ms as int),
{
    let civ = civil_of_ms(start_ms);
    let mut out = job_path(user, id);
    out.append("/");
    let ys = crate::digits::u64_to_dec(civ.0 as u64);
    out.append(ys.as_str());
    out.append("/");
    let mos = crate::digits::u64_to_dec(civ.1 as u64);
    out.append(mos.as_str());
    out.append("/");
    let ds = crate::digits::u64_to_dec(civ.2 as u64);
    out.append(ds.as_str());
    out.append("/");
    let stamp = time_string_from_timestamp_ms(start_ms);
    out.append(stamp.as_str());
    proof {
        reveal_strlit("/");
        assert(out@ =~= run_path_of(user@, id@, start_ms as int));
    }
    out
}

/// The log file of one run.
pub fn log_path(user: &str, id: &str, start_ms: i64) -> (r: String)
    requires
        0 <= start_ms <= MAX_STAMP_MS,
    ensures
        r@ == log_path_of(user@, id@, start_ms as int),
{
    let mut out = run_path(user, id, start_ms);
    out.append("/log");
    proof {
        reveal_strlit("/");
        reveal_strlit("log");
        reveal_strlit("/log");
        assert("/log"@ =~= seq!['/'] + "log"@);
        assert(out@ =~= log_path_of(user@, id@, start_ms as int));
    }
    out
}

} // verus!
