//! Decisions of the HTTP surface that do not touch storage: how a log
//! is delivered in a run response, and which query-parameter shapes the
//! list endpoints accept.

use vstd::prelude::*;

verus! {

/// The largest log, in bytes, that a run response carries inline; a
/// longer log is linked and fetched in windows.
pub const INLINE_LOG_MAX: u64 = 300_000;

/// What the run-create endpoint answers: the client token, the job id
/// that was derived or accepted, and the textual run identifier.
#[derive(Clone, Debug)]
pub struct CreateRunResp {
    /// Decimal text of the 128-bit client token.
    pub id: String,
    pub job_id: String,
    pub run_id: String,
}

/// How a run response carries the log.
#[derive(Clone, Copy, Debug, PartialEq, Eq, Structural)]
pub enum LogDelivery {
    /// Nothing was ever written: no log field at all.
    Empty,
    /// The whole log rides along in the response.
    Inline,
    /// The response links the windowed log endpoint instead.
    Linked,
}

/// The delivery rule for a log of `len` bytes.
pub open spec fn spec_log_delivery(len: u64) -> LogDelivery {
    if len == 0 {
        LogDelivery::Empty
    } else if len <= INLINE_LOG_MAX {
        LogDelivery::Inline
    } else {
        LogDelivery::Linked
    }
}

/// Decides how a run response carries its log.
pub fn log_delivery(len: u64) -> (r: LogDelivery)
    ensures
        r == spec_log_delivery(len),
{
    if len == 0 {
        LogDelivery::Empty
    } else if len <= INLINE_LOG_MAX {
        LogDelivery::Inline
    } else {
        LogDelivery::Linked
    }
}

/// The recent-runs endpoint takes `after` or `id`, never both and never
/// neither.
pub fn recent_query_ok(after: Option<u64>, have_ids: bool) -> (r: bool)
    ensures
        r == ((after is Some) != have_ids),
{
    match after {
        Some(_) => !have_ids,
        None => have_ids,
    }
}

} // verus!
