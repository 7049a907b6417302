//! The lifecycle state of a run row.
//!
//! A run is created with a live 128-bit client token and no status; a
//! completion (client-reported or server-inferred) clears the token,
//! records the status, the end time and the success flag.  The central
//! invariant: a run has either a live token or a final status, never
//! both and never neither.

use vstd::prelude::*;

use crate::status::{spec_success, success_for, ExitStatus};

verus! {

/// A run is timed out by the server when its last heartbeat is older
/// than this many milliseconds at query time.
pub const SERVER_TIMEOUT_MS: i64 = 30_000;

/// The mutable lifecycle columns of a run row.
#[derive(Clone, Copy, Debug)]
pub struct RunState {
    /// Start of the run, milliseconds since the Unix epoch.
    pub start_ms: i64,
    /// The live client token; cleared at completion.
    pub client_id: Option<u128>,
    /// The final disposition; set at completion.
    pub status: Option<ExitStatus>,
    /// The success flag derived from the status and the log length.
    pub success: Option<bool>,
    /// End of the run, milliseconds since the Unix epoch.
    pub end_ms: Option<i64>,
    /// The last liveness tick, milliseconds since the Unix epoch.
    pub heartbeat_ms: Option<i64>,
}

impl RunState {
    /// The row invariant: exactly one of a live client token with no
    /// status, or a status with no token; the success flag and the end
    /// time exist exactly for completed runs.
    pub open spec fn wf(self) -> bool {
        &&& self.client_id is Some <==> self.status is None
        &&& self.status is Some <==> self.success is Some
        &&& self.status is Some <==> self.end_ms is Some
    }

    /// A freshly created run: live token, no status, no heartbeat yet.
    pub fn new_run(start_ms: i64, client_id: u128) -> (r: RunState)
        ensures
            r.wf(),
            r.start_ms == start_ms,
            r.client_id == Some(client_id),
            r.status is None,
            r.success is None,
            r.end_ms is None,
            r.heartbeat_ms is None,
    {
        RunState {
            start_ms,
            client_id: Some(client_id),
            status: None,
            success: None,
            end_ms: None,
            heartbeat_ms: None,
        }
    }

    /// The state after completing with `status` at `now_ms`, given the
    /// length of the run's log file.
    pub open spec fn spec_complete(self, status: ExitStatus, now_ms: i64, log_len: u64) -> RunState {
        RunState {
            client_id: None,
            status: Some(status),
            success: Some(spec_success(status, log_len)),
            end_ms: Some(now_ms),
            ..self
        }
    }

    /// Completes a live run: clears the token, records status, end and
    /// success.
    pub fn complete(self, status: ExitStatus, now_ms: i64, log_len: u64) -> (r: RunState)
        requires
            self.wf(),
            self.status is None,
        ensures
            r == self.spec_complete(status, now_ms, log_len),
            r.wf(),
            r.status == Some(status),
            r.client_id is None,
            r.end_ms == Some(now_ms),
            r.success == Some(spec_success(status, log_len)),
            r.start_ms == self.start_ms,
            r.heartbeat_ms == self.heartbeat_ms,
    {
        RunState {
            client_id: None,
            status: Some(status),
            success: Some(success_for(status, log_len)),
            end_ms: Some(now_ms),
            ..self
        }
    }

    /// The state with its heartbeat set to `now_ms`.
    pub open spec fn spec_set_heartbeat(self, now_ms: i64) -> RunState {
        RunState { heartbeat_ms: Some(now_ms), ..self }
    }

    /// Records a liveness tick.
    pub fn set_heartbeat(self, now_ms: i64) -> (r: RunState)
        ensures
            r == self.spec_set_heartbeat(now_ms),
            self.wf() ==> r.wf(),
    {
        RunState { heartbeat_ms: Some(now_ms), ..self }
    }
}

/// What an `info` query must do about a run's liveness.
#[derive(Clone, Copy, Debug, PartialEq, Eq, Structural)]
pub enum LivenessAction {
    /// The run is uncompleted and its heartbeat is older than the
    /// threshold: complete it as `ServerTimeout`.
    CompleteServerTimeout,
    /// The run is uncompleted and has no heartbeat at all: write one
    /// now, so that stale rows become eligible for the timeout later.
    RecordHeartbeat,
    /// Completed, or still fresh: leave the row alone.
    Leave,
}

/// The liveness decision for a run at query time.
pub open spec fn spec_liveness_action(s: RunState, now_ms: i64) -> LivenessAction {
    if s.status is None {
        match s.heartbeat_ms {
            Some(h) => if now_ms - h > SERVER_TIMEOUT_MS as int {
                LivenessAction::CompleteServerTimeout
            } else {
                LivenessAction::Leave
            },
            None => LivenessAction::RecordHeartbeat,
        }
    } else {
        LivenessAction::Leave
    }
}

/// Decides what an `info` query does about the run's liveness.
pub fn liveness_action(s: &RunState, now_ms: i64) -> (r: LivenessAction)
    ensures
        r == spec_liveness_action(*s, now_ms),
{
    match s.status {
        Some(_) => LivenessAction::Leave,
        None => match s.heartbeat_ms {
            Some(h) => {
                let gap: i128 = (now_ms as i128) - (h as i128);
                if gap > SERVER_TIMEOUT_MS as i128 {
                    LivenessAction::CompleteServerTimeout
                } else {
                    LivenessAction::Leave
                }
            },
            None => LivenessAction::RecordHeartbeat,
        },
    }
}

/// The duration of a completed run, `None` when its clock ran backwards.
pub fn duration_of(start_ms: i64, end_ms: i64) -> (r: Option<u64>)
    ensures
        end_ms >= start_ms ==> r == Some((end_ms - start_ms) as u64),
        end_ms < start_ms ==> r is None,
{
    if end_ms >= start_ms {
        let d: i128 = (end_ms as i128) - (start_ms as i128);
        Some(d as u64)
    } else {
        None
    }
}

/// Every run state satisfying the invariant is in exactly one of the
/// two phases: live (token set, no status) or completed (status set, no
/// token), and completion moves a live run to the completed phase.
pub proof fn lemma_run_phases(s: RunState, status: ExitStatus, now_ms: i64, log_len: u64)
    requires
        s.wf(),
    ensures
        (s.client_id is Some && s.status is None) || (s.client_id is None && s.status is Some),
        !((s.client_id is Some && s.status is None) && (s.client_id is None && s.status is Some)),
        s.status is None ==> s.spec_complete(status, now_ms, log_len).wf(),
        s.status is None ==> s.spec_complete(status, now_ms, log_len).client_id is None
            && s.spec_complete(status, now_ms, log_len).status == Some(status),
{
}

/// The success rule, stated over the completion transition: the stored
/// flag is true exactly for a zero exit code, or any exit code with an
/// empty log.
pub proof fn lemma_success_rule(s: RunState, status: ExitStatus, now_ms: i64, log_len: u64)
    requires
        s.wf(),
        s.status is None,
    ensures
        s.spec_complete(status, now_ms, log_len).success == Some(true) <==> (match status {
            ExitStatus::Exited(c) => c == 0 || log_len == 0,
            _ => false,
        }),
{
}

/// Once a run completes with a status, every later query reports that
/// status: the liveness check leaves a completed row alone.
pub proof fn lemma_completed_run_reports_status(
    s: RunState,
    st: ExitStatus,
    now1: i64,
    now2: i64,
    log_len: u64,
)
    requires
        s.wf(),
        s.status is None,
    ensures
        s.spec_complete(st, now1, log_len).status == Some(st),
        spec_liveness_action(s.spec_complete(st, now1, log_len), now2) == LivenessAction::Leave,
{
}

/// A stale heartbeat on an uncompleted run forces the server-timeout
/// path: the liveness check demands completion, and the resulting state
/// reports `ServerTimeout` with its client token cleared.
pub proof fn lemma_server_timeout(s: RunState, now_ms: i64, log_len: u64)
    requires
        s.wf(),
        s.status is None,
        s.heartbeat_ms matches Some(h) && now_ms - h > SERVER_TIMEOUT_MS as int,
    ensures
        spec_liveness_action(s, now_ms) == LivenessAction::CompleteServerTimeout,
        s.spec_complete(ExitStatus::ServerTimeout, now_ms, log_len).status == Some(
            ExitStatus::ServerTimeout,
        ),
        s.spec_complete(ExitStatus::ServerTimeout, now_ms, log_len).client_id is None,
        s.spec_complete(ExitStatus::ServerTimeout, now_ms, log_len).success == Some(false),
{
}

} // verus!
