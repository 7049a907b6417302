//! Verified core of `syncron`, a supervisor and archive for externally
//! triggered command executions.  A thin client wraps a shell command,
//! streams its output and liveness signals to a server, and enforces a
//! timeout; the server persists every execution ("run") with its command
//! line, environment, log, exit disposition and heartbeats, applies
//! retention policy, and pushes live updates through a topic broker.
//!
//! This crate holds the decision logic of both sides: identifier and slug
//! rules, the run state machine, topic filters, log windowing, retention
//! selection, progress profiles, and the textual formats the server
//! persists.  The surrounding I/O (HTTP, SQLite, files) lives outside and
//! hands these functions plain values.

use vstd::prelude::*;

pub mod api;
pub mod cli;
pub mod digits;
pub mod filter;
pub mod human;
pub mod ids;
pub mod logwin;
pub mod maybe_utf8;
pub mod paths;
pub mod progress;
pub mod prune;
pub mod runstate;
pub mod sse;
pub mod stamp;
pub mod status;
pub mod strops;

verus! {

/// The failure taxonomy of the library.  Storage and network failures of
/// the surrounding process are reported through `Storage`; the remaining
/// variants are decisions this crate makes itself.
#[derive(Clone, Copy, Debug, PartialEq, Eq, Structural)]
pub enum SyncError {
    /// An identifier was empty, contained `/`, or began with `.`.
    BadIdentifier,
    /// A topic filter used `+` or `#` outside the wildcard rules.
    BadFilter,
    /// The requested job or run does not exist, or its client token was
    /// already cleared.
    NotFound,
    /// A completion arrived for a run that already has a status.
    AlreadyCompleted,
    /// A persisted or transmitted text did not parse.
    Parse,
    /// The storage layer failed.
    Storage,
    /// The platform's random source failed.
    RandomSource,
}

impl SyncError {
    /// A short human-readable description.
    pub fn message(&self) -> (r: String)
        ensures
            r@.len() > 0,
    {
        let s: &str = match self {
            SyncError::BadIdentifier => "bad identifier",
            SyncError::BadFilter => "bad topic filter",
            SyncError::NotFound => "not found",
            SyncError::AlreadyCompleted => "already completed",
            SyncError::Parse => "parse error",
            SyncError::Storage => "storage error",
            SyncError::RandomSource => "random source error",
        };
        proof {
            reveal_strlit("bad identifier");
            reveal_strlit("bad topic filter");
            reveal_strlit("not found");
            reveal_strlit("already completed");
            reveal_strlit("parse error");
            reveal_strlit("storage error");
            reveal_strlit("random source error");
        }
        s.to_owned()
    }
}

/// Prefixes an error text with its origin, the context layer that
/// storage failures bubble up with.
pub fn wrap_msg(context: &str, detail: &str) -> (r: String)
    ensures
        r@ == context@ + ": "@ + detail@,
{
    let mut out = context.to_owned();
    out.append(": ");
    out.append(detail);
    proof {
        assert(out@ =~= context@ + ": "@ + detail@);
    }
    out
}

} // verus!
