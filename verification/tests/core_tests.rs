use syncron::api::{log_delivery, recent_query_ok, LogDelivery};
use syncron::cli::{choose_shell, parse_name_env, parse_timespec};
use syncron::ids::{check_ident, slug};
use syncron::maybe_utf8::MaybeUtf8;
use syncron::progress::{
    compact_progress, estimate_progress, parse_progress_line, progress_line, Progress,
    ProgressBucket, ProgressEntry,
};
use syncron::prune::{
    effective_retention, make_pruned, plan_prune, prune_stats_for, push_capped, JobRetention,
    JobSettings, Pruned, RetentionSettings, RunMeta,
};
use syncron::runstate::{duration_of, liveness_action, LivenessAction, RunState};
use syncron::sse::{sse_line, ServerSentEvent};
use syncron::status::{
    parse_status_json, status_from_wait, status_to_json, success_for, ExitStatus, OutKind,
};
use syncron::SyncError;

#[test]
fn slug_corner_cases() {
    assert_eq!(slug("David's The _absolute_ Greatest"), "david-s-the-absolute-greatest");
    assert_eq!(slug("---a--"), "a");
    assert_eq!(slug(""), "");
    assert_eq!(slug("Hello World 42"), "hello-world-42");
}

#[test]
fn slug_is_idempotent_on_samples() {
    for input in ["David's The _absolute_ Greatest", "---a--", "", "X  Y", "a-b-c", "^@^"] {
        let once = slug(input);
        assert_eq!(slug(&once), once);
    }
}

#[test]
fn identifier_rules() {
    assert!(check_ident("my-job"));
    assert!(!check_ident(""));
    assert!(!check_ident("a/b"));
    assert!(!check_ident(".hidden"));
}

#[test]
fn status_json_exact_text() {
    assert_eq!(status_to_json(&ExitStatus::Exited(0)), "{\"Exited\":0}");
    assert_eq!(status_to_json(&ExitStatus::Exited(-3)), "{\"Exited\":-3}");
    assert_eq!(status_to_json(&ExitStatus::Signal(9)), "{\"Signal\":9}");
    assert_eq!(status_to_json(&ExitStatus::CoreDump(11)), "{\"CoreDump\":11}");
    assert_eq!(status_to_json(&ExitStatus::ServerTimeout), "\"ServerTimeout\"");
    assert_eq!(status_to_json(&ExitStatus::ClientTimeout), "\"ClientTimeout\"");
}

#[test]
fn status_json_round_trips() {
    for st in [
        ExitStatus::Exited(0),
        ExitStatus::Exited(-1),
        ExitStatus::Exited(i32::MIN),
        ExitStatus::Exited(i32::MAX),
        ExitStatus::Signal(15),
        ExitStatus::CoreDump(6),
        ExitStatus::ServerTimeout,
        ExitStatus::ClientTimeout,
    ] {
        assert_eq!(parse_status_json(&status_to_json(&st)), Some(st));
    }
}

#[test]
fn status_json_rejects_junk() {
    assert_eq!(parse_status_json(""), None);
    assert_eq!(parse_status_json("{\"Exited\":007}"), None);
    assert_eq!(parse_status_json("{\"Exited\":-0}"), None);
    assert_eq!(parse_status_json("{\"Exited\":2147483648}"), None);
    assert_eq!(parse_status_json("\"Nonsense\""), None);
    assert_eq!(parse_status_json("{\"Exited\":1"), None);
}

#[test]
fn success_rule() {
    assert!(success_for(ExitStatus::Exited(0), 12345));
    assert!(success_for(ExitStatus::Exited(0), 0));
    assert!(success_for(ExitStatus::Exited(3), 0));
    assert!(!success_for(ExitStatus::Exited(3), 1));
    assert!(!success_for(ExitStatus::Signal(9), 0));
    assert!(!success_for(ExitStatus::ServerTimeout, 0));
    assert!(!success_for(ExitStatus::ClientTimeout, 0));
}

#[test]
fn wait_mapping() {
    assert_eq!(status_from_wait(Some(0), None, false, true), Some(ExitStatus::ClientTimeout));
    assert_eq!(status_from_wait(Some(3), None, false, false), Some(ExitStatus::Exited(3)));
    assert_eq!(status_from_wait(None, Some(9), false, false), Some(ExitStatus::Signal(9)));
    assert_eq!(status_from_wait(None, Some(6), true, false), Some(ExitStatus::CoreDump(6)));
    assert_eq!(status_from_wait(None, None, false, false), None);
}

#[test]
fn out_kind_names() {
    assert_eq!(OutKind::Stdout.name(), "stdout");
    assert_eq!(OutKind::Stderr.name(), "stderr");
}

#[test]
fn run_lifecycle() {
    let live = RunState::new_run(5, 42);
    assert_eq!(live.client_id, Some(42));
    assert_eq!(live.status, None);
    let done = live.complete(ExitStatus::Exited(0), 10, 0);
    assert_eq!(done.status, Some(ExitStatus::Exited(0)));
    assert_eq!(done.client_id, None);
    assert_eq!(done.success, Some(true));
    assert_eq!(done.end_ms, Some(10));
}

#[test]
fn heartbeat_timeout_is_detected() {
    // a very old liveness tick forces the server-timeout path
    let mut run = RunState::new_run(0, 7);
    run = run.set_heartbeat(0);
    assert_eq!(liveness_action(&run, 30_001), LivenessAction::CompleteServerTimeout);
    let done = run.complete(ExitStatus::ServerTimeout, 30_001, 0);
    assert_eq!(done.status, Some(ExitStatus::ServerTimeout));
    assert_eq!(done.client_id, None);
    assert_eq!(done.success, Some(false));
}

#[test]
fn fresh_heartbeat_is_left_alone() {
    let mut run = RunState::new_run(0, 7);
    run = run.set_heartbeat(0);
    assert_eq!(liveness_action(&run, 30_000), LivenessAction::Leave);
    let missing = RunState::new_run(0, 7);
    assert_eq!(liveness_action(&missing, 1000), LivenessAction::RecordHeartbeat);
    let done = run.complete(ExitStatus::Exited(0), 50, 0);
    assert_eq!(liveness_action(&done, 999_999_999), LivenessAction::Leave);
}

#[test]
fn durations() {
    assert_eq!(duration_of(5, 10), Some(5));
    assert_eq!(duration_of(10, 5), None);
}

#[test]
fn retention_resolution() {
    let custom = RetentionSettings { max_age: Some(7), max_runs: None, max_size: None };
    let global = RetentionSettings { max_age: None, max_runs: Some(10), max_size: None };
    let own = JobSettings { retention: JobRetention::Custom(custom) };
    let inherit = JobSettings { retention: JobRetention::Default };
    assert_eq!(effective_retention(&own, &global), custom);
    assert_eq!(effective_retention(&inherit, &global), global);
}

#[test]
fn prune_by_run_count() {
    let day: i64 = 86_400_000;
    let now: i64 = 10 * day;
    let runs = vec![
        RunMeta { start_ms: now, size: 100 },
        RunMeta { start_ms: now - 2 * day, size: 200 },
        RunMeta { start_ms: now - 5 * day, size: 300 },
    ];
    let ret = RetentionSettings { max_age: None, max_runs: Some(1), max_size: None };
    let choices = plan_prune(&runs, &ret, now);
    assert!(!choices[0].prune);
    assert!(choices[1].prune);
    assert_eq!(choices[1].reason, "exceeded max runs (1 > 1)");
    assert!(choices[2].prune);
    assert_eq!(choices[2].reason, "exceeded max runs (2 > 1)");
    let stats = prune_stats_for(&runs, &choices);
    assert_eq!(stats.pruned.runs + stats.kept.runs, runs.len());
    assert_eq!(stats.pruned.runs, 2);
    assert_eq!(stats.pruned.size, 500);
    assert_eq!(stats.kept.size, 100);
}

#[test]
fn prune_by_age_and_size() {
    let day: i64 = 86_400_000;
    let now: i64 = 10 * day;
    let runs = vec![
        RunMeta { start_ms: now, size: 100 },
        RunMeta { start_ms: now - 2 * day, size: 200 },
        RunMeta { start_ms: now - 5 * day, size: 300 },
    ];
    let by_age = RetentionSettings { max_age: Some(3), max_runs: None, max_size: None };
    let choices = plan_prune(&runs, &by_age, now);
    assert!(!choices[0].prune && !choices[1].prune && choices[2].prune);
    assert_eq!(choices[2].reason, "exceeded max age (5 > 3)");
    let by_size = RetentionSettings { max_age: None, max_runs: None, max_size: Some(250) };
    let choices = plan_prune(&runs, &by_size, now);
    assert!(!choices[0].prune && choices[1].prune && choices[2].prune);
    assert_eq!(choices[1].reason, "exceeded max size (300 > 250)");
    assert_eq!(choices[2].reason, "exceeded max size (600 > 250)");
}

#[test]
fn prune_nothing_when_unlimited() {
    let runs = vec![RunMeta { start_ms: 0, size: 100 }];
    let ret = RetentionSettings { max_age: None, max_runs: None, max_size: None };
    let choices = plan_prune(&runs, &ret, 1_000_000);
    assert!(!choices[0].prune);
    let stats = prune_stats_for(&runs, &choices);
    assert_eq!(stats.pruned.runs, 0);
    assert_eq!(stats.kept.runs, 1);
}

#[test]
fn prune_report_is_capped() {
    let mut list: Vec<Pruned> = Vec::new();
    for i in 0..1005u32 {
        push_capped(
            &mut list,
            make_pruned(1, i as i64, 10, String::from("exceeded max runs (1 > 0)")),
        );
    }
    assert_eq!(list.len(), 1000);
    assert_eq!(list[0].run_id, "1970-01-01T00:00:00.000Z");
}

#[test]
fn progress_line_format() {
    assert_eq!(progress_line(1234, 56), "{\"timestamp_ms\":1234,\"bytes\":56}");
    assert_eq!(progress_line(-5, 0), "{\"timestamp_ms\":-5,\"bytes\":0}");
}

#[test]
fn progress_line_round_trips() {
    for (ts, b) in [(0i64, 0u64), (1234, 56), (-5, 7), (i64::MAX, u64::MAX)] {
        let line = progress_line(ts, b);
        assert_eq!(parse_progress_line(&line), Some(ProgressEntry { ts_ms: ts, bytes: b }));
    }
    assert_eq!(parse_progress_line(""), None);
    assert_eq!(parse_progress_line("{\"timestamp_ms\":12}"), None);
    assert_eq!(parse_progress_line("{\"timestamp_ms\":12,\"bytes\":007}"), None);
    assert_eq!(parse_progress_line("{\"timestamp_ms\":a,\"bytes\":1}"), None);
}

#[test]
fn progress_compaction_buckets() {
    // one late burst: an empty leading bucket, then everything
    let es = vec![ProgressEntry { ts_ms: 50, bytes: 5 }];
    let buckets = compact_progress(&es, 0, 100);
    assert_eq!(
        buckets,
        vec![
            ProgressBucket { cum_ms: 0, cum_bytes: 0 },
            ProgressBucket { cum_ms: 50, cum_bytes: 5 },
        ]
    );
    // steady output: one bucket per tenth of the run
    let steady: Vec<ProgressEntry> =
        (1..=10).map(|i| ProgressEntry { ts_ms: i * 10, bytes: 10 }).collect();
    let buckets = compact_progress(&steady, 0, 100);
    assert_eq!(buckets.len(), 10);
    assert_eq!(buckets[0], ProgressBucket { cum_ms: 10, cum_bytes: 10 });
    assert_eq!(buckets[9], ProgressBucket { cum_ms: 100, cum_bytes: 100 });
    // nothing recorded, nothing compacted
    let empty: Vec<ProgressEntry> = Vec::new();
    assert_eq!(compact_progress(&empty, 0, 100), Vec::new());
}

#[test]
fn progress_estimate() {
    let profile = vec![ProgressBucket { cum_ms: 100, cum_bytes: 10 }];
    assert_eq!(
        estimate_progress(&profile, 5, 50),
        Some(Progress { percent_bp: 5000, eta_seconds: 0 })
    );
    // the profile predicts completion already passed: no estimate
    assert_eq!(estimate_progress(&profile, 10, 200), None);
    // more output than the profile ever saw: no estimate
    assert_eq!(estimate_progress(&profile, 11, 50), None);
    // no profile: no estimate
    let empty: Vec<ProgressBucket> = Vec::new();
    assert_eq!(estimate_progress(&empty, 5, 50), None);
}

#[test]
fn progress_estimate_is_monotone_in_bytes() {
    // the shape compaction produces for a late first chunk: an empty
    // leading bucket, which bracketing must skip
    let profile = vec![
        ProgressBucket { cum_ms: 0, cum_bytes: 0 },
        ProgressBucket { cum_ms: 50, cum_bytes: 5 },
    ];
    assert_eq!(
        estimate_progress(&profile, 0, 40),
        Some(Progress { percent_bp: 4000, eta_seconds: 0 })
    );
    assert_eq!(
        estimate_progress(&profile, 1, 40),
        Some(Progress { percent_bp: 5000, eta_seconds: 0 })
    );
    let mut last = 0;
    for bytes in 0..=5u64 {
        let p = estimate_progress(&profile, bytes, 40).expect("estimate defined");
        assert!(p.percent_bp >= last);
        last = p.percent_bp;
    }
}

#[test]
fn progress_estimate_on_silent_profile() {
    // a profile that never recorded bytes estimates a still-silent run
    // from the time share alone, and nothing else
    let silent = vec![ProgressBucket { cum_ms: 50, cum_bytes: 0 }];
    assert_eq!(
        estimate_progress(&silent, 0, 10),
        Some(Progress { percent_bp: 2000, eta_seconds: 0 })
    );
    assert_eq!(estimate_progress(&silent, 1, 10), None);
}

#[test]
fn sse_stream_decoding() {
    let mut pending = ServerSentEvent::default();
    let mut out;
    (pending, out) = sse_line(pending, "data: hello");
    assert!(out.is_none());
    (pending, out) = sse_line(pending, ": keepalive");
    assert!(out.is_none());
    (pending, out) = sse_line(pending, "data: world");
    assert!(out.is_none());
    (pending, out) = sse_line(pending, "event: update");
    assert!(out.is_none());
    (pending, out) = sse_line(pending, "");
    let ev = out.expect("an event dispatches on the blank line");
    assert_eq!(ev.event, "update");
    assert_eq!(ev.data, "hello\nworld");
    assert_eq!(pending.event, "message");
    (_, out) = sse_line(pending, "");
    assert!(out.is_none());
}

#[test]
fn maybe_utf8_selector_and_losslessness() {
    let text = MaybeUtf8::from_bytes(vec![104, 105]);
    assert!(matches!(text, MaybeUtf8::Text(_)));
    assert_eq!(text.into_bytes(), vec![104, 105]);
    let raw = MaybeUtf8::from_bytes(vec![0xff, 0x00, 65]);
    assert!(matches!(raw, MaybeUtf8::Bytes(_)));
    assert_eq!(raw.into_bytes(), vec![0xff, 0x00, 65]);
}

#[test]
fn timespec_parsing() {
    assert_eq!(parse_timespec("90"), Ok(90));
    assert_eq!(parse_timespec("30s"), Ok(30));
    assert_eq!(parse_timespec("5m"), Ok(300));
    assert_eq!(parse_timespec("2h"), Ok(7200));
    assert_eq!(parse_timespec("1d"), Ok(86400));
    assert_eq!(parse_timespec(""), Err(SyncError::Parse));
    assert_eq!(parse_timespec("m"), Err(SyncError::Parse));
    assert_eq!(parse_timespec("10y"), Err(SyncError::Parse));
    assert_eq!(parse_timespec("10ss"), Err(SyncError::Parse));
}

#[test]
fn name_env_convention() {
    assert_eq!(parse_name_env("@my-id My Job"), (Some("my-id".into()), Some("My Job".into())));
    assert_eq!(parse_name_env("@only-id"), (Some("only-id".into()), None));
    assert_eq!(parse_name_env("Plain Name"), (None, Some("Plain Name".into())));
}

#[test]
fn shell_pick() {
    assert_eq!(
        choose_shell(Some("/bin/zsh".into()), Some("/bin/bash".into()), Some("/usr/bin/syncron".into())),
        "/bin/zsh"
    );
    assert_eq!(choose_shell(None, Some("/bin/bash".into()), Some("/usr/bin/syncron".into())), "/bin/bash");
    // SHELL pointing back at this binary would recurse: fall back
    assert_eq!(choose_shell(None, Some("/usr/bin/syncron".into()), Some("/usr/bin/syncron".into())), "/bin/sh");
    assert_eq!(choose_shell(None, None, None), "/bin/sh");
}

#[test]
fn log_delivery_rule() {
    assert_eq!(log_delivery(0), LogDelivery::Empty);
    assert_eq!(log_delivery(1), LogDelivery::Inline);
    assert_eq!(log_delivery(300_000), LogDelivery::Inline);
    assert_eq!(log_delivery(300_001), LogDelivery::Linked);
}

#[test]
fn recent_query_needs_exactly_one_selector() {
    assert!(recent_query_ok(Some(5), false));
    assert!(recent_query_ok(None, true));
    assert!(!recent_query_ok(Some(5), true));
    assert!(!recent_query_ok(None, false));
}

#[test]
fn error_context_wrapping() {
    assert_eq!(syncron::wrap_msg("db::Job", "no such row"), "db::Job: no such row");
}

#[test]
fn error_messages() {
    for e in [
        SyncError::BadIdentifier,
        SyncError::BadFilter,
        SyncError::NotFound,
        SyncError::AlreadyCompleted,
        SyncError::Parse,
        SyncError::Storage,
        SyncError::RandomSource,
    ] {
        assert!(!e.message().is_empty());
    }
}
