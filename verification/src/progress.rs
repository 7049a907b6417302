//! Output-tempo profiles: recording, compaction, and the progress
//! estimate for an in-flight run.
//!
//! While a run executes, every log append records one `(timestamp,
//! bytes)` entry.  At completion the chronological entries are squeezed
//! into buckets of roughly a tenth of the total duration each, keeping
//! the cumulative time offset and byte count at each bucket boundary.
//! A later run is estimated against its predecessor's buckets: a time
//! share from the elapsed wall clock, a byte share interpolated inside
//! the bucket that brackets the current log length, and their mean.

use vstd::prelude::*;

use crate::digits::{
    all_dec_digits, dec_digits, dec_val, i64_to_dec, int_digits, is_dec_digit, lemma_dec_canon,
    lemma_dec_digits_no_leading_zero, lemma_dec_digits_wf, lemma_dec_round_trip,
    lemma_int_digits_wf, parse_dec_u64, parse_i64_dec, u64_to_dec,
};
use crate::strops::str_prefix_eq;

verus! {

/// One recorded log append: when, and how many bytes.
#[derive(Clone, Copy, Debug, PartialEq, Eq, Structural)]
pub struct ProgressEntry {
    /// Milliseconds since the Unix epoch.
    pub ts_ms: i64,
    /// Bytes appended.
    pub bytes: u64,
}

/// One compacted bucket: the run's state at the bucket boundary.
#[derive(Clone, Copy, Debug, PartialEq, Eq, Structural)]
pub struct ProgressBucket {
    /// Milliseconds into the run.
    pub cum_ms: i64,
    /// Log bytes written so far.
    pub cum_bytes: u64,
}

/// The progress estimate for an in-flight run: a share in basis points
/// (10000 = done) and the expected seconds left.
#[derive(Clone, Copy, Debug, PartialEq, Eq, Structural)]
pub struct Progress {
    pub percent_bp: u32,
    pub eta_seconds: u32,
}

/// The line recorded in the per-run progress file for one append.
pub open spec fn progress_line_json(ts: int, bytes: nat) -> Seq<char> {
    "{\"timestamp_ms\":"@ + int_digits(ts) + ",\"bytes\":"@ + dec_digits(bytes) + "}"@
}

/// Renders one progress-file line.
pub fn progress_line(ts_ms: i64, bytes: u64) -> (r: String)
    ensures
        r@ == progress_line_json(ts_ms as int, bytes as nat),
{
    let mut out = "{\"timestamp_ms\":".to_owned();
    let t = i64_to_dec(ts_ms);
    out.append(t.as_str());
    out.append(",\"bytes\":");
    let b = u64_to_dec(bytes);
    out.append(b.as_str());
    out.append("}");
    proof {
        assert(out@ =~= progress_line_json(ts_ms as int, bytes as nat));
    }
    out
}


/// No character of a rendered integer is a comma, so the first comma
/// after the opening tag separates the two fields.
proof fn lemma_int_digits_no_comma(v: int)
    ensures
        forall|k: int| 0 <= k < int_digits(v).len() ==> #[trigger] int_digits(v)[k] != ',',
{
    let d = int_digits(v);
    let m: nat = if v < 0 {
        (-v) as nat
    } else {
        v as nat
    };
    lemma_dec_digits_wf(m);
    assert forall|k: int| 0 <= k < d.len() implies #[trigger] d[k] != ',' by {
        vstd::utf8::char_u32_cast(',', ',' as u32);
        vstd::utf8::char_u32_cast('-', '-' as u32);
        assert(',' as u32 == 44);
        if v < 0 {
            if k == 0 {
                assert(d[0] == '-');
            } else {
                assert(d[k] == dec_digits(m)[k - 1]);
                assert(is_dec_digit(d[k]));
                vstd::utf8::char_u32_cast(d[k], d[k] as u32);
            }
        } else {
            assert(is_dec_digit(d[k]));
            vstd::utf8::char_u32_cast(d[k], d[k] as u32);
        }
    }
}

/// The fixed positions inside a rendered progress line: the tag, the
/// timestamp text, the separator, the byte count, the closing brace.
#[verifier::rlimit(60)]
#[verifier::spinoff_prover]
proof fn lemma_line_shape(ts: int, b: nat)
    ensures
        progress_line_json(ts, b).len() == 26 + int_digits(ts).len() + dec_digits(b).len(),
        progress_line_json(ts, b).len() >= 28,
        progress_line_json(ts, b).take(16) == "{\"timestamp_ms\":"@,
        progress_line_json(ts, b).subrange(16, 16 + int_digits(ts).len() as int) == int_digits(ts),
        progress_line_json(ts, b)[16 + int_digits(ts).len() as int] == ',',
        progress_line_json(ts, b).subrange(
            16 + int_digits(ts).len() as int,
            25 + int_digits(ts).len() as int,
        ) == ",\"bytes\":"@,
        progress_line_json(ts, b).subrange(
            25 + int_digits(ts).len() as int,
            progress_line_json(ts, b).len() - 1,
        ) == dec_digits(b),
        progress_line_json(ts, b).last() == '}',
        forall|j: int|
            16 <= j < 16 + int_digits(ts).len() ==> #[trigger] progress_line_json(ts, b)[j]
                == int_digits(ts)[j - 16],
{
    reveal_strlit("{\"timestamp_ms\":");
    reveal_strlit(",\"bytes\":");
    reveal_strlit("}");
    lemma_int_digits_wf(ts);
    lemma_dec_digits_wf(b);
    let t1 = "{\"timestamp_ms\":"@;
    let t2 = ",\"bytes\":"@;
    let d1 = int_digits(ts);
    let db = dec_digits(b);
    let line = progress_line_json(ts, b);
    let p2 = t1 + d1;
    let p3 = p2 + t2;
    let p4 = p3 + db;
    let p5 = p4 + "}"@;
    assert(line == p5);
    assert("}"@ =~= seq!['}']);
    assert(t2[0] == ',');
    assert(line.take(16) =~= t1);
    assert(line.subrange(16, 16 + d1.len() as int) =~= d1);
    assert(line.subrange(16 + d1.len() as int, 25 + d1.len() as int) =~= t2);
    assert(line.subrange(25 + d1.len() as int, line.len() - 1) =~= db);
}

/// Where the comma scan must land on a rendered line: at the end of the
/// timestamp text.
proof fn lemma_comma_position(ts: int, b: nat, p: int)
    requires
        16 <= p <= progress_line_json(ts, b).len(),
        forall|j: int| 16 <= j < p ==> #[trigger] progress_line_json(ts, b)[j] != ',',
        p < progress_line_json(ts, b).len() ==> progress_line_json(ts, b)[p] == ',',
    ensures
        p == 16 + int_digits(ts).len(),
{
    lemma_line_shape(ts, b);
    lemma_int_digits_no_comma(ts);
    let d1 = int_digits(ts);
    if p > 16 + d1.len() {
        assert(progress_line_json(ts, b)[16 + d1.len() as int] == ',');
    } else if p < 16 + d1.len() {
        assert(progress_line_json(ts, b)[p] == d1[p - 16]);
    }
}

/// Reads one progress-file line back.  Succeeds exactly on the outputs
/// of `progress_line`.
#[verifier::rlimit(100)]
#[verifier::spinoff_prover]
pub fn parse_progress_line(s: &str) -> (r: Option<ProgressEntry>)
    ensures
        r matches Some(e) ==> s@ == progress_line_json(e.ts_ms as int, e.bytes as nat),
        r is None ==> forall|ts: i64, b: u64|
            s@ != #[trigger] progress_line_json(ts as int, b as nat),
{
    let len = s.unicode_len();
    if !str_prefix_eq(s, "{\"timestamp_ms\":") || len < 28 {
        proof {
            assert forall|ts: i64, b: u64|
                s@ != #[trigger] progress_line_json(ts as int, b as nat) by {
                if s@ == progress_line_json(ts as int, b as nat) {
                    lemma_line_shape(ts as int, b as nat);
                }
            }
        }
        return None;
    }
    let mut p: usize = 16;
    while p < len
        invariant
            16 <= p <= len,
            len == s@.len(),
            forall|j: int| 16 <= j < p ==> #[trigger] s@[j] != ',',
        ensures
            16 <= p <= len,
            forall|j: int| 16 <= j < p ==> #[trigger] s@[j] != ',',
            p < len ==> s@[p as int] == ',',
        decreases len - p,
    {
        if s.get_char(p) == ',' {
            break ;
        }
        p += 1;
    }
    if p == len || len - p < 11 {
        proof {
            assert forall|ts: i64, b: u64|
                s@ != #[trigger] progress_line_json(ts as int, b as nat) by {
                if s@ == progress_line_json(ts as int, b as nat) {
                    lemma_line_shape(ts as int, b as nat);
                    lemma_comma_position(ts as int, b as nat, p as int);
                }
            }
        }
        return None;
    }
    let ts_sub = s.substring_char(16, p);
    let rest = s.substring_char(p, len);
    proof {
        assert(ts_sub@ == s@.subrange(16, p as int));
        assert(rest@ == s@.subrange(p as int, len as int));
    }
    let ts = match parse_i64_dec(ts_sub) {
        Some(t) => t,
        None => {
            proof {
                assert forall|ts: i64, b: u64|
                    s@ != #[trigger] progress_line_json(ts as int, b as nat) by {
                    if s@ == progress_line_json(ts as int, b as nat) {
                        lemma_line_shape(ts as int, b as nat);
                        lemma_comma_position(ts as int, b as nat, p as int);
                        assert(ts_sub@ =~= int_digits(ts as int));
                    }
                }
            }
            return None;
        },
    };
    let rlen = len - p;
    if !str_prefix_eq(rest, ",\"bytes\":") || s.get_char(len - 1) != '}' {
        proof {
            assert forall|ts2: i64, b: u64|
                s@ != #[trigger] progress_line_json(ts2 as int, b as nat) by {
                if s@ == progress_line_json(ts2 as int, b as nat) {
                    reveal_strlit(",\"bytes\":");
                    assert(",\"bytes\":"@.len() == 9);
                    lemma_line_shape(ts2 as int, b as nat);
                    lemma_comma_position(ts2 as int, b as nat, p as int);
                    let d1 = int_digits(ts2 as int);
                    assert(rest@.take(9) =~= s@.subrange(16 + d1.len() as int, 25 + d1.len() as int));
                    assert(rest@.take(9) == ",\"bytes\":"@);
                    assert(rest@.take(",\"bytes\":"@.len() as int) == ",\"bytes\":"@);
                    assert(rest@.len() >= 9);
                    assert(s@[s@.len() - 1] == '}');
                    assert(s@[len - 1] == '}');
                }
            }
        }
        return None;
    }
    let b_sub = rest.substring_char(9, rlen - 1);
    proof {
        assert(b_sub@ =~= s@.subrange(p as int + 9, len as int - 1));
    }
    let blen = rlen - 10;
    let bytes = match parse_dec_u64(b_sub) {
        Some(v) => v,
        None => {
            proof {
                assert forall|ts2: i64, b: u64|
                    s@ != #[trigger] progress_line_json(ts2 as int, b as nat) by {
                    if s@ == progress_line_json(ts2 as int, b as nat) {
                        lemma_line_shape(ts2 as int, b as nat);
                        lemma_comma_position(ts2 as int, b as nat, p as int);
                        lemma_dec_round_trip(b as nat);
                        lemma_dec_digits_wf(b as nat);
                        assert(b_sub@ =~= dec_digits(b as nat));
                        assert(all_dec_digits(b_sub@));
                        assert(dec_val(b_sub@) == b as nat);
                    }
                }
            }
            return None;
        },
    };
    if blen > 1 && b_sub.get_char(0) == '0' {
        proof {
            assert forall|ts2: i64, b: u64|
                s@ != #[trigger] progress_line_json(ts2 as int, b as nat) by {
                if s@ == progress_line_json(ts2 as int, b as nat) {
                    lemma_line_shape(ts2 as int, b as nat);
                    lemma_comma_position(ts2 as int, b as nat, p as int);
                    assert(b_sub@ =~= dec_digits(b as nat));
                    if b as nat >= 1 {
                        lemma_dec_digits_no_leading_zero(b as nat);
                    } else {
                        assert(dec_digits(0).len() == 1);
                    }
                }
            }
        }
        return None;
    }
    proof {
        lemma_dec_canon(b_sub@);
        assert(dec_digits(bytes as nat) == b_sub@);
        reveal_strlit("{\"timestamp_ms\":");
        reveal_strlit(",\"bytes\":");
        reveal_strlit("}");
        assert("{\"timestamp_ms\":"@.len() == 16);
        assert(",\"bytes\":"@.len() == 9);
        assert("}"@ =~= seq!['}']);
        assert(s@.take(16) == "{\"timestamp_ms\":"@);
        assert(rest@.take(9) == ",\"bytes\":"@);
        assert forall|j: int| 0 <= j < 9 implies s@[p as int + j] == ",\"bytes\":"@[j] by {
            assert(rest@[j] == s@[p as int + j]);
            assert(rest@.take(9)[j] == rest@[j]);
        }
        assert(s@ =~= "{\"timestamp_ms\":"@ + ts_sub@ + ",\"bytes\":"@ + b_sub@ + "}"@);
    }
    Some(ProgressEntry { ts_ms: ts, bytes })
}

/// Entries are in time order and inside the run's window.
pub open spec fn chronological(es: Seq<ProgressEntry>, start: int, end: int) -> bool {
    &&& forall|i: int| 0 <= i < es.len() ==> start <= (#[trigger] es[i]).ts_ms <= end
    &&& forall|i: int| 1 <= i < es.len() ==> (#[trigger] es[i]).ts_ms >= es[i - 1].ts_ms
}

/// The bytes of entries `0..=i`.
pub open spec fn bytes_through(es: Seq<ProgressEntry>, i: int) -> nat
    decreases i + 1,
{
    if i < 0 {
        0
    } else {
        bytes_through(es, i - 1) + es[i].bytes as nat
    }
}

pub proof fn lemma_bytes_through_mono(es: Seq<ProgressEntry>, i: int, j: int)
    requires
        i <= j,
    ensures
        bytes_through(es, i) <= bytes_through(es, j),
    decreases j - i,
{
    if i < j {
        lemma_bytes_through_mono(es, i, j - 1);
    }
}

/// The compaction walk from entry `i` on.  `prev_ts` is the time of the
/// previous entry (the start of the run before the first), `acc_dt` the
/// time gathered in the open bucket, `bkt_bytes` its bytes, `cum_ms`
/// and `cum_bytes` the totals so far.  A bucket is flushed when taking
/// the next entry would push it past a tenth of the run's duration.
pub open spec fn compact_from(
    es: Seq<ProgressEntry>,
    i: int,
    total_ms: int,
    prev_ts: int,
    acc_dt: int,
    bkt_bytes: int,
    cum_ms: int,
    cum_bytes: int,
) -> Seq<ProgressBucket>
    decreases es.len() - i,
{
    if i < 0 || i >= es.len() {
        if acc_dt != 0 || bkt_bytes != 0 {
            seq![ProgressBucket { cum_ms: cum_ms as i64, cum_bytes: cum_bytes as u64 }]
        } else {
            Seq::empty()
        }
    } else {
        let dt = es[i].ts_ms - prev_ts;
        if (acc_dt + dt) * 10 > total_ms {
            seq![ProgressBucket { cum_ms: cum_ms as i64, cum_bytes: cum_bytes as u64 }]
                + compact_from(
                es,
                i + 1,
                total_ms,
                es[i].ts_ms as int,
                dt,
                es[i].bytes as int,
                cum_ms + dt,
                cum_bytes + es[i].bytes,
            )
        } else {
            compact_from(
                es,
                i + 1,
                total_ms,
                es[i].ts_ms as int,
                acc_dt + dt,
                bkt_bytes + es[i].bytes,
                cum_ms + dt,
                cum_bytes + es[i].bytes,
            )
        }
    }
}

/// The compacted profile of a completed run.
pub open spec fn spec_compact(es: Seq<ProgressEntry>, start: int, end: int) -> Seq<
    ProgressBucket,
> {
    compact_from(es, 0, end - start, start, 0, 0, 0, 0)
}

/// Compacts the recorded entries of a completed run into its profile.
/// No entries give no profile.
#[verifier::rlimit(60)]
#[verifier::spinoff_prover]
pub fn compact_progress(es: &Vec<ProgressEntry>, start_ms: i64, end_ms: i64) -> (r: Vec<
    ProgressBucket,
>)
    requires
        0 <= start_ms <= end_ms,
        chronological(es@, start_ms as int, end_ms as int),
        bytes_through(es@, es.len() as int - 1) <= u64::MAX,
    ensures
        r@ == spec_compact(es@, start_ms as int, end_ms as int),
        buckets_wf(r@),
{
    let len = es.len();
    let total_ms: i128 = (end_ms as i128) - (start_ms as i128);
    let mut out: Vec<ProgressBucket> = Vec::new();
    let mut prev_ts: i64 = start_ms;
    let mut acc_dt: i64 = 0;
    let mut bkt_bytes: u64 = 0;
    let mut cum_ms: i64 = 0;
    let mut cum_bytes: u64 = 0;
    let mut i: usize = 0;
    while i < len
        invariant
            0 <= i <= len,
            len == es.len(),
            0 <= start_ms <= end_ms,
            total_ms == end_ms as int - start_ms as int,
            chronological(es@, start_ms as int, end_ms as int),
            bytes_through(es@, len as int - 1) <= u64::MAX,
            start_ms <= prev_ts <= end_ms,
            i > 0 ==> prev_ts == es@[i as int - 1].ts_ms,
            i == 0 ==> prev_ts == start_ms,
            cum_ms == prev_ts - start_ms,
            0 <= acc_dt <= cum_ms,
            cum_bytes == bytes_through(es@, i as int - 1),
            bkt_bytes <= cum_bytes,
            buckets_wf(out@),
            out@.len() > 0 ==> out@.last().cum_ms <= cum_ms && out@.last().cum_bytes <= cum_bytes,
            out@ + compact_from(
                es@,
                i as int,
                total_ms as int,
                prev_ts as int,
                acc_dt as int,
                bkt_bytes as int,
                cum_ms as int,
                cum_bytes as int,
            ) == spec_compact(es@, start_ms as int, end_ms as int),
        decreases len - i,
    {
        let e = es[i];
        proof {
            lemma_bytes_through_mono(es@, i as int, len as int - 1);
            assert(bytes_through(es@, i as int) == bytes_through(es@, i as int - 1)
                + es@[i as int].bytes as nat);
        }
        let dt: i64 = e.ts_ms - prev_ts;
        let flush = ((acc_dt as i128) + (dt as i128)) * 10 > total_ms;
        if flush {
            let ghost out_pre = out@;
            out.push(ProgressBucket { cum_ms, cum_bytes });
            proof {
                assert(out@ =~= out_pre + seq![
                    ProgressBucket { cum_ms: cum_ms, cum_bytes: cum_bytes },
                ]);
                assert forall|k: int| 0 <= k < out@.len() implies (#[trigger] out@[k]).cum_ms >= 0
                    && out@[k].cum_bytes >= 0 by {
                    if k < out_pre.len() {
                        assert(out@[k] == out_pre[k]);
                    }
                }
                assert forall|k: int| 1 <= k < out@.len() implies (#[trigger] out@[k]).cum_ms
                    >= out@[k - 1].cum_ms && out@[k].cum_bytes >= out@[k - 1].cum_bytes by {
                    if k < out_pre.len() {
                        assert(out@[k] == out_pre[k] && out@[k - 1] == out_pre[k - 1]);
                    } else if k == out_pre.len() && k >= 1 {
                        assert(out@[k - 1] == out_pre[k - 1]);
                        assert(out_pre.last() == out_pre[k - 1]);
                    }
                }
                assert(out_pre + (seq![ProgressBucket { cum_ms: cum_ms, cum_bytes: cum_bytes }]
                    + compact_from(
                    es@,
                    i as int + 1,
                    total_ms as int,
                    e.ts_ms as int,
                    dt as int,
                    e.bytes as int,
                    cum_ms + dt,
                    cum_bytes + e.bytes,
                )) =~= out@ + compact_from(
                    es@,
                    i as int + 1,
                    total_ms as int,
                    e.ts_ms as int,
                    dt as int,
                    e.bytes as int,
                    cum_ms + dt,
                    cum_bytes + e.bytes,
                ));
            }
            acc_dt = dt;
            bkt_bytes = e.bytes;
        } else {
            acc_dt = acc_dt + dt;
            bkt_bytes = bkt_bytes + e.bytes;
        }
        cum_ms = cum_ms + dt;
        cum_bytes = cum_bytes + e.bytes;
        prev_ts = e.ts_ms;
        i += 1;
    }
    proof {
        if acc_dt != 0 || bkt_bytes != 0 {
            assert(out@ + seq![ProgressBucket { cum_ms: cum_ms, cum_bytes: cum_bytes }]
                =~= spec_compact(es@, start_ms as int, end_ms as int));
        } else {
            assert(out@ + Seq::<ProgressBucket>::empty() =~= out@);
        }
    }
    if acc_dt != 0 || bkt_bytes != 0 {
        let ghost out_pre = out@;
        out.push(ProgressBucket { cum_ms, cum_bytes });
        proof {
            assert forall|k: int| 0 <= k < out@.len() implies (#[trigger] out@[k]).cum_ms >= 0
                && out@[k].cum_bytes >= 0 by {
                if k < out_pre.len() {
                    assert(out@[k] == out_pre[k]);
                }
            }
            assert forall|k: int| 1 <= k < out@.len() implies (#[trigger] out@[k]).cum_ms
                >= out@[k - 1].cum_ms && out@[k].cum_bytes >= out@[k - 1].cum_bytes by {
                if k < out_pre.len() {
                    assert(out@[k] == out_pre[k] && out@[k - 1] == out_pre[k - 1]);
                } else if k == out_pre.len() && k >= 1 {
                    assert(out@[k - 1] == out_pre[k - 1]);
                    assert(out_pre.last() == out_pre[k - 1]);
                }
            }
        }
    }
    out
}

/// A stored profile is sane: offsets and byte counts start at or above
/// zero and never decrease.
pub open spec fn buckets_wf(bs: Seq<ProgressBucket>) -> bool {
    &&& forall|i: int|
        0 <= i < bs.len() ==> (#[trigger] bs[i]).cum_ms >= 0 && bs[i].cum_bytes >= 0
    &&& forall|i: int|
        1 <= i < bs.len() ==> (#[trigger] bs[i]).cum_ms >= bs[i - 1].cum_ms && bs[i].cum_bytes
            >= bs[i - 1].cum_bytes
}

/// Checks a stored profile before estimating against it.
pub fn check_buckets(bs: &Vec<ProgressBucket>) -> (r: bool)
    ensures
        r == buckets_wf(bs@),
{
    let len = bs.len();
    let mut i: usize = 0;
    while i < len
        invariant
            0 <= i <= len,
            len == bs.len(),
            forall|j: int|
                0 <= j < i ==> (#[trigger] bs@[j]).cum_ms >= 0 && bs@[j].cum_bytes >= 0,
            forall|j: int|
                1 <= j < i ==> (#[trigger] bs@[j]).cum_ms >= bs@[j - 1].cum_ms && bs@[j].cum_bytes
                    >= bs@[j - 1].cum_bytes,
        decreases len - i,
    {
        if bs[i].cum_ms < 0 {
            return false;
        }
        if i > 0 && (bs[i].cum_ms < bs[i - 1].cum_ms || bs[i].cum_bytes < bs[i - 1].cum_bytes) {
            return false;
        }
        i += 1;
    }
    true
}

/// The byte and time totals of the bucket before `j` (zero before the
/// first).
pub open spec fn prev_bytes_at(bs: Seq<ProgressBucket>, j: int) -> int {
    if j <= 0 {
        0
    } else {
        bs[j - 1].cum_bytes as int
    }
}

pub open spec fn prev_ms_at(bs: Seq<ProgressBucket>, j: int) -> int {
    if j <= 0 {
        0
    } else {
        bs[j - 1].cum_ms as int
    }
}

/// Whether bucket `j` holds any byte mass of its own.
pub open spec fn has_mass(bs: Seq<ProgressBucket>, j: int) -> bool {
    prev_bytes_at(bs, j) < bs[j].cum_bytes as int
}

/// The first bucket with byte mass whose total reaches `bytes`,
/// searching from `j`; the length when none does.  Buckets without mass
/// cannot place a byte count and are skipped, so the byte share never
/// jumps backwards across an empty leading bucket.
pub open spec fn bracket_idx(bs: Seq<ProgressBucket>, bytes: int, j: int) -> int
    decreases bs.len() - j,
{
    if j < 0 || j >= bs.len() {
        bs.len() as int
    } else if bytes <= bs[j].cum_bytes && has_mass(bs, j) {
        j
    } else {
        bracket_idx(bs, bytes, j + 1)
    }
}

/// The estimate for a run that has written `bytes` bytes after
/// `elapsed_ms`, against the profile `bs`: the mean of the time share
/// and the byte share interpolated inside the bucket that brackets the
/// byte count, in basis points, and the seconds left at that rate.  A
/// profile that recorded no bytes at all estimates a still-silent run
/// from the time share alone.  No estimate when the profile is empty
/// or degenerate, when the run has written more than the profile ever
/// saw, or when the shares exceed the whole.
pub open spec fn spec_estimate(bs: Seq<ProgressBucket>, bytes: int, elapsed_ms: int) -> Option<
    Progress,
> {
    if bs.len() == 0 {
        None
    } else {
        let last_total = bs.last().cum_ms as int;
        if last_total <= 0 {
            None
        } else {
            let time_bp = elapsed_ms * 10000 / last_total;
            let j = bracket_idx(bs, bytes, 0);
            if j == bs.len() {
                if bytes == 0 && time_bp <= 10000 {
                    Some(clamp_progress(time_bp, last_total))
                } else {
                    None
                }
            } else {
                let prev_t = prev_ms_at(bs, j);
                let prev_b = prev_bytes_at(bs, j);
                let their = bs[j].cum_bytes - prev_b;
                let interp_ms = prev_t + (bs[j].cum_ms - prev_t) * (bytes - prev_b) / their;
                let byte_bp = interp_ms * 10000 / last_total;
                let ave_bp = (byte_bp + time_bp) / 2;
                if ave_bp > 10000 {
                    None
                } else {
                    Some(clamp_progress(ave_bp, last_total))
                }
            }
        }
    }
}

/// Packs a share and the profile's total duration into the reported
/// estimate, clamping the seconds left to the field.
pub open spec fn clamp_progress(bp: int, last_total: int) -> Progress {
    let eta = last_total * (10000 - bp) / 10000 / 1000;
    Progress {
        percent_bp: bp as u32,
        eta_seconds: if eta > u32::MAX {
            u32::MAX as u32
        } else {
            eta as u32
        },
    }
}

/// Estimates an in-flight run against its predecessor's profile.
pub fn estimate_progress(bs: &Vec<ProgressBucket>, bytes: u64, elapsed_ms: i64) -> (r: Option<
    Progress,
>)
    requires
        buckets_wf(bs@),
        elapsed_ms >= 0,
    ensures
        r == spec_estimate(bs@, bytes as int, elapsed_ms as int),
        r matches Some(p) ==> p.percent_bp <= 10000,
{
    let len = bs.len();
    if len == 0 {
        return None;
    }
    let last_total: i64 = bs[len - 1].cum_ms;
    if last_total <= 0 {
        return None;
    }
    let time_bp: i128 = (elapsed_ms as i128) * 10000 / (last_total as i128);
    proof {
        assert((elapsed_ms as int) * 10000 / (last_total as int) >= 0);
    }
    let mut j: usize = 0;
    while j < len
        invariant
            0 <= j <= len,
            len == bs.len(),
            buckets_wf(bs@),
            bracket_idx(bs@, bytes as int, 0) == bracket_idx(bs@, bytes as int, j as int),
            prev_bytes_at(bs@, j as int) <= bytes as int,
        ensures
            0 <= j <= len,
            bracket_idx(bs@, bytes as int, 0) == j,
            prev_bytes_at(bs@, j as int) <= bytes as int,
            j < len ==> bytes as int <= bs@[j as int].cum_bytes && has_mass(bs@, j as int),
        decreases len - j,
    {
        let massy = if j == 0 {
            bs[j].cum_bytes > 0
        } else {
            bs[j].cum_bytes > bs[j - 1].cum_bytes
        };
        proof {
            assert(massy == has_mass(bs@, j as int));
        }
        if bytes <= bs[j].cum_bytes && massy {
            proof {
                assert(bracket_idx(bs@, bytes as int, j as int) == j as int);
            }
            break ;
        }
        proof {
            assert(bracket_idx(bs@, bytes as int, j as int) == bracket_idx(
                bs@,
                bytes as int,
                j as int + 1,
            ));
            if bytes as int <= bs@[j as int].cum_bytes {
                // a massless bucket repeats the previous total
                assert(bs@[j as int].cum_bytes as int == prev_bytes_at(bs@, j as int));
            }
        }
        j += 1;
    }
    if j == len {
        if bytes == 0 {
            if time_bp > 10000 {
                return None;
            }
            return Some(make_progress(time_bp as i64, last_total));
        }
        return None;
    }
    let prev_t: i64 = if j == 0 {
        0
    } else {
        bs[j - 1].cum_ms
    };
    let prev_b: u64 = if j == 0 {
        0
    } else {
        bs[j - 1].cum_bytes
    };
    let their: u64 = bs[j].cum_bytes - prev_b;
    let my: u64 = bytes - prev_b;
    let span: i64 = bs[j].cum_ms - prev_t;
    proof {
        assert((span as int) * (my as int) <= 0x7fff_ffff_ffff_ffff * 0xffff_ffff_ffff_ffff)
            by (nonlinear_arith)
            requires
                0 <= span as int <= 0x7fff_ffff_ffff_ffff,
                0 <= my as int <= 0xffff_ffff_ffff_ffff,
        ;
    }
    let interp: i128 = (prev_t as i128) + (span as i128) * (my as i128) / (their as i128);
    proof {
        assert((span as int) * (my as int) / (their as int) >= 0);
        assert((span as int) * (my as int) / (their as int) <= span as int) by (nonlinear_arith)
            requires
                span as int >= 0,
                their as int >= 1,
                0 <= my as int <= their as int,
        ;
    }
    let byte_bp: i128 = interp * 10000 / (last_total as i128);
    proof {
        assert((interp as int) * 10000 / (last_total as int) >= 0);
    }
    let ave_bp: i128 = (byte_bp + time_bp) / 2;
    if ave_bp > 10000 {
        return None;
    }
    Some(make_progress(ave_bp as i64, last_total))
}


/// The per-bucket well-formedness bounds extend across any two indices.
proof fn lemma_wf_mono(bs: Seq<ProgressBucket>, i: int, k: int)
    requires
        buckets_wf(bs),
        0 <= i <= k < bs.len(),
    ensures
        bs[i].cum_ms <= bs[k].cum_ms,
        bs[i].cum_bytes <= bs[k].cum_bytes,
    decreases k - i,
{
    if i < k {
        lemma_wf_mono(bs, i, k - 1);
    }
}

/// Where the bracket search lands: at or after its start, never past
/// the profile, on a massy bucket that covers the byte count, with the
/// previous total at or below it.
proof fn lemma_bracket_props(bs: Seq<ProgressBucket>, bytes: int, j0: int)
    requires
        buckets_wf(bs),
        0 <= j0 <= bs.len(),
        prev_bytes_at(bs, j0) <= bytes,
    ensures
        j0 <= bracket_idx(bs, bytes, j0) <= bs.len(),
        bracket_idx(bs, bytes, j0) < bs.len() ==> prev_bytes_at(bs, bracket_idx(bs, bytes, j0))
            <= bytes <= bs[bracket_idx(bs, bytes, j0)].cum_bytes && has_mass(
            bs,
            bracket_idx(bs, bytes, j0),
        ),
    decreases bs.len() - j0,
{
    if j0 < bs.len() && !(bytes <= bs[j0].cum_bytes && has_mass(bs, j0)) {
        if bytes <= bs[j0].cum_bytes {
            // a massless bucket repeats the previous total
            assert(bs[j0].cum_bytes as int == prev_bytes_at(bs, j0));
        }
        lemma_bracket_props(bs, bytes, j0 + 1);
    }
}

/// The bracket search never goes backwards.
proof fn lemma_bracket_lb(bs: Seq<ProgressBucket>, bytes: int, j0: int)
    requires
        0 <= j0 <= bs.len(),
    ensures
        j0 <= bracket_idx(bs, bytes, j0) <= bs.len(),
    decreases bs.len() - j0,
{
    if j0 < bs.len() && !(bytes <= bs[j0].cum_bytes && has_mass(bs, j0)) {
        lemma_bracket_lb(bs, bytes, j0 + 1);
    }
}

/// A larger byte count never brackets earlier.
proof fn lemma_bracket_mono(bs: Seq<ProgressBucket>, b1: int, b2: int, j0: int)
    requires
        b1 <= b2,
        0 <= j0 <= bs.len(),
    ensures
        bracket_idx(bs, b1, j0) <= bracket_idx(bs, b2, j0),
    decreases bs.len() - j0,
{
    if j0 < bs.len() {
        if b1 <= bs[j0].cum_bytes && has_mass(bs, j0) {
            lemma_bracket_lb(bs, b2, j0);
        } else {
            // a bucket that covers the larger count covers the smaller
            // one too, so neither matches here
            lemma_bracket_mono(bs, b1, b2, j0 + 1);
        }
    }
}

/// Growing the log never lowers the estimate: against one profile and
/// at one elapsed time, the reported share is monotone in the byte
/// count, whenever both byte counts get an estimate at all.
pub proof fn lemma_estimate_monotone(bs: Seq<ProgressBucket>, b1: int, b2: int, elapsed_ms: int)
    requires
        buckets_wf(bs),
        0 <= b1 <= b2,
        0 <= elapsed_ms,
        spec_estimate(bs, b1, elapsed_ms) is Some,
        spec_estimate(bs, b2, elapsed_ms) is Some,
    ensures
        spec_estimate(bs, b1, elapsed_ms)->0.percent_bp <= spec_estimate(
            bs,
            b2,
            elapsed_ms,
        )->0.percent_bp,
{
    let len = bs.len() as int;
    let last_total = bs.last().cum_ms as int;
    let time_bp = elapsed_ms * 10000 / last_total;
    vstd::arithmetic::div_mod::lemma_div_pos_is_pos(elapsed_ms * 10000, last_total);
    let j1 = bracket_idx(bs, b1, 0);
    let j2 = bracket_idx(bs, b2, 0);
    lemma_bracket_props(bs, b1, 0);
    lemma_bracket_props(bs, b2, 0);
    lemma_bracket_mono(bs, b1, b2, 0);
    if j1 == len {
        // only a still-silent run against an all-silent profile lands
        // here, and then both estimates are the same time share
        assert(b1 == 0);
        assert(j2 == len);
        assert(b2 == 0);
    } else if j2 == len {
        assert(b2 == 0);
        assert(b1 == 0 && j1 == j2);
    } else {
        let pt1 = prev_ms_at(bs, j1);
        let pb1 = prev_bytes_at(bs, j1);
        let their1 = bs[j1].cum_bytes - pb1;
        let span1 = bs[j1].cum_ms - pt1;
        let my1 = b1 - pb1;
        let interp1 = pt1 + span1 * my1 / their1;
        let pt2 = prev_ms_at(bs, j2);
        let pb2 = prev_bytes_at(bs, j2);
        let their2 = bs[j2].cum_bytes - pb2;
        let span2 = bs[j2].cum_ms - pt2;
        let my2 = b2 - pb2;
        let interp2 = pt2 + span2 * my2 / their2;
        if j1 > 0 {
            lemma_wf_mono(bs, j1 - 1, j1);
        }
        if j2 > 0 {
            lemma_wf_mono(bs, j2 - 1, j2);
        }
        assert(0 <= pt1 && span1 >= 0 && their1 >= 1 && 0 <= my1 <= their1);
        assert(0 <= pt2 && span2 >= 0 && their2 >= 1 && 0 <= my2 <= their2);
        if j1 == j2 {
            assert(span1 * my1 <= span1 * my2) by (nonlinear_arith)
                requires
                    span1 >= 0,
                    my1 <= my2,
            ;
            vstd::arithmetic::div_mod::lemma_div_is_ordered(span1 * my1, span1 * my2, their1);
            assert(interp1 <= interp2);
        } else {
            // across buckets: the smaller count tops out at its bucket
            // boundary, which the larger count starts from
            assert(span1 * my1 <= span1 * their1) by (nonlinear_arith)
                requires
                    span1 >= 0,
                    my1 <= their1,
            ;
            vstd::arithmetic::div_mod::lemma_div_is_ordered(
                span1 * my1,
                span1 * their1,
                their1,
            );
            vstd::arithmetic::div_mod::lemma_div_by_multiple(span1, their1);
            assert(span1 * their1 / their1 == span1);
            assert(interp1 <= pt1 + span1);
            assert(pt1 + span1 == bs[j1].cum_ms);
            lemma_wf_mono(bs, j1, j2 - 1);
            assert(bs[j1].cum_ms <= pt2);
            assert(span2 * my2 >= 0) by (nonlinear_arith)
                requires
                    span2 >= 0,
                    my2 >= 0,
            ;
            vstd::arithmetic::div_mod::lemma_div_pos_is_pos(span2 * my2, their2);
            assert(pt2 <= interp2);
            assert(interp1 <= interp2);
        }
        vstd::arithmetic::div_mod::lemma_div_is_ordered(
            interp1 * 10000,
            interp2 * 10000,
            last_total,
        );
        let byte1 = interp1 * 10000 / last_total;
        let byte2 = interp2 * 10000 / last_total;
        vstd::arithmetic::div_mod::lemma_div_pos_is_pos(interp1 * 10000, last_total);
        vstd::arithmetic::div_mod::lemma_div_pos_is_pos(interp2 * 10000, last_total);
        vstd::arithmetic::div_mod::lemma_div_is_ordered(byte1 + time_bp, byte2 + time_bp, 2);
        vstd::arithmetic::div_mod::lemma_div_pos_is_pos(byte1 + time_bp, 2);
        vstd::arithmetic::div_mod::lemma_div_pos_is_pos(byte2 + time_bp, 2);
    }
}

fn make_progress(bp: i64, last_total: i64) -> (r: Progress)
    requires
        0 <= bp <= 10000,
        last_total >= 1,
    ensures
        r == clamp_progress(bp as int, last_total as int),
        r.percent_bp <= 10000,
{
    proof {
        assert((last_total as int) * (10000 - bp as int) <= 0x7fff_ffff_ffff_ffff * 10000)
            by (nonlinear_arith)
            requires
                1 <= last_total as int <= 0x7fff_ffff_ffff_ffff,
                0 <= 10000 - bp as int <= 10000,
        ;
        assert((last_total as int) * (10000 - bp as int) >= 0) by (nonlinear_arith)
            requires
                last_total as int >= 1,
                0 <= bp as int <= 10000,
        ;
    }
    let eta128: i128 = (last_total as i128) * (10000 - bp as i128) / 10000 / 1000;
    proof {
        assert((last_total as int) * (10000 - bp as int) / 10000 / 1000 >= 0);
    }
    let eta: u32 = if eta128 > u32::MAX as i128 {
        u32::MAX
    } else {
        eta128 as u32
    };
    Progress { percent_bp: bp as u32, eta_seconds: eta }
}

} // verus!
