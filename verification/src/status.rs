//! Exit dispositions of a run, their JSON form, and the success rule.
//!
//! A status is persisted and transmitted as JSON: a tagged object for
//! dispositions that carry a code (`{"Exited":0}`) and a bare string for
//! the two timeouts (`"ServerTimeout"`, `"ClientTimeout"`).  Both
//! directions of the codec are pinned down exactly, so a status written
//! by one side reads back identically on the other.

use vstd::prelude::*;

use crate::digits::{
    all_dec_digits, dec_digits, dec_val, i32_to_dec, int_digits, lemma_dec_canon,
    lemma_dec_digits_no_leading_zero, lemma_dec_digits_wf, lemma_dec_round_trip,
    lemma_dec_val_pos, lemma_int_digits_wf, parse_dec_u64,
};
use crate::strops::{str_eq, str_prefix_eq};

verus! {

/// How a run ended.
#[derive(Clone, Copy, Debug, PartialEq, Eq, Structural)]
pub enum ExitStatus {
    /// Normal process exit with this code.
    Exited(i32),
    /// Killed by this signal, no core dump.
    Signal(i32),
    /// Killed by this signal, with a core dump.
    CoreDump(i32),
    /// The server saw no heartbeat for longer than the threshold.
    ServerTimeout,
    /// The client hit its configured wall-clock timeout.
    ClientTimeout,
}

/// Which output stream of the child a chunk belongs to.
#[derive(Clone, Copy, Debug, PartialEq, Eq, Structural)]
pub enum OutKind {
    Stdout,
    Stderr,
}

impl OutKind {
    /// The path segment naming this stream in the upload endpoints.
    pub fn name(&self) -> (r: String)
        ensures
            *self is Stdout ==> r@ == "stdout"@,
            *self is Stderr ==> r@ == "stderr"@,
    {
        match self {
            OutKind::Stdout => "stdout".to_owned(),
            OutKind::Stderr => "stderr".to_owned(),
        }
    }
}

/// The success rule: a completed run succeeded exactly when it exited
/// with code zero, or exited with any code while its log stayed empty.
/// Timeouts and signals never count as success.
pub open spec fn spec_success(status: ExitStatus, log_len: u64) -> bool {
    match status {
        ExitStatus::Exited(c) => c == 0 || log_len == 0,
        _ => false,
    }
}

/// Computes the stored `success` flag of a completed run.
pub fn success_for(status: ExitStatus, log_len: u64) -> (r: bool)
    ensures
        r == spec_success(status, log_len),
{
    match status {
        ExitStatus::Exited(c) => c == 0 || log_len == 0,
        _ => false,
    }
}

/// The exit disposition the client reports for a finished child, from
/// the pieces the platform hands back.  A timeout wins over everything;
/// otherwise an exit code wins over a signal.  `None` only when the
/// platform reported neither a code nor a signal.
pub open spec fn spec_status_from_wait(
    code: Option<i32>,
    signal: Option<i32>,
    core_dumped: bool,
    timed_out: bool,
) -> Option<ExitStatus> {
    if timed_out {
        Some(ExitStatus::ClientTimeout)
    } else {
        match code {
            Some(c) => Some(ExitStatus::Exited(c)),
            None => match signal {
                Some(s) => if core_dumped {
                    Some(ExitStatus::CoreDump(s))
                } else {
                    Some(ExitStatus::Signal(s))
                },
                None => None,
            },
        }
    }
}

/// Maps a child's wait result to its `ExitStatus`.
pub fn status_from_wait(
    code: Option<i32>,
    signal: Option<i32>,
    core_dumped: bool,
    timed_out: bool,
) -> (r: Option<ExitStatus>)
    ensures
        r == spec_status_from_wait(code, signal, core_dumped, timed_out),
{
    if timed_out {
        Some(ExitStatus::ClientTimeout)
    } else if let Some(c) = code {
        Some(ExitStatus::Exited(c))
    } else if let Some(s) = signal {
        if core_dumped {
            Some(ExitStatus::CoreDump(s))
        } else {
            Some(ExitStatus::Signal(s))
        }
    } else {
        None
    }
}

/// A tagged one-field JSON object: the tag text, the number, `}`.
pub open spec fn tagged_json_of(tag: Seq<char>, v: int) -> Seq<char> {
    tag + int_digits(v) + seq!['}']
}

/// The JSON text of an exit status.
pub open spec fn status_json(s: ExitStatus) -> Seq<char> {
    match s {
        ExitStatus::Exited(c) => tagged_json_of("{\"Exited\":"@, c as int),
        ExitStatus::Signal(c) => tagged_json_of("{\"Signal\":"@, c as int),
        ExitStatus::CoreDump(c) => tagged_json_of("{\"CoreDump\":"@, c as int),
        ExitStatus::ServerTimeout => "\"ServerTimeout\""@,
        ExitStatus::ClientTimeout => "\"ClientTimeout\""@,
    }
}

fn tagged_to_json(tag: &str, c: i32) -> (r: String)
    ensures
        r@ == tagged_json_of(tag@, c as int),
{
    let mut out = tag.to_owned();
    let digits = i32_to_dec(c);
    out.append(digits.as_str());
    out.append("}");
    proof {
        reveal_strlit("}");
        assert("}"@ =~= seq!['}']);
        assert(out@ =~= tagged_json_of(tag@, c as int));
    }
    out
}

/// Renders a status as its JSON text.
pub fn status_to_json(s: &ExitStatus) -> (r: String)
    ensures
        r@ == status_json(*s),
{
    match s {
        ExitStatus::Exited(c) => tagged_to_json("{\"Exited\":", *c),
        ExitStatus::Signal(c) => tagged_to_json("{\"Signal\":", *c),
        ExitStatus::CoreDump(c) => tagged_to_json("{\"CoreDump\":", *c),
        ExitStatus::ServerTimeout => "\"ServerTimeout\"".to_owned(),
        ExitStatus::ClientTimeout => "\"ClientTimeout\"".to_owned(),
    }
}

/// Two integers with the same decimal text are equal.
proof fn lemma_int_digits_injective(x: int, y: int)
    requires
        int_digits(x) == int_digits(y),
    ensures
        x == y,
{
    if x >= 0 && y >= 0 {
        lemma_dec_round_trip(x as nat);
        lemma_dec_round_trip(y as nat);
    } else if x < 0 && y < 0 {
        assert(int_digits(x).drop_first() =~= dec_digits((-x) as nat));
        assert(int_digits(y).drop_first() =~= dec_digits((-y) as nat));
        lemma_dec_round_trip((-x) as nat);
        lemma_dec_round_trip((-y) as nat);
    } else {
        let p: int = if x >= 0 {
            x
        } else {
            y
        };
        let n: int = if x >= 0 {
            y
        } else {
            x
        };
        lemma_dec_digits_wf(p as nat);
        assert(crate::digits::is_dec_digit(int_digits(p)[0]));
        assert(int_digits(n)[0] == '-');
        vstd::utf8::char_u32_cast(int_digits(p)[0], int_digits(p)[0] as u32);
        vstd::utf8::char_u32_cast('-', '-' as u32);
        assert('-' as u32 == 45);
        assert(int_digits(p)[0] != '-');
        assert(int_digits(p) != int_digits(n));
    }
}

/// Equal tagged objects under the same tag carry the same number.
proof fn lemma_tagged_extract(tag: Seq<char>, c1: int, c2: int)
    requires
        tagged_json_of(tag, c1) == tagged_json_of(tag, c2),
    ensures
        int_digits(c1) == int_digits(c2),
{
    lemma_int_digits_wf(c1);
    lemma_int_digits_wf(c2);
    let s = tagged_json_of(tag, c1);
    assert(s.len() == tag.len() + int_digits(c1).len() + 1);
    assert(s.len() == tag.len() + int_digits(c2).len() + 1);
    assert forall|k: int| 0 <= k < int_digits(c1).len() implies int_digits(c1)[k] == int_digits(
        c2,
    )[k] by {
        assert(s[tag.len() + k] == int_digits(c1)[k]);
        assert(s[tag.len() + k] == int_digits(c2)[k]);
    }
    assert(int_digits(c1) =~= int_digits(c2));
}

/// The leading characters that tell the five JSON forms apart.
proof fn lemma_status_json_shape(st: ExitStatus)
    ensures
        status_json(st).len() >= 2,
        st matches ExitStatus::Exited(c) ==> status_json(st)[0] == '{' && status_json(st)[2]
            == 'E',
        st matches ExitStatus::Signal(c) ==> status_json(st)[0] == '{' && status_json(st)[2]
            == 'S',
        st matches ExitStatus::CoreDump(c) ==> status_json(st)[0] == '{' && status_json(st)[2]
            == 'C',
        st is ServerTimeout ==> status_json(st)[0] == '"' && status_json(st)[1] == 'S',
        st is ClientTimeout ==> status_json(st)[0] == '"' && status_json(st)[1] == 'C',
{
    reveal_strlit("{\"Exited\":");
    reveal_strlit("{\"Signal\":");
    reveal_strlit("{\"CoreDump\":");
    reveal_strlit("\"ServerTimeout\"");
    reveal_strlit("\"ClientTimeout\"");
    match st {
        ExitStatus::Exited(c) => {
            lemma_int_digits_wf(c as int);
        },
        ExitStatus::Signal(c) => {
            lemma_int_digits_wf(c as int);
        },
        ExitStatus::CoreDump(c) => {
            lemma_int_digits_wf(c as int);
        },
        _ => {},
    }
}

/// Two statuses with the same JSON text are the same status: the codec
/// never confuses one disposition for another on readback.
pub proof fn lemma_status_json_injective(a: ExitStatus, b: ExitStatus)
    requires
        status_json(a) == status_json(b),
    ensures
        a == b,
{
    lemma_status_json_shape(a);
    lemma_status_json_shape(b);
    match (a, b) {
        (ExitStatus::Exited(c1), ExitStatus::Exited(c2)) => {
            lemma_tagged_extract("{\"Exited\":"@, c1 as int, c2 as int);
            lemma_int_digits_injective(c1 as int, c2 as int);
        },
        (ExitStatus::Signal(c1), ExitStatus::Signal(c2)) => {
            lemma_tagged_extract("{\"Signal\":"@, c1 as int, c2 as int);
            lemma_int_digits_injective(c1 as int, c2 as int);
        },
        (ExitStatus::CoreDump(c1), ExitStatus::CoreDump(c2)) => {
            lemma_tagged_extract("{\"CoreDump\":"@, c1 as int, c2 as int);
            lemma_int_digits_injective(c1 as int, c2 as int);
        },
        _ => {},
    }
}

/// Reads the canonical decimal text of an `i32`: an optional `-`, no
/// leading zeros, value in range.  Accepts exactly the outputs of
/// `int_digits` on `i32` values.
pub fn parse_i32_dec(b: &str) -> (r: Option<i32>)
    ensures
        r matches Some(v) ==> b@ == int_digits(v as int),
        r is None ==> forall|v: i32| b@ != int_digits(v as int),
{
    let len = b.unicode_len();
    if len == 0 {
        proof {
            assert forall|v: i32| b@ != int_digits(v as int) by {
                lemma_int_digits_wf(v as int);
            }
        }
        return None;
    }
    if b.get_char(0) == '-' {
        let m = b.substring_char(1, len);
        assert(m@ == b@.subrange(1, len as int));
        match parse_dec_u64(m) {
            None => {
                proof {
                    assert forall|v: i32| b@ != int_digits(v as int) by {
                        if v as int >= 0 {
                            lemma_dec_digits_wf(v as nat);
                            if b@ == int_digits(v as int) {
                                assert(all_dec_digits(b@));
                                assert(crate::digits::is_dec_digit(b@[0]));
                                vstd::utf8::char_u32_cast(b@[0], b@[0] as u32);
                                vstd::utf8::char_u32_cast('-', '-' as u32);
                                assert(b@[0] != '-');
                            }
                        } else {
                            let mg = (-(v as int)) as nat;
                            lemma_dec_digits_wf(mg);
                            lemma_dec_round_trip(mg);
                            if b@ == int_digits(v as int) {
                                assert(m@ =~= dec_digits(mg));
                                assert(mg <= 0x8000_0000);
                                assert(dec_val(m@) <= u64::MAX);
                            }
                        }
                    }
                }
                None
            },
            Some(mag) => {
                assert(m@.len() > 0);
                if m.get_char(0) == '0' {
                    proof {
                        assert forall|v: i32| b@ != int_digits(v as int) by {
                            if v as int >= 0 {
                                lemma_dec_digits_wf(v as nat);
                                if b@ == int_digits(v as int) {
                                    assert(crate::digits::is_dec_digit(b@[0]));
                                    vstd::utf8::char_u32_cast(b@[0], b@[0] as u32);
                                    vstd::utf8::char_u32_cast('-', '-' as u32);
                                    assert(b@[0] != '-');
                                }
                            } else {
                                let mg = (-(v as int)) as nat;
                                lemma_dec_digits_no_leading_zero(mg);
                                if b@ == int_digits(v as int) {
                                    assert(m@ =~= dec_digits(mg));
                                    assert(m@[0] != '0');
                                }
                            }
                        }
                    }
                    return None;
                }
                if mag > 0x8000_0000 {
                    proof {
                        assert forall|v: i32| b@ != int_digits(v as int) by {
                            if v as int >= 0 {
                                lemma_dec_digits_wf(v as nat);
                                if b@ == int_digits(v as int) {
                                    assert(crate::digits::is_dec_digit(b@[0]));
                                    vstd::utf8::char_u32_cast(b@[0], b@[0] as u32);
                                    vstd::utf8::char_u32_cast('-', '-' as u32);
                                    assert(b@[0] != '-');
                                }
                            } else {
                                let mg = (-(v as int)) as nat;
                                lemma_dec_round_trip(mg);
                                if b@ == int_digits(v as int) {
                                    assert(m@ =~= dec_digits(mg));
                                    assert(dec_val(m@) == mg);
                                    assert(mg <= 0x8000_0000);
                                }
                            }
                        }
                    }
                    return None;
                }
                let v: i32 = (-(mag as i64)) as i32;
                proof {
                    assert(-(mag as int) >= i32::MIN as int);
                    assert(v as int == -(mag as int));
                    lemma_dec_canon(m@);
                    assert(dec_digits(mag as nat) == m@);
                    assert((-(v as int)) as nat == mag as nat);
                    assert(b@ =~= seq!['-'] + m@);
                    assert(int_digits(v as int) =~= b@);
                }
                Some(v)
            },
        }
    } else {
        match parse_dec_u64(b) {
            None => {
                proof {
                    assert forall|v: i32| b@ != int_digits(v as int) by {
                        if v as int >= 0 {
                            lemma_dec_digits_wf(v as nat);
                            lemma_dec_round_trip(v as nat);
                        } else {
                            lemma_dec_digits_wf((-(v as int)) as nat);
                            if b@ == int_digits(v as int) {
                                assert(b@[0] == '-');
                            }
                        }
                    }
                }
                None
            },
            Some(val) => {
                if len > 1 && b.get_char(0) == '0' {
                    proof {
                        assert forall|v: i32| b@ != int_digits(v as int) by {
                            if v as int >= 1 {
                                lemma_dec_digits_no_leading_zero(v as nat);
                            } else if v as int == 0 {
                                lemma_dec_digits_wf(0);
                                assert(dec_digits(0).len() == 1);
                            } else {
                                if b@ == int_digits(v as int) {
                                    assert(b@[0] == '-');
                                    vstd::utf8::char_u32_cast('-', '-' as u32);
                                    vstd::utf8::char_u32_cast('0', '0' as u32);
                                }
                            }
                        }
                    }
                    return None;
                }
                if val > 0x7FFF_FFFF {
                    proof {
                        assert forall|v: i32| b@ != int_digits(v as int) by {
                            if v as int >= 0 {
                                lemma_dec_round_trip(v as nat);
                                if b@ == int_digits(v as int) {
                                    assert(dec_val(b@) == v as nat);
                                }
                            } else {
                                lemma_dec_digits_wf((-(v as int)) as nat);
                                if b@ == int_digits(v as int) {
                                    assert(b@[0] == '-');
                                }
                            }
                        }
                    }
                    return None;
                }
                let v: i32 = val as i32;
                proof {
                    assert(v as int == val as int);
                    lemma_dec_canon(b@);
                    assert(dec_digits(val as nat) == b@);
                    assert(int_digits(v as int) == b@);
                }
                Some(v)
            },
        }
    }
}

/// Reads one tagged JSON object: the tag text, a canonical integer, a
/// closing brace.
fn parse_tagged(s: &str, tag: &str) -> (r: Option<i32>)
    ensures
        r matches Some(v) ==> s@ == tagged_json_of(tag@, v as int),
        r is None ==> forall|v: i32| s@ != tagged_json_of(tag@, v as int),
{
    let slen = s.unicode_len();
    let tlen = tag.unicode_len();
    if !str_prefix_eq(s, tag) {
        proof {
            assert forall|v: i32| s@ != tagged_json_of(tag@, v as int) by {
                if s@ == tagged_json_of(tag@, v as int) {
                    lemma_int_digits_wf(v as int);
                    assert(s@.len() >= tag@.len());
                    assert(s@.take(tag@.len() as int) =~= tag@);
                }
            }
        }
        return None;
    }
    if slen - tlen < 2 {
        proof {
            assert forall|v: i32| s@ != tagged_json_of(tag@, v as int) by {
                lemma_int_digits_wf(v as int);
            }
        }
        return None;
    }
    if s.get_char(slen - 1) != '}' {
        proof {
            assert forall|v: i32| s@ != tagged_json_of(tag@, v as int) by {
                if s@ == tagged_json_of(tag@, v as int) {
                    assert(s@[s@.len() - 1] == '}');
                }
            }
        }
        return None;
    }
    let body = s.substring_char(tlen, slen - 1);
    assert(body@ == s@.subrange(tlen as int, slen as int - 1));
    match parse_i32_dec(body) {
        Some(v) => {
            proof {
                assert(s@ =~= tag@ + body@ + seq!['}']);
            }
            Some(v)
        },
        None => {
            proof {
                assert forall|v: i32| s@ != tagged_json_of(tag@, v as int) by {
                    if s@ == tagged_json_of(tag@, v as int) {
                        assert(body@ =~= int_digits(v as int));
                    }
                }
            }
            None
        },
    }
}

/// Reads a status back from its JSON text.  Succeeds exactly on the
/// outputs of `status_json`.
pub fn parse_status_json(s: &str) -> (r: Option<ExitStatus>)
    ensures
        r matches Some(st) ==> s@ == status_json(st),
        r is None ==> forall|st: ExitStatus| s@ != status_json(st),
{
    if str_eq(s, "\"ServerTimeout\"") {
        return Some(ExitStatus::ServerTimeout);
    }
    if str_eq(s, "\"ClientTimeout\"") {
        return Some(ExitStatus::ClientTimeout);
    }
    if let Some(c) = parse_tagged(s, "{\"Exited\":") {
        return Some(ExitStatus::Exited(c));
    }
    if let Some(c) = parse_tagged(s, "{\"Signal\":") {
        return Some(ExitStatus::Signal(c));
    }
    if let Some(c) = parse_tagged(s, "{\"CoreDump\":") {
        return Some(ExitStatus::CoreDump(c));
    }
    proof {
        assert forall|st: ExitStatus| s@ != status_json(st) by {
            match st {
                ExitStatus::Exited(c) => {
                    assert(s@ != tagged_json_of("{\"Exited\":"@, c as int));
                },
                ExitStatus::Signal(c) => {
                    assert(s@ != tagged_json_of("{\"Signal\":"@, c as int));
                },
                ExitStatus::CoreDump(c) => {
                    assert(s@ != tagged_json_of("{\"CoreDump\":"@, c as int));
                },
                ExitStatus::ServerTimeout => {},
                ExitStatus::ClientTimeout => {},
            }
        }
    }
    None
}

} // verus!
