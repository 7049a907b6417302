//! Client-side configuration parsing: timeout specifications, the
//! `SYNCRON_NAME` convention, and the shell pick.

use vstd::prelude::*;

use crate::SyncError;
use crate::digits::{dec_val, is_dec_digit, parse_dec_u64};
use crate::strops::str_eq;

verus! {

/// The length of the leading run of decimal digits.
pub open spec fn digit_prefix_len(s: Seq<char>) -> int
    decreases s.len(),
{
    if s.len() == 0 || !is_dec_digit(s[0]) {
        0
    } else {
        1 + digit_prefix_len(s.drop_first())
    }
}

proof fn lemma_digit_prefix(s: Seq<char>, i: int)
    requires
        0 <= i <= s.len(),
        forall|j: int| 0 <= j < i ==> is_dec_digit(#[trigger] s[j]),
        i < s.len() ==> !is_dec_digit(s[i]),
    ensures
        digit_prefix_len(s) == i,
    decreases s.len(),
{
    if s.len() == 0 {
    } else if i == 0 {
    } else {
        let rest = s.drop_first();
        assert forall|j: int| 0 <= j < i - 1 implies is_dec_digit(#[trigger] rest[j]) by {
            assert(rest[j] == s[j + 1]);
        }
        assert(i - 1 < rest.len() ==> rest[i - 1] == s[i]);
        lemma_digit_prefix(rest, i - 1);
    }
}

/// The seconds a timeout specification denotes: a run of digits, then
/// optionally one of the units `s`, `m`, `h`, `d`.
pub open spec fn timespec_secs(s: Seq<char>) -> Option<nat> {
    let k = digit_prefix_len(s);
    if k == 0 {
        None
    } else {
        let v = dec_val(s.take(k));
        if k == s.len() {
            Some(v)
        } else if s.len() == k + 1 {
            if s[k] == 's' {
                Some(v)
            } else if s[k] == 'm' {
                Some(v * 60)
            } else if s[k] == 'h' {
                Some(v * 3600)
            } else if s[k] == 'd' {
                Some(v * 86400)
            } else {
                None
            }
        } else {
            None
        }
    }
}

/// Reads a timeout specification such as `90`, `30s`, `5m`, `2h` or
/// `1d` into seconds.  Fails on malformed text and on values that do
/// not fit the machine word.
pub fn parse_timespec(s: &str) -> (r: Result<u64, SyncError>)
    ensures
        r matches Ok(v) ==> timespec_secs(s@) == Some(v as nat),
        r is Err <==> (timespec_secs(s@) is None || timespec_secs(s@)->0 > u64::MAX),
        r matches Err(e) ==> e == SyncError::Parse,
{
    let len = s.unicode_len();
    let mut i: usize = 0;
    while i < len
        invariant
            0 <= i <= len,
            len == s@.len(),
            forall|j: int| 0 <= j < i ==> is_dec_digit(#[trigger] s@[j]),
        ensures
            0 <= i <= len,
            forall|j: int| 0 <= j < i ==> is_dec_digit(#[trigger] s@[j]),
            i < len ==> !is_dec_digit(s@[i as int]),
        decreases len - i,
    {
        let c = s.get_char(i);
        let u = c as u32;
        if u < 48 || u > 57 {
            assert(!is_dec_digit(s@[i as int]));
            break ;
        }
        i += 1;
    }
    proof {
        lemma_digit_prefix(s@, i as int);
    }
    if i == 0 {
        return Err(SyncError::Parse);
    }
    let vsub = s.substring_char(0, i);
    proof {
        assert(vsub@ =~= s@.take(i as int));
    }
    let v = match parse_dec_u64(vsub) {
        Some(v) => v,
        None => {
            return Err(SyncError::Parse);
        },
    };
    if i == len {
        return Ok(v);
    }
    if len - i != 1 {
        return Err(SyncError::Parse);
    }
    let unit = s.get_char(i);
    let mult: u64 = if unit == 's' {
        1
    } else if unit == 'm' {
        60
    } else if unit == 'h' {
        3600
    } else if unit == 'd' {
        86400
    } else {
        return Err(SyncError::Parse);
    };
    if v > u64::MAX / mult {
        proof {
            assert(v * mult > u64::MAX) by (nonlinear_arith)
                requires
                    v > u64::MAX / mult,
                    mult >= 1,
                    v >= 0,
                    u64::MAX / mult >= 0,
                    u64::MAX < (u64::MAX / mult + 1) * mult,
            ;
            assert(u64::MAX < (u64::MAX / mult + 1) * mult) by (nonlinear_arith)
                requires
                    mult >= 1,
                    u64::MAX as int == mult * ((u64::MAX as int) / (mult as int)) + (u64::MAX as int) % (mult as int),
                    0 <= (u64::MAX as int) % (mult as int) < mult,
            ;
        }
        return Err(SyncError::Parse);
    }
    proof {
        assert(v * mult <= u64::MAX) by (nonlinear_arith)
            requires
                v <= u64::MAX / mult,
                mult >= 1,
                v >= 0,
                u64::MAX as int == mult * ((u64::MAX as int) / (mult as int)) + (u64::MAX as int) % (mult as int),
                0 <= (u64::MAX as int) % (mult as int),
        ;
    }
    Ok(v * mult)
}

/// How `SYNCRON_NAME` is read: `@<job-id>` gives an id, `@<job-id>
/// <name>` gives both, anything else is just a name.
pub open spec fn name_env_parts(s: Seq<char>) -> (Option<Seq<char>>, Option<Seq<char>>) {
    if s.len() > 0 && s[0] == '@' {
        let rest = s.skip(1);
        let k = space_prefix_len(rest);
        if k == rest.len() {
            (Some(rest), None)
        } else {
            (Some(rest.take(k)), Some(rest.skip(k + 1)))
        }
    } else {
        (None, Some(s))
    }
}

/// The index of the first space, or the length if there is none.
pub open spec fn space_prefix_len(s: Seq<char>) -> int
    decreases s.len(),
{
    if s.len() == 0 || s[0] == ' ' {
        0
    } else {
        1 + space_prefix_len(s.drop_first())
    }
}

proof fn lemma_space_prefix(s: Seq<char>, i: int)
    requires
        0 <= i <= s.len(),
        forall|j: int| 0 <= j < i ==> #[trigger] s[j] != ' ',
        i < s.len() ==> s[i] == ' ',
    ensures
        space_prefix_len(s) == i,
    decreases s.len(),
{
    if s.len() == 0 {
    } else if i == 0 {
    } else {
        let rest = s.drop_first();
        assert forall|j: int| 0 <= j < i - 1 implies #[trigger] rest[j] != ' ' by {
            assert(rest[j] == s[j + 1]);
        }
        assert(i - 1 < rest.len() ==> rest[i - 1] == s[i]);
        lemma_space_prefix(rest, i - 1);
    }
}

/// Splits the `SYNCRON_NAME` environment value into `(job id, name)`.
pub fn parse_name_env(s: &str) -> (r: (Option<String>, Option<String>))
    ensures
        r.0 is Some <==> name_env_parts(s@).0 is Some,
        r.1 is Some <==> name_env_parts(s@).1 is Some,
        r.0 matches Some(x) ==> x@ == name_env_parts(s@).0->0,
        r.1 matches Some(x) ==> x@ == name_env_parts(s@).1->0,
{
    let len = s.unicode_len();
    if len == 0 || s.get_char(0) != '@' {
        return (None, Some(s.to_owned()));
    }
    let rest = s.substring_char(1, len);
    proof {
        assert(rest@ =~= s@.skip(1));
    }
    let rlen = rest.unicode_len();
    let mut i: usize = 0;
    while i < rlen
        invariant
            0 <= i <= rlen,
            rlen == rest@.len(),
            forall|j: int| 0 <= j < i ==> #[trigger] rest@[j] != ' ',
        ensures
            0 <= i <= rlen,
            forall|j: int| 0 <= j < i ==> #[trigger] rest@[j] != ' ',
            i < rlen ==> rest@[i as int] == ' ',
        decreases rlen - i,
    {
        if rest.get_char(i) == ' ' {
            break ;
        }
        i += 1;
    }
    proof {
        lemma_space_prefix(rest@, i as int);
    }
    if i == rlen {
        (Some(rest.to_owned()), None)
    } else {
        let id = rest.substring_char(0, i);
        let name = rest.substring_char(i + 1, rlen);
        proof {
            assert(id@ =~= rest@.take(i as int));
            assert(name@ =~= rest@.skip(i as int + 1));
        }
        (Some(id.to_owned()), Some(name.to_owned()))
    }
}

/// Which shell the supervisor runs the command with: an explicit
/// `SYNCRON_SHELL` wins; otherwise `SHELL`, unless it names this binary
/// itself (to prevent recursion when installed as the login shell);
/// otherwise `/bin/sh`.
pub open spec fn shell_choice(
    syncron_shell: Option<Seq<char>>,
    shell: Option<Seq<char>>,
    argv0: Option<Seq<char>>,
) -> Seq<char> {
    match syncron_shell {
        Some(sh) => sh,
        None => match shell {
            Some(sh) => if argv0 is Some && sh == argv0->0 {
                "/bin/sh"@
            } else {
                sh
            },
            None => "/bin/sh"@,
        },
    }
}

/// Picks the shell from the environment values handed in.
pub fn choose_shell(
    syncron_shell: Option<String>,
    shell: Option<String>,
    argv0: Option<String>,
) -> (r: String)
    ensures
        r@ == shell_choice(
            match syncron_shell {
                Some(ref x) => Some(x@),
                None => None,
            },
            match shell {
                Some(ref x) => Some(x@),
                None => None,
            },
            match argv0 {
                Some(ref x) => Some(x@),
                None => None,
            },
    ),
{
    match syncron_shell {
        Some(sh) => sh,
        None => match shell {
            Some(sh) => {
                let same = match argv0 {
                    Some(ref me) => str_eq(sh.as_str(), me.as_str()),
                    None => false,
                };
                if same {
                    "/bin/sh".to_owned()
                } else {
                    sh
                }
            },
            None => "/bin/sh".to_owned(),
        },
    }
}

} // verus!
