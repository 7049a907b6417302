//! User and job identifiers, and the slug rule that derives a job id
//! from a free-form name.
//!
//! An identifier must be non-empty, contain no `/`, and not begin with
//! `.`.  A slug maps every character of a name that is not an ASCII
//! letter or digit to `-`, lowercases the letters, collapses runs of `-`
//! to one, and strips leading and trailing dashes.

use vstd::prelude::*;

use crate::strops::chars_to_string;

verus! {

/// A lowercase ASCII letter or digit.
pub open spec fn is_lower_alnum(c: char) -> bool {
    (97 <= c as u32 && c as u32 <= 122) || (48 <= c as u32 && c as u32 <= 57)
}

/// What one character of a name contributes to its slug: the lowercase
/// form of an ASCII letter or digit, and `'-'` for everything else.
pub open spec fn slug_char(c: char) -> char {
    if 65 <= c as u32 && c as u32 <= 90 {
        ((c as u32 + 32) as u8) as char
    } else if is_lower_alnum(c) {
        c
    } else {
        '-'
    }
}

/// Joins the dash-separated words of `t` with single dashes, dropping
/// empty words.  `emitted` records whether a word character has been
/// written already, `pending` whether a dash must separate the next word
/// from the previous one.
pub open spec fn collapse(t: Seq<char>, emitted: bool, pending: bool) -> Seq<char>
    decreases t.len(),
{
    if t.len() == 0 {
        Seq::empty()
    } else if t[0] == '-' {
        collapse(t.drop_first(), emitted, pending || emitted)
    } else {
        (if pending {
            seq!['-', t[0]]
        } else {
            seq![t[0]]
        }) + collapse(t.drop_first(), true, false)
    }
}

/// Each character of `s` mapped through `slug_char`.
pub open spec fn slug_mapped(s: Seq<char>) -> Seq<char> {
    s.map_values(|c: char| slug_char(c))
}

/// The slug of a name.
pub open spec fn slug_of(s: Seq<char>) -> Seq<char> {
    collapse(slug_mapped(s), false, false)
}

/// Every character is a lowercase letter, a digit, or a dash.
pub open spec fn dash_or_word(t: Seq<char>) -> bool {
    forall|i: int| 0 <= i < t.len() ==> is_lower_alnum(#[trigger] t[i]) || t[i] == '-'
}

pub open spec fn dash_pair_at(t: Seq<char>, i: int) -> bool {
    t[i] == '-' && t[i - 1] == '-'
}

/// No two adjacent dashes.
pub open spec fn no_dash_pair(t: Seq<char>) -> bool {
    forall|i: int| 1 <= i < t.len() ==> !dash_pair_at(t, i)
}

/// `t` matches `[a-z0-9]+(-[a-z0-9]+)*` or is empty.
pub open spec fn is_slug(t: Seq<char>) -> bool {
    &&& dash_or_word(t)
    &&& no_dash_pair(t)
    &&& t.len() > 0 ==> t[0] != '-' && t[t.len() - 1] != '-'
}

proof fn lemma_collapse_shape(t: Seq<char>, emitted: bool, pending: bool)
    requires
        dash_or_word(t),
    ensures
        dash_or_word(collapse(t, emitted, pending)),
        no_dash_pair(collapse(t, emitted, pending)),
        collapse(t, emitted, pending).len() > 0 ==> collapse(
            t,
            emitted,
            pending,
        ).last() != '-',
        collapse(t, emitted, pending).len() > 0 && collapse(t, emitted, pending)[0] == '-'
            ==> pending || emitted,
    decreases t.len(),
{
    let r = collapse(t, emitted, pending);
    if t.len() == 0 {
    } else {
        let rest = t.drop_first();
        assert forall|i: int| 0 <= i < rest.len() implies is_lower_alnum(#[trigger] rest[i])
            || rest[i] == '-' by {
            assert(rest[i] == t[i + 1]);
        }
        if t[0] == '-' {
            lemma_collapse_shape(rest, emitted, pending || emitted);
        } else {
            lemma_collapse_shape(rest, true, false);
            let sub = collapse(rest, true, false);
            let prefix: Seq<char> = if pending {
                seq!['-', t[0]]
            } else {
                seq![t[0]]
            };
            assert(is_lower_alnum(t[0]));
            assert(r == prefix + sub);
            assert(r.len() > 0);
            assert(r[0] == prefix[0]);
            assert(prefix.last() == t[0]);
            assert forall|i: int| 0 <= i < r.len() implies is_lower_alnum(#[trigger] r[i]) || r[i]
                == '-' by {
                if i < prefix.len() {
                    assert(r[i] == prefix[i]);
                } else {
                    assert(r[i] == sub[i - prefix.len()]);
                }
            }
            assert forall|i: int| 1 <= i < r.len() implies !dash_pair_at(r, i) by {
                if i < prefix.len() {
                    assert(r[i] == prefix[i]);
                    assert(r[i] == t[0]);
                } else if i == prefix.len() {
                    // the character before the junction is the word char
                    assert(r[i - 1] == prefix.last());
                } else {
                    assert(r[i] == sub[i - prefix.len()]);
                    assert(r[i - 1] == sub[i - 1 - prefix.len()]);
                    assert(!dash_pair_at(sub, i - prefix.len()));
                }
            }
            if sub.len() == 0 {
                assert(r.last() == prefix.last());
            } else {
                assert(r.last() == sub.last());
            }
        }
    }
}

proof fn lemma_collapse_id(t: Seq<char>, emitted: bool)
    requires
        dash_or_word(t),
        no_dash_pair(t),
        t.len() > 0 ==> t[t.len() - 1] != '-',
        t.len() > 0 && t[0] == '-' ==> emitted,
    ensures
        collapse(t, emitted, false) == t,
    decreases t.len(),
{
    if t.len() == 0 {
        assert(collapse(t, emitted, false) =~= t);
    } else {
        let rest = t.drop_first();
        assert forall|i: int| 0 <= i < rest.len() implies is_lower_alnum(#[trigger] rest[i])
            || rest[i] == '-' by {
            assert(rest[i] == t[i + 1]);
        }
        assert forall|i: int| 1 <= i < rest.len() implies !dash_pair_at(rest, i) by {
            assert(rest[i] == t[i + 1] && rest[i - 1] == t[i]);
            assert(!dash_pair_at(t, i + 1));
        }
        if t[0] == '-' {
            // a dash is followed by a word character
            assert(rest.len() > 0);
            assert(rest[0] == t[1]);
            assert(!dash_pair_at(t, 1));
            assert(rest[0] != '-');
            let rest2 = rest.drop_first();
            assert forall|i: int| 0 <= i < rest2.len() implies is_lower_alnum(#[trigger] rest2[i])
                || rest2[i] == '-' by {
                assert(rest2[i] == rest[i + 1]);
            }
            assert forall|i: int| 1 <= i < rest2.len() implies !dash_pair_at(rest2, i) by {
                assert(rest2[i] == rest[i + 1] && rest2[i - 1] == rest[i]);
                assert(!dash_pair_at(rest, i + 1));
            }
            lemma_collapse_id(rest2, true);
            assert(collapse(t, emitted, false) == collapse(rest, emitted, true));
            assert(collapse(rest, emitted, true) == seq!['-', rest[0]] + collapse(rest2, true, false));
            assert(seq!['-', rest[0]] + rest2 =~= t);
        } else {
            lemma_collapse_id(rest, true);
            assert(collapse(t, emitted, false) == seq![t[0]] + collapse(rest, true, false));
            assert(seq![t[0]] + rest =~= t);
        }
    }
}

proof fn lemma_mapped_id(t: Seq<char>)
    requires
        dash_or_word(t),
    ensures
        slug_mapped(t) == t,
{
    let m = slug_mapped(t);
    assert forall|i: int| 0 <= i < t.len() implies m[i] == t[i] by {
        assert(is_lower_alnum(t[i]) || t[i] == '-');
    }
    assert(m =~= t);
}

/// A slug always matches `[a-z0-9]+(-[a-z0-9]+)*` or is empty.
pub proof fn lemma_slug_shape(s: Seq<char>)
    ensures
        is_slug(slug_of(s)),
{
    let m = slug_mapped(s);
    assert forall|i: int| 0 <= i < m.len() implies is_lower_alnum(#[trigger] m[i]) || m[i]
        == '-' by {
        assert(m[i] == slug_char(s[i]));
    }
    lemma_collapse_shape(m, false, false);
}

/// Slugging is idempotent: the slug of a slug is itself.
pub proof fn lemma_slug_idempotent(s: Seq<char>)
    ensures
        slug_of(slug_of(s)) == slug_of(s),
{
    let t = slug_of(s);
    lemma_slug_shape(s);
    lemma_mapped_id(t);
    lemma_collapse_id(t, false);
}

/// The slug of a job name: ASCII letters and digits keep their lowercase
/// form, every other character becomes a dash, dash runs collapse to one,
/// and no dash leads or trails.
pub fn slug(st: &str) -> (r: String)
    ensures
        r@ == slug_of(st@),
{
    let ghost m = slug_mapped(st@);
    let len = st.unicode_len();
    proof {
        assert(m.skip(0) =~= m);
    }
    let mut out: Vec<char> = Vec::new();
    let mut emitted: bool = false;
    let mut pending: bool = false;
    let mut i: usize = 0;
    while i < len
        invariant
            0 <= i <= len,
            len == st@.len(),
            m == slug_mapped(st@),
            m.len() == len,
            out@ + collapse(m.skip(i as int), emitted, pending) == slug_of(st@),
        decreases len - i,
    {
        let ghost out_pre = out@;
        let ghost pending_pre = pending;
        let ghost emitted_pre = emitted;
        let c = st.get_char(i);
        let u = c as u32;
        let mc: char = if u >= 65 && u <= 90 {
            ((u + 32) as u8) as char
        } else if (u >= 97 && u <= 122) || (u >= 48 && u <= 57) {
            c
        } else {
            '-'
        };
        proof {
            assert(m[i as int] == slug_char(st@[i as int]));
            assert(mc == m[i as int]);
            assert(m.skip(i as int)[0] == m[i as int]);
            assert(m.skip(i as int).drop_first() =~= m.skip(i as int + 1));
        }
        if mc == '-' {
            pending = pending || emitted;
            proof {
                assert(collapse(m.skip(i as int), emitted_pre, pending_pre) == collapse(
                    m.skip(i as int + 1),
                    emitted,
                    pending,
                ));
            }
        } else {
            if pending {
                out.push('-');
            }
            out.push(mc);
            emitted = true;
            pending = false;
            proof {
                let prefix: Seq<char> = if pending_pre {
                    seq!['-', mc]
                } else {
                    seq![mc]
                };
                assert(collapse(m.skip(i as int), emitted_pre, pending_pre) == prefix + collapse(
                    m.skip(i as int + 1),
                    true,
                    false,
                ));
                assert(out@ =~= out_pre + prefix);
                assert(out@ + collapse(m.skip(i as int + 1), emitted, pending) =~= out_pre + (
                prefix + collapse(m.skip(i as int + 1), true, false)));
            }
        }
        i += 1;
    }
    proof {
        assert(m.skip(len as int) =~= Seq::<char>::empty());
        assert(out@ + Seq::<char>::empty() =~= out@);
    }
    chars_to_string(out)
}

/// An identifier accepted for users and job ids: non-empty, without `/`,
/// not beginning with `.`.
pub open spec fn valid_ident(s: Seq<char>) -> bool {
    &&& s.len() > 0
    &&& forall|i: int| 0 <= i < s.len() ==> #[trigger] s[i] != '/'
    &&& s[0] != '.'
}

/// Checks the identifier rule.
pub fn check_ident(s: &str) -> (r: bool)
    ensures
        r == valid_ident(s@),
{
    let len = s.unicode_len();
    if len == 0 {
        return false;
    }
    if s.get_char(0) == '.' {
        return false;
    }
    let mut i: usize = 0;
    while i < len
        invariant
            0 <= i <= len,
            len == s@.len(),
            forall|j: int| 0 <= j < i ==> #[trigger] s@[j] != '/',
        decreases len - i,
    {
        if s.get_char(i) == '/' {
            return false;
        }
        i += 1;
    }
    true
}

} // verus!
