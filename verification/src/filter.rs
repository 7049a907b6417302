//! Topic filters for the event broker.
//!
//! Topics are `/`-separated strings.  A filter looks like a topic but may
//! use the wildcards `+` (exactly one segment) and `#` (zero or more
//! segments, only as the final segment).  A wildcard must fill its whole
//! segment: `sp+rts` and `sport+` are rejected.

use vstd::prelude::*;

use crate::SyncError;
use crate::strops::chars_to_string;

verus! {

/// Splitting `t` on `/` from position `start`, with `cur` the part of the
/// current segment read so far.
pub open spec fn split_from(t: Seq<char>, start: int, cur: Seq<char>) -> Seq<Seq<char>>
    decreases t.len() - start,
{
    if start >= t.len() || start < 0 {
        seq![cur]
    } else if t[start] == '/' {
        seq![cur] + split_from(t, start + 1, Seq::empty())
    } else {
        split_from(t, start + 1, cur + seq![t[start]])
    }
}

/// The `/`-separated segments of a topic or filter string.  The empty
/// string has one empty segment, like `str::split`.
pub open spec fn split_segs(t: Seq<char>) -> Seq<Seq<char>> {
    split_from(t, 0, Seq::empty())
}

/// One segment of a valid filter: a wildcard fills the whole segment and
/// `#` stands last.
pub open spec fn valid_seg(seg: Seq<char>, is_last: bool) -> bool {
    &&& seg.contains('#') ==> seg == seq!['#'] && is_last
    &&& seg.contains('+') ==> seg == seq!['+']
}

/// Every segment of `f` obeys the wildcard rules.
pub open spec fn valid_filter_segs(f: Seq<Seq<char>>) -> bool {
    forall|i: int| 0 <= i < f.len() ==> valid_seg(#[trigger] f[i], i == f.len() - 1)
}

/// The filter string `t` parses into a valid filter.
pub open spec fn valid_filter(t: Seq<char>) -> bool {
    valid_filter_segs(split_segs(t))
}

/// MQTT-style matching of filter segments against topic segments: `#`
/// swallows the rest of the topic (zero or more segments), `+` matches
/// exactly one segment, anything else matches only itself, and both
/// sides must end together.
pub open spec fn segs_match(f: Seq<Seq<char>>, t: Seq<Seq<char>>) -> bool
    decreases f.len(),
{
    if f.len() == 0 {
        t.len() == 0
    } else if f[0] == seq!['#'] {
        true
    } else if t.len() == 0 {
        false
    } else if f[0] == seq!['+'] {
        segs_match(f.drop_first(), t.drop_first())
    } else {
        f[0] == t[0] && segs_match(f.drop_first(), t.drop_first())
    }
}

/// A parsed topic filter.
#[derive(Debug)]
pub struct Filter {
    segs: Vec<String>,
}

impl View for Filter {
    type V = Seq<Seq<char>>;

    closed spec fn view(&self) -> Seq<Seq<char>> {
        self.segs.deep_view()
    }
}

/// Splits a string on `/`.
fn split_slash(s: &str) -> (r: Vec<String>)
    ensures
        r.deep_view() == split_segs(s@),
{
    let len = s.unicode_len();
    let mut done: Vec<String> = Vec::new();
    let mut cur: Vec<char> = Vec::new();
    let mut i: usize = 0;
    while i < len
        invariant
            0 <= i <= len,
            len == s@.len(),
            done.deep_view() + split_from(s@, i as int, cur@) == split_segs(s@),
        decreases len - i,
    {
        let ghost done_pre = done.deep_view();
        let c = s.get_char(i);
        if c == '/' {
            let seg = chars_to_string(cur);
            cur = Vec::new();
            done.push(seg);
            proof {
                assert(done.deep_view() =~= done_pre + seq![seg@]);
                assert(done.deep_view() + split_from(s@, i as int + 1, Seq::empty()) =~= done_pre
                    + (seq![seg@] + split_from(s@, i as int + 1, Seq::empty())));
            }
        } else {
            let ghost cur_pre = cur@;
            cur.push(c);
            proof {
                assert(cur@ =~= cur_pre + seq![s@[i as int]]);
            }
        }
        i += 1;
    }
    let seg = chars_to_string(cur);
    let ghost done_pre = done.deep_view();
    done.push(seg);
    proof {
        assert(done.deep_view() =~= done_pre + seq![seg@]);
        assert(split_from(s@, len as int, seg@) == seq![seg@]);
        assert(done.deep_view() =~= split_segs(s@));
    }
    done
}

/// The segment is exactly the one-character string `c`.
fn seg_is_char(seg: &String, c: char) -> (r: bool)
    ensures
        r == (seg@ == seq![c]),
{
    let s = seg.as_str();
    if s.unicode_len() == 1 && s.get_char(0) == c {
        proof {
            assert(seg@ =~= seq![c]);
        }
        true
    } else {
        proof {
            if seg@ == seq![c] {
                assert(seg@.len() == 1);
            }
        }
        false
    }
}

/// The segment contains the character `c`.
fn seg_contains_char(seg: &String, c: char) -> (r: bool)
    ensures
        r == seg@.contains(c),
{
    let s = seg.as_str();
    let len = s.unicode_len();
    let mut i: usize = 0;
    while i < len
        invariant
            0 <= i <= len,
            len == seg@.len(),
            s@ == seg@,
            forall|j: int| 0 <= j < i ==> #[trigger] seg@[j] != c,
        decreases len - i,
    {
        if s.get_char(i) == c {
            assert(seg@.contains(c));
            return true;
        }
        i += 1;
    }
    proof {
        if seg@.contains(c) {
            let j = choose|j: int| 0 <= j < seg@.len() && seg@[j] == c;
            assert(seg@[j] != c);
        }
    }
    false
}

impl Filter {
    /// Parses a topic filter.  Fails exactly when a wildcard does not
    /// fill its segment or `#` is not the final segment.
    pub fn new(filter: &str) -> (r: Result<Filter, SyncError>)
        ensures
            r matches Ok(f) ==> f@ == split_segs(filter@) && valid_filter(filter@),
            r is Err <==> !valid_filter(filter@),
            r matches Err(e) ==> e == SyncError::BadFilter,
    {
        let segs = split_slash(filter);
        let n = segs.len();
        assert(n == split_segs(filter@).len());
        let mut i: usize = 0;
        while i < n
            invariant
                0 <= i <= n,
                n == segs.len(),
                segs.deep_view() == split_segs(filter@),
                forall|j: int| 0 <= j < i ==> valid_seg(
                    #[trigger] segs.deep_view()[j],
                    j == n - 1,
                ),
            decreases n - i,
        {
            let seg = &segs[i];
            assert(seg@ == segs.deep_view()[i as int]);
            let has_hash = seg_contains_char(seg, '#');
            let has_plus = seg_contains_char(seg, '+');
            if has_hash && !(seg_is_char(seg, '#') && i == n - 1) {
                return Err(SyncError::BadFilter);
            }
            if has_plus && !seg_is_char(seg, '+') {
                return Err(SyncError::BadFilter);
            }
            i += 1;
        }
        Ok(Filter { segs })
    }

    /// Whether this filter matches a topic, by the wildcard semantics of
    /// `segs_match`.
    pub fn matches(&self, topic: &str) -> (r: bool)
        ensures
            r == segs_match(self@, split_segs(topic@)),
    {
        let t = split_slash(topic);
        let flen = self.segs.len();
        let tlen = t.len();
        let ghost fv = self@;
        let ghost tv = split_segs(topic@);
        proof {
            assert(fv.skip(0) =~= fv);
            assert(tv.skip(0) =~= tv);
        }
        let mut i: usize = 0;
        while i < flen
            invariant
                0 <= i <= flen,
                i <= tlen,
                flen == fv.len(),
                tlen == tv.len(),
                self@ == fv,
                t.deep_view() == tv,
                tv == split_segs(topic@),
                segs_match(fv, tv) == segs_match(fv.skip(i as int), tv.skip(i as int)),
            decreases flen - i,
        {
            let seg = &self.segs[i];
            proof {
                assert(seg@ == fv[i as int]);
                assert(fv.skip(i as int)[0] == fv[i as int]);
                assert(fv.skip(i as int).drop_first() =~= fv.skip(i as int + 1));
            }
            proof {
                assert(fv.skip(i as int).len() == flen - i);
                assert(tv.skip(i as int).len() == tlen - i);
            }
            if seg_is_char(seg, '#') {
                proof {
                    assert(fv.skip(i as int)[0] == seq!['#']);
                    assert(segs_match(fv.skip(i as int), tv.skip(i as int)));
                }
                return true;
            }
            if i == tlen {
                proof {
                    assert(tv.skip(i as int).len() == 0);
                    assert(!segs_match(fv.skip(i as int), tv.skip(i as int)));
                }
                return false;
            }
            proof {
                assert(tv.skip(i as int)[0] == tv[i as int]);
                assert(tv.skip(i as int).drop_first() =~= tv.skip(i as int + 1));
            }
            if !seg_is_char(seg, '+') {
                let tseg = &t[i];
                assert(tseg@ == tv[i as int]);
                if !seg.eq(tseg) {
                    proof {
                        assert(fv.skip(i as int)[0] != tv.skip(i as int)[0]);
                        assert(!segs_match(fv.skip(i as int), tv.skip(i as int)));
                    }
                    return false;
                }
            }
            i += 1;
        }
        proof {
            assert(fv.skip(flen as int).len() == 0);
        }
        if flen == tlen {
            proof {
                assert(tv.skip(flen as int).len() == 0);
            }
            true
        } else {
            proof {
                assert(tv.skip(flen as int).len() == tlen - flen);
            }
            false
        }
    }
}

} // verus!
