//! Windowing of a run's log file.
//!
//! A reader asks for a byte window of the log with an optional `seek`
//! (start offset) and an optional signed `limit`.  A positive limit caps
//! the number of bytes read from `seek`; a negative limit means "the last
//! |limit| bytes", which moves `seek` toward the end of the file; no limit
//! means "to the end of the file".

use vstd::prelude::*;

verus! {

/// The window `(effective seek, length)` that a read of a log of `len`
/// bytes must use, given the caller's optional `seek` and signed `limit`.
pub open spec fn window_of(len: u64, seek: Option<u64>, limit: Option<i64>) -> (u64, u64) {
    let s: u64 = match seek {
        Some(s) => s,
        None => 0u64,
    };
    let avail: u64 = if s <= len {
        (len - s) as u64
    } else {
        0u64
    };
    match limit {
        None => (s, avail),
        Some(n) => if n >= 0 {
            (s, if (n as u64) <= avail {
                n as u64
            } else {
                avail
            })
        } else {
            let mag: u64 = (-(n as int)) as u64;
            let back: u64 = if mag <= len {
                (len - mag) as u64
            } else {
                0u64
            };
            (if s >= back {
                s
            } else {
                back
            }, if mag <= avail {
                mag
            } else {
                avail
            })
        },
    }
}

/// Given the length of a file, an optional seek and an optional signed
/// limit, return the computed seek and length of the read as `(seek, len)`.
/// A positive limit reads from `seek`; a negative limit reads the last
/// `|limit|` bytes, adjusting the seek toward the end of the file; the
/// length is always clamped to what the file holds past the seek.
pub fn apply_limit(len: u64, seek: Option<u64>, limit: Option<i64>) -> (r: (u64, u64))
    ensures
        r == window_of(len, seek, limit),
{
    let s: u64 = match seek {
        Some(s) => s,
        None => 0,
    };
    let avail: u64 = if s <= len {
        len - s
    } else {
        0
    };
    match limit {
        None => (s, avail),
        Some(n) => {
            if n >= 0 {
                let cap: u64 = n as u64;
                (s, if cap <= avail {
                    cap
                } else {
                    avail
                })
            } else {
                let mag: u64 = (-(n as i128)) as u64;
                assert(mag == (-(n as int)) as u64);
                let back: u64 = if mag <= len {
                    len - mag
                } else {
                    0
                };
                (if s >= back {
                    s
                } else {
                    back
                }, if mag <= avail {
                    mag
                } else {
                    avail
                })
            }
        },
    }
}

/// A read window never runs past the end of the file.
pub proof fn lemma_window_in_bounds(len: u64, seek: Option<u64>, limit: Option<i64>)
    ensures
        window_of(len, seek, limit).0 + window_of(len, seek, limit).1 <= len
            || window_of(len, seek, limit).1 == 0,
{
}

} // verus!
