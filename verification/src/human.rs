//! Human-readable byte sizes, as printed in prune reports.
//!
//! A size is shown in the largest power-of-1024 unit that fits, with no
//! decimals when the size is an exact multiple of the unit and two
//! decimals otherwise (rounded half to even).

use vstd::prelude::*;

use crate::digits::{dec_digits, digit_char, u128_to_dec, u64_to_dec};
use crate::strops::chars_to_string;

verus! {

/// The unit exponent of `b` bytes: the largest power of 1024 at or
/// below it, capped at the largest named unit.
pub open spec fn hb_exp(b: nat) -> nat {
    if b < 1024 {
        0
    } else if b < 1048576 {
        1
    } else if b < 1073741824 {
        2
    } else if b < 1099511627776 {
        3
    } else if b < 1125899906842624 {
        4
    } else if b < 1152921504606846976 {
        5
    } else {
        6
    }
}

pub open spec fn pow1024(e: nat) -> nat
    decreases e,
{
    if e == 0 {
        1
    } else {
        1024 * pow1024((e - 1) as nat)
    }
}

pub open spec fn hb_suffix(e: nat) -> Seq<char> {
    if e == 0 {
        "B"@
    } else if e == 1 {
        "KB"@
    } else if e == 2 {
        "MB"@
    } else if e == 3 {
        "GB"@
    } else if e == 4 {
        "TB"@
    } else if e == 5 {
        "PB"@
    } else {
        "EB"@
    }
}

/// `num / den` rounded half to even.
pub open spec fn round_half_even(num: nat, den: nat) -> nat {
    let d = num / den;
    let r = num % den;
    if 2 * r > den {
        d + 1
    } else if 2 * r < den {
        d
    } else if d % 2 == 0 {
        d
    } else {
        d + 1
    }
}

/// The last two decimal digits of `q`, zero padded.
pub open spec fn two_frac_digits(q: nat) -> Seq<char> {
    seq![digit_char(((q / 10) % 10) as nat), digit_char((q % 10) as nat)]
}

/// The text shown for `b` bytes.
pub open spec fn human_bytes_of(b: nat) -> Seq<char> {
    if b == 0 {
        "0B"@
    } else {
        let e = hb_exp(b);
        let p = pow1024(e);
        if b % p == 0 {
            dec_digits(b / p) + hb_suffix(e)
        } else {
            let q = round_half_even(b * 100, p);
            dec_digits(q / 100) + seq!['.'] + two_frac_digits(q) + hb_suffix(e)
        }
    }
}

fn suffix_str(e: u32) -> (r: &'static str)
    ensures
        r@ == hb_suffix(e as nat),
{
    if e == 0 {
        "B"
    } else if e == 1 {
        "KB"
    } else if e == 2 {
        "MB"
    } else if e == 3 {
        "GB"
    } else if e == 4 {
        "TB"
    } else if e == 5 {
        "PB"
    } else {
        "EB"
    }
}

/// Renders a byte count for people, in the largest unit that fits.
pub fn human_bytes(bytes: usize) -> (r: String)
    ensures
        r@ == human_bytes_of(bytes as nat),
{
    if bytes == 0 {
        return "0B".to_owned();
    }
    let b: u64 = bytes as u64;
    let (e, p): (u32, u64) = if b < 1024 {
        (0, 1)
    } else if b < 1048576 {
        (1, 1024)
    } else if b < 1073741824 {
        (2, 1048576)
    } else if b < 1099511627776 {
        (3, 1073741824)
    } else if b < 1125899906842624 {
        (4, 1099511627776)
    } else if b < 1152921504606846976 {
        (5, 1125899906842624)
    } else {
        (6, 1152921504606846976)
    };
    proof {
        assert(e as nat == hb_exp(b as nat));
        assert(pow1024(0) == 1);
        assert(pow1024(1) == 1024);
        assert(pow1024(2) == 1048576);
        assert(pow1024(3) == 1073741824);
        assert(pow1024(4) == 1099511627776);
        assert(pow1024(5) == 1125899906842624);
        assert(pow1024(6) == 1152921504606846976);
        assert(p as nat == pow1024(e as nat));
    }
    if b % p == 0 {
        let mut out = u64_to_dec(b / p);
        out.append(suffix_str(e));
        proof {
            assert(out@ =~= human_bytes_of(bytes as nat));
        }
        out
    } else {
        let num: u128 = (b as u128) * 100;
        let den: u128 = p as u128;
        let d: u128 = num / den;
        let rm: u128 = num % den;
        let q: u128 = if 2 * rm > den {
            d + 1
        } else if 2 * rm < den {
            d
        } else if d % 2 == 0 {
            d
        } else {
            d + 1
        };
        proof {
            assert(q as nat == round_half_even((b as nat) * 100, p as nat));
        }
        let mut out = u128_to_dec(q / 100);
        out.append(".");
        let d1: u8 = ((q / 10) % 10) as u8;
        let d0: u8 = (q % 10) as u8;
        let mut frac: Vec<char> = Vec::new();
        frac.push((48 + d1) as char);
        frac.push((48 + d0) as char);
        let fs = chars_to_string(frac);
        out.append(fs.as_str());
        out.append(suffix_str(e));
        proof {
            reveal_strlit(".");
            assert("."@ =~= seq!['.']);
            assert(fs@ =~= two_frac_digits(q as nat));
            assert(out@ =~= human_bytes_of(bytes as nat));
        }
        out
    }
}

} // verus!
