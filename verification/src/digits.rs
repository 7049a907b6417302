//! Decimal rendering and parsing.
//!
//! Client identifiers travel as the decimal text of a 128-bit token, and
//! several persisted formats (progress lines, prune reasons, timestamps)
//! embed decimal numbers, so both directions are pinned down exactly.

use vstd::prelude::*;

use crate::strops::chars_to_string;

verus! {

/// `c` is one of `'0'..='9'`.
pub open spec fn is_dec_digit(c: char) -> bool {
    48 <= c as u32 && c as u32 <= 57
}

/// The character for the decimal digit `d` (meaningful for `d < 10`).
pub open spec fn digit_char(d: nat) -> char {
    ((48 + d) as u8) as char
}

/// The numeric value of a digit character, 0 for anything else.
pub open spec fn digit_val(c: char) -> nat {
    if is_dec_digit(c) {
        (c as u32 - 48) as nat
    } else {
        0
    }
}

/// The decimal rendering of `n`, most significant digit first, with no
/// leading zero except for `n == 0` itself.
pub open spec fn dec_digits(n: nat) -> Seq<char>
    decreases n,
{
    if n < 10 {
        seq![digit_char(n)]
    } else {
        dec_digits(n / 10) + seq![digit_char(n % 10)]
    }
}

pub open spec fn all_dec_digits(s: Seq<char>) -> bool {
    forall|i: int| 0 <= i < s.len() ==> is_dec_digit(#[trigger] s[i])
}

/// The value of a digit string read most significant digit first.
pub open spec fn dec_val(s: Seq<char>) -> nat
    decreases s.len(),
{
    if s.len() == 0 {
        0
    } else {
        dec_val(s.drop_last()) * 10 + digit_val(s.last())
    }
}

pub proof fn lemma_dec_digits_wf(n: nat)
    ensures
        dec_digits(n).len() >= 1,
        all_dec_digits(dec_digits(n)),
    decreases n,
{
    if n >= 10 {
        lemma_dec_digits_wf(n / 10);
    }
}

pub proof fn lemma_digit_char_val(d: nat)
    requires
        d < 10,
    ensures
        is_dec_digit(digit_char(d)),
        digit_val(digit_char(d)) == d,
{
    assert(((48 + d) as u8) as char as u32 == 48 + d);
}

/// Rendering then reading a number gives the number back.
pub proof fn lemma_dec_round_trip(n: nat)
    ensures
        dec_val(dec_digits(n)) == n,
    decreases n,
{
    if n < 10 {
        lemma_digit_char_val(n);
        assert(dec_digits(n) == seq![digit_char(n)]);
        assert(dec_digits(n).last() == digit_char(n));
        assert(dec_digits(n).drop_last() =~= Seq::<char>::empty());
        assert(dec_val(Seq::<char>::empty()) == 0);
        assert(dec_val(dec_digits(n)) == 0 * 10 + digit_val(digit_char(n)));
    } else {
        lemma_dec_round_trip(n / 10);
        lemma_digit_char_val(n % 10);
        assert(dec_digits(n) == dec_digits(n / 10) + seq![digit_char(n % 10)]);
        assert(dec_digits(n).drop_last() =~= dec_digits(n / 10));
        assert(dec_digits(n).last() == digit_char(n % 10));
        assert(dec_val(dec_digits(n)) == dec_val(dec_digits(n / 10)) * 10 + digit_val(
            digit_char(n % 10),
        ));
        assert((n / 10) * 10 + n % 10 == n) by (nonlinear_arith);
    }
}

/// A rendered number never begins with `'0'` unless it is zero itself.
pub proof fn lemma_dec_digits_no_leading_zero(n: nat)
    requires
        n >= 1,
    ensures
        dec_digits(n)[0] != '0',
    decreases n,
{
    if n < 10 {
        lemma_digit_char_val(n);
        assert(digit_char(n) as u32 == 48 + n);
        assert('0' as u32 == 48);
    } else {
        lemma_dec_digits_no_leading_zero(n / 10);
        lemma_dec_digits_wf(n / 10);
        assert(dec_digits(n)[0] == dec_digits(n / 10)[0]);
    }
}

/// A digit character is the rendering of its own value.
pub proof fn lemma_digit_char_inverse(c: char)
    requires
        is_dec_digit(c),
    ensures
        digit_char(digit_val(c)) == c,
{
    let u = c as u32;
    assert(digit_char(digit_val(c)) as u32 == u);
    vstd::utf8::char_u32_cast(c, u);
    vstd::utf8::char_u32_cast(digit_char(digit_val(c)), u);
}

/// A digit string that does not begin with `'0'` reads as a positive
/// value.
pub proof fn lemma_dec_val_pos(s: Seq<char>)
    requires
        s.len() > 0,
        all_dec_digits(s),
        s[0] != '0',
    ensures
        dec_val(s) >= 1,
    decreases s.len(),
{
    if s.len() == 1 {
        let c = s[0];
        assert(is_dec_digit(c));
        vstd::utf8::char_u32_cast(c, c as u32);
        vstd::utf8::char_u32_cast('0', '0' as u32);
        assert('0' as u32 == 48);
        if c as u32 == 48 {
            assert(c == '0');
        }
        assert(s.drop_last() =~= Seq::<char>::empty());
        assert(dec_val(s.drop_last()) == 0);
        assert(dec_val(s) == digit_val(c));
        assert(digit_val(c) >= 1);
    } else {
        let m = s.drop_last();
        assert(m[0] == s[0]);
        assert(all_dec_digits(m));
        lemma_dec_val_pos(m);
        assert(dec_val(m) * 10 >= 10) by (nonlinear_arith)
            requires
                dec_val(m) >= 1,
        ;
    }
}

/// Canonical digit strings (non-empty, no leading zero) are exactly the
/// renderings: reading one back and re-rendering reproduces it.
pub proof fn lemma_dec_canon(s: Seq<char>)
    requires
        s.len() > 0,
        all_dec_digits(s),
        s[0] != '0' || s.len() == 1,
    ensures
        dec_digits(dec_val(s)) == s,
    decreases s.len(),
{
    let d = digit_val(s.last());
    if s.len() == 1 {
        assert(s.drop_last() =~= Seq::<char>::empty());
        assert(dec_val(s.drop_last()) == 0);
        assert(dec_val(s) == 0 * 10 + d);
        assert(is_dec_digit(s[0]));
        lemma_digit_char_inverse(s[0]);
        assert(dec_digits(d) =~= s);
    } else {
        let m = s.drop_last();
        assert(m[0] == s[0]);
        assert(all_dec_digits(m));
        lemma_dec_val_pos(m);
        lemma_dec_canon(m);
        let n = dec_val(s);
        assert(n == dec_val(m) * 10 + d);
        assert(n >= 10 && n / 10 == dec_val(m) && n % 10 == d) by (nonlinear_arith)
            requires
                n == dec_val(m) * 10 + d,
                dec_val(m) >= 1,
                d < 10,
        ;
        assert(is_dec_digit(s.last()));
        lemma_digit_char_inverse(s.last());
        assert(dec_digits(n) == dec_digits(dec_val(m)) + seq![digit_char(d)]);
        assert(dec_digits(n) =~= s);
    }
}

/// Powers of ten.
pub open spec fn pow10(n: nat) -> nat
    decreases n,
{
    if n == 0 {
        1
    } else {
        10 * pow10((n - 1) as nat)
    }
}

/// A digit string of width `w` reads as a value below `10^w`.
pub proof fn lemma_dec_val_bound(s: Seq<char>)
    ensures
        dec_val(s) < pow10(s.len()),
    decreases s.len(),
{
    if s.len() == 0 {
    } else {
        lemma_dec_val_bound(s.drop_last());
        assert(dec_val(s.drop_last()) * 10 + 9 < pow10(s.len())) by (nonlinear_arith)
            requires
                dec_val(s.drop_last()) < pow10((s.len() - 1) as nat),
                pow10(s.len()) == 10 * pow10((s.len() - 1) as nat),
        ;
        assert(digit_val(s.last()) <= 9);
    }
}

/// The value of a single digit character.
pub proof fn lemma_dec_val_single(c: char)
    ensures
        dec_val(seq![c]) == digit_val(c),
{
    assert(seq![c].drop_last() =~= Seq::<char>::empty());
    assert(dec_val(seq![c].drop_last()) == 0);
}

/// Concatenation shifts the left part by the width of the right part.
pub proof fn lemma_dec_val_concat(a: Seq<char>, b: Seq<char>)
    ensures
        dec_val(a + b) == dec_val(a) * pow10(b.len()) + dec_val(b),
    decreases b.len(),
{
    if b.len() == 0 {
        assert(a + b =~= a);
        assert(pow10(0) == 1);
    } else {
        lemma_dec_val_concat(a, b.drop_last());
        assert((a + b).drop_last() =~= a + b.drop_last());
        assert((a + b).last() == b.last());
        assert(dec_val(a + b) == dec_val(a + b.drop_last()) * 10 + digit_val(b.last()));
        assert((dec_val(a) * pow10((b.len() - 1) as nat) + dec_val(b.drop_last())) * 10
            + digit_val(b.last()) == dec_val(a) * (10 * pow10((b.len() - 1) as nat)) + (dec_val(
            b.drop_last(),
        ) * 10 + digit_val(b.last()))) by (nonlinear_arith);
        assert(pow10(b.len()) == 10 * pow10((b.len() - 1) as nat));
    }
}

/// A prefix of a digit string never reads as a larger value.
pub proof fn lemma_dec_val_prefix(s: Seq<char>, i: int)
    requires
        0 <= i <= s.len(),
    ensures
        dec_val(s.take(i)) <= dec_val(s),
    decreases s.len() - i,
{
    if i < s.len() {
        assert(s.take(i + 1).drop_last() =~= s.take(i));
        assert(dec_val(s.take(i + 1)) == dec_val(s.take(i)) * 10 + digit_val(s.take(i + 1).last()));
        assert(dec_val(s.take(i)) * 10 >= dec_val(s.take(i))) by (nonlinear_arith);
        lemma_dec_val_prefix(s, i + 1);
    } else {
        assert(s.take(i) =~= s);
    }
}


/// Reads the canonical decimal text of an `i64`: an optional `-`, no
/// leading zeros, value in range.  Accepts exactly the outputs of
/// `int_digits` on `i64` values.
pub fn parse_i64_dec(b: &str) -> (r: Option<i64>)
    ensures
        r matches Some(v) ==> b@ == int_digits(v as int),
        r is None ==> forall|v: i64| b@ != int_digits(v as int),
{
    let len = b.unicode_len();
    if len == 0 {
        proof {
            assert forall|v: i64| b@ != int_digits(v as int) by {
                lemma_int_digits_wf(v as int);
            }
        }
        return None;
    }
    if b.get_char(0) == '-' {
        let m = b.substring_char(1, len);
        assert(m@ == b@.subrange(1, len as int));
        match parse_dec_u64(m) {
            None => {
                proof {
                    assert forall|v: i64| b@ != int_digits(v as int) by {
                        if v as int >= 0 {
                            lemma_dec_digits_wf(v as nat);
                            if b@ == int_digits(v as int) {
                                assert(is_dec_digit(b@[0]));
                                vstd::utf8::char_u32_cast(b@[0], b@[0] as u32);
                                vstd::utf8::char_u32_cast('-', '-' as u32);
                                assert(b@[0] != '-');
                            }
                        } else {
                            let mg = (-(v as int)) as nat;
                            lemma_dec_digits_wf(mg);
                            lemma_dec_round_trip(mg);
                            if b@ == int_digits(v as int) {
                                assert(m@ =~= dec_digits(mg));
                                assert(mg <= 0x8000_0000_0000_0000);
                                assert(dec_val(m@) <= u64::MAX);
                            }
                        }
                    }
                }
                None
            },
            Some(mag) => {
                assert(m@.len() > 0);
                if m.get_char(0) == '0' {
                    proof {
                        assert forall|v: i64| b@ != int_digits(v as int) by {
                            if v as int >= 0 {
                                lemma_dec_digits_wf(v as nat);
                                if b@ == int_digits(v as int) {
                                    assert(is_dec_digit(b@[0]));
                                    vstd::utf8::char_u32_cast(b@[0], b@[0] as u32);
                                    vstd::utf8::char_u32_cast('-', '-' as u32);
                                    assert(b@[0] != '-');
                                }
                            } else {
                                let mg = (-(v as int)) as nat;
                                lemma_dec_digits_no_leading_zero(mg);
                                if b@ == int_digits(v as int) {
                                    assert(m@ =~= dec_digits(mg));
                                    assert(m@[0] != '0');
                                }
                            }
                        }
                    }
                    return None;
                }
                if mag > 0x8000_0000_0000_0000 {
                    proof {
                        assert forall|v: i64| b@ != int_digits(v as int) by {
                            if v as int >= 0 {
                                lemma_dec_digits_wf(v as nat);
                                if b@ == int_digits(v as int) {
                                    assert(is_dec_digit(b@[0]));
                                    vstd::utf8::char_u32_cast(b@[0], b@[0] as u32);
                                    vstd::utf8::char_u32_cast('-', '-' as u32);
                                    assert(b@[0] != '-');
                                }
                            } else {
                                let mg = (-(v as int)) as nat;
                                lemma_dec_round_trip(mg);
                                if b@ == int_digits(v as int) {
                                    assert(m@ =~= dec_digits(mg));
                                    assert(dec_val(m@) == mg);
                                    assert(mg <= 0x8000_0000_0000_0000);
                                }
                            }
                        }
                    }
                    return None;
                }
                let v: i64 = (-(mag as i128)) as i64;
                proof {
                    assert(-(mag as int) >= i64::MIN as int);
                    assert(v as int == -(mag as int));
                    lemma_dec_canon(m@);
                    assert(dec_digits(mag as nat) == m@);
                    assert((-(v as int)) as nat == mag as nat);
                    assert(b@ =~= seq!['-'] + m@);
                    assert(int_digits(v as int) =~= b@);
                }
                Some(v)
            },
        }
    } else {
        match parse_dec_u64(b) {
            None => {
                proof {
                    assert forall|v: i64| b@ != int_digits(v as int) by {
                        if v as int >= 0 {
                            lemma_dec_digits_wf(v as nat);
                            lemma_dec_round_trip(v as nat);
                        } else {
                            lemma_dec_digits_wf((-(v as int)) as nat);
                            if b@ == int_digits(v as int) {
                                assert(b@[0] == '-');
                            }
                        }
                    }
                }
                None
            },
            Some(val) => {
                if len > 1 && b.get_char(0) == '0' {
                    proof {
                        assert forall|v: i64| b@ != int_digits(v as int) by {
                            if v as int >= 1 {
                                lemma_dec_digits_no_leading_zero(v as nat);
                            } else if v as int == 0 {
                                lemma_dec_digits_wf(0);
                                assert(dec_digits(0).len() == 1);
                            } else {
                                if b@ == int_digits(v as int) {
                                    assert(b@[0] == '-');
                                    vstd::utf8::char_u32_cast('-', '-' as u32);
                                    vstd::utf8::char_u32_cast('0', '0' as u32);
                                }
                            }
                        }
                    }
                    return None;
                }
                if val > 0x7FFF_FFFF_FFFF_FFFF {
                    proof {
                        assert forall|v: i64| b@ != int_digits(v as int) by {
                            if v as int >= 0 {
                                lemma_dec_round_trip(v as nat);
                                if b@ == int_digits(v as int) {
                                    assert(dec_val(b@) == v as nat);
                                }
                            } else {
                                lemma_dec_digits_wf((-(v as int)) as nat);
                                if b@ == int_digits(v as int) {
                                    assert(b@[0] == '-');
                                }
                            }
                        }
                    }
                    return None;
                }
                let v: i64 = val as i64;
                proof {
                    assert(v as int == val as int);
                    lemma_dec_canon(b@);
                    assert(dec_digits(val as nat) == b@);
                    assert(int_digits(v as int) == b@);
                }
                Some(v)
            },
        }
    }
}

fn push_dec_u64(n: u64, out: &mut Vec<char>)
    ensures
        final(out)@ == old(out)@ + dec_digits(n as nat),
    decreases n,
{
    if n >= 10 {
        push_dec_u64(n / 10, out);
    }
    let d: u8 = (n % 10) as u8;
    out.push((48 + d) as char);
    assert(out@ =~= old(out)@ + dec_digits(n as nat));
}

fn push_dec_u128(n: u128, out: &mut Vec<char>)
    ensures
        final(out)@ == old(out)@ + dec_digits(n as nat),
    decreases n,
{
    if n >= 10 {
        push_dec_u128(n / 10, out);
    }
    let d: u8 = (n % 10) as u8;
    out.push((48 + d) as char);
    assert(out@ =~= old(out)@ + dec_digits(n as nat));
}

/// The decimal text of `n`.
pub fn u64_to_dec(n: u64) -> (r: String)
    ensures
        r@ == dec_digits(n as nat),
{
    let mut v: Vec<char> = Vec::new();
    push_dec_u64(n, &mut v);
    proof {
        assert(v@ =~= dec_digits(n as nat));
    }
    chars_to_string(v)
}

/// The decimal text of a 128-bit client token.
pub fn u128_to_dec(n: u128) -> (r: String)
    ensures
        r@ == dec_digits(n as nat),
{
    let mut v: Vec<char> = Vec::new();
    push_dec_u128(n, &mut v);
    proof {
        assert(v@ =~= dec_digits(n as nat));
    }
    chars_to_string(v)
}

/// The decimal text of an integer, with a leading `-` when negative.
pub open spec fn int_digits(v: int) -> Seq<char> {
    if v < 0 {
        seq!['-'] + dec_digits((-v) as nat)
    } else {
        dec_digits(v as nat)
    }
}

pub proof fn lemma_int_digits_wf(v: int)
    ensures
        int_digits(v).len() >= 1,
{
    if v < 0 {
        lemma_dec_digits_wf((-v) as nat);
    } else {
        lemma_dec_digits_wf(v as nat);
    }
}

/// The decimal text of an `i32`.
pub fn i32_to_dec(c: i32) -> (r: String)
    ensures
        r@ == int_digits(c as int),
{
    if c < 0 {
        let mag: u64 = (-(c as i64)) as u64;
        assert(mag as nat == (-(c as int)) as nat);
        let mut out = "-".to_owned();
        let digits = u64_to_dec(mag);
        out.append(digits.as_str());
        proof {
            reveal_strlit("-");
            assert("-"@ =~= seq!['-']);
            assert(out@ =~= int_digits(c as int));
        }
        out
    } else {
        u64_to_dec(c as u64)
    }
}

/// The decimal text of an `i64`.
pub fn i64_to_dec(c: i64) -> (r: String)
    ensures
        r@ == int_digits(c as int),
{
    if c < 0 {
        let mag: u64 = (-(c as i128)) as u64;
        assert(mag as nat == (-(c as int)) as nat);
        let mut out = "-".to_owned();
        let digits = u64_to_dec(mag);
        out.append(digits.as_str());
        proof {
            reveal_strlit("-");
            assert("-"@ =~= seq!['-']);
            assert(out@ =~= int_digits(c as int));
        }
        out
    } else {
        u64_to_dec(c as u64)
    }
}

/// Reads a decimal `u64`.  Succeeds exactly on non-empty all-digit
/// strings whose value fits.
pub fn parse_dec_u64(s: &str) -> (r: Option<u64>)
    ensures
        r is Some <==> s@.len() > 0 && all_dec_digits(s@) && dec_val(s@) <= u64::MAX,
        r matches Some(v) ==> v as nat == dec_val(s@),
{
    let len = s.unicode_len();
    if len == 0 {
        return None;
    }
    let mut acc: u64 = 0;
    let mut i: usize = 0;
    while i < len
        invariant
            0 <= i <= len,
            len == s@.len(),
            all_dec_digits(s@.take(i as int)),
            acc as nat == dec_val(s@.take(i as int)),
        decreases len - i,
    {
        let c = s.get_char(i);
        let u = c as u32;
        if u < 48 || u > 57 {
            assert(!is_dec_digit(s@[i as int]));
            return None;
        }
        let d: u64 = (u - 48) as u64;
        if acc > (u64::MAX - d) / 10 {
            proof {
                assert(s@.take(i as int + 1).drop_last() =~= s@.take(i as int));
                assert(acc * 10 + d > u64::MAX) by (nonlinear_arith)
                    requires
                        acc > (u64::MAX - d) / 10,
                        d <= 9,
                        acc >= 0,
                ;
                assert(dec_val(s@.take(i as int + 1)) > u64::MAX);
                lemma_dec_val_prefix(s@, i as int + 1);
            }
            return None;
        }
        proof {
            assert(acc * 10 + d <= u64::MAX) by (nonlinear_arith)
                requires
                    acc <= (u64::MAX - d) / 10,
                    d <= 9,
                    acc >= 0,
            ;
            assert(s@.take(i as int + 1).drop_last() =~= s@.take(i as int));
        }
        acc = acc * 10 + d;
        i += 1;
    }
    proof {
        assert(s@.take(len as int) =~= s@);
    }
    Some(acc)
}

/// Reads a decimal `u128` (the textual client token).  Succeeds exactly
/// on non-empty all-digit strings whose value fits.
pub fn parse_dec_u128(s: &str) -> (r: Option<u128>)
    ensures
        r is Some <==> s@.len() > 0 && all_dec_digits(s@) && dec_val(s@) <= u128::MAX,
        r matches Some(v) ==> v as nat == dec_val(s@),
{
    let len = s.unicode_len();
    if len == 0 {
        return None;
    }
    let mut acc: u128 = 0;
    let mut i: usize = 0;
    while i < len
        invariant
            0 <= i <= len,
            len == s@.len(),
            all_dec_digits(s@.take(i as int)),
            acc as nat == dec_val(s@.take(i as int)),
        decreases len - i,
    {
        let c = s.get_char(i);
        let u = c as u32;
        if u < 48 || u > 57 {
            assert(!is_dec_digit(s@[i as int]));
            return None;
        }
        let d: u128 = (u - 48) as u128;
        if acc > (u128::MAX - d) / 10 {
            proof {
                assert(s@.take(i as int + 1).drop_last() =~= s@.take(i as int));
                assert(acc * 10 + d > u128::MAX) by (nonlinear_arith)
                    requires
                        acc > (u128::MAX - d) / 10,
                        d <= 9,
                        acc >= 0,
                ;
                assert(dec_val(s@.take(i as int + 1)) > u128::MAX);
                lemma_dec_val_prefix(s@, i as int + 1);
            }
            return None;
        }
        proof {
            assert(acc * 10 + d <= u128::MAX) by (nonlinear_arith)
                requires
                    acc <= (u128::MAX - d) / 10,
                    d <= 9,
                    acc >= 0,
            ;
            assert(s@.take(i as int + 1).drop_last() =~= s@.take(i as int));
        }
        acc = acc * 10 + d;
        i += 1;
    }
    proof {
        assert(s@.take(len as int) =~= s@);
    }
    Some(acc)
}

} // verus!
