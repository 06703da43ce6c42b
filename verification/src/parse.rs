//! Verified parsing of unsigned 128-bit integers from decimal and hexadecimal
//! strings, with the same acceptance rules as the standard library's string
//! conversions: an optional leading `+`, at least one digit, case-insensitive
//! hexadecimal digits, and rejection of values that do not fit.

use vstd::prelude::*;
use vstd::arithmetic::div_mod::{lemma_fundamental_div_mod, lemma_mod_bound};
use vstd::string::StrSliceExecFns;

verus! {

/// Value of `c` as a digit of base `radix`, or `-1` if `c` is no such digit.
pub open spec fn spec_digit_val(c: char, radix: int) -> int {
    let v = c as u32;
    if 48 <= v <= 57 && v - 48 < radix {
        v - 48
    } else if 97 <= v <= 102 && v - 87 < radix {
        v - 87
    } else if 65 <= v <= 70 && v - 55 < radix {
        v - 55
    } else {
        -1
    }
}

pub open spec fn is_digit(c: char, radix: int) -> bool {
    spec_digit_val(c, radix) >= 0
}

pub open spec fn all_digits(s: Seq<char>, radix: int) -> bool {
    forall|i: int| 0 <= i < s.len() ==> #[trigger] is_digit(s[i], radix)
}

/// Value of a digit string read most-significant first.
pub open spec fn spec_digits_val(s: Seq<char>, radix: int) -> int
    decreases s.len(),
{
    if s.len() == 0 {
        0
    } else {
        spec_digits_val(s.drop_last(), radix) * radix + spec_digit_val(s.last(), radix)
    }
}

/// The number denoted by `s` in base `radix`, exactly as the standard
/// library's string-to-integer conversions read it: an optional leading `+`,
/// then one or more digits, and the value must fit in a `u128`.
pub open spec fn spec_parse_u128(s: Seq<char>, radix: int) -> Option<u128> {
    let body = if s.len() > 0 && s[0] == '+' {
        s.skip(1)
    } else {
        s
    };
    if body.len() == 0 {
        None
    } else if !all_digits(body, radix) {
        None
    } else if spec_digits_val(body, radix) > u128::MAX {
        None
    } else {
        Some(spec_digits_val(body, radix) as u128)
    }
}

proof fn lemma_digits_val_nonneg(s: Seq<char>, radix: int)
    requires
        all_digits(s, radix),
        radix >= 2,
    ensures
        spec_digits_val(s, radix) >= 0,
    decreases s.len(),
{
    if s.len() > 0 {
        assert(all_digits(s.drop_last(), radix));
        lemma_digits_val_nonneg(s.drop_last(), radix);
        let v = spec_digits_val(s.drop_last(), radix);
        assert(v * radix >= 0) by (nonlinear_arith)
            requires
                v >= 0,
                radix >= 2,
        ;
        assert(is_digit(s.last(), radix));
    }
}

/// A digit string is worth at least as much as any of its prefixes.
proof fn lemma_digits_val_take_le(s: Seq<char>, i: int, radix: int)
    requires
        0 <= i <= s.len(),
        all_digits(s, radix),
        radix >= 2,
    ensures
        spec_digits_val(s.take(i), radix) <= spec_digits_val(s, radix),
    decreases s.len() - i,
{
    if i < s.len() {
        assert(s.take(i + 1).drop_last() =~= s.take(i));
        assert(s.take(i + 1).last() == s[i]);
        assert(all_digits(s.take(i), radix));
        lemma_digits_val_nonneg(s.take(i), radix);
        let v = spec_digits_val(s.take(i), radix);
        assert(v * radix >= v) by (nonlinear_arith)
            requires
                v >= 0,
                radix >= 2,
        ;
        assert(is_digit(s[i], radix));
        assert(spec_digits_val(s.take(i + 1), radix) >= v);
        lemma_digits_val_take_le(s, i + 1, radix);
    } else {
        assert(s.take(i) =~= s);
    }
}

fn digit_of_char(c: char, radix: u32) -> (r: Option<u32>)
    requires
        radix == 10 || radix == 16,
    ensures
        match r {
            Some(d) => spec_digit_val(c, radix as int) == d as int && d < radix,
            None => spec_digit_val(c, radix as int) == -1,
        },
{
    let v = c as u32;
    if 48 <= v && v <= 57 && v - 48 < radix {
        Some(v - 48)
    } else if 97 <= v && v <= 102 && radix == 16 {
        Some(v - 87)
    } else if 65 <= v && v <= 70 && radix == 16 {
        Some(v - 55)
    } else {
        None
    }
}

/// Parses `s` as a base-`radix` `u128`; returns `None` on an empty body,
/// a non-digit, or overflow.
fn parse_u128_radix(s: &str, radix: u32) -> (r: Option<u128>)
    requires
        radix == 10 || radix == 16,
    ensures
        r == spec_parse_u128(s@, radix as int),
{
    let len: usize = s.unicode_len();
    let start: usize = if len > 0 && s.get_char(0) == '+' {
        1
    } else {
        0
    };
    let ghost body = if start == 1 {
        s@.skip(1)
    } else {
        s@
    };
    if start == len {
        return None;
    }
    let mut acc: u128 = 0;
    let mut i: usize = start;
    while i < len
        invariant
            start <= i <= len,
            len == s@.len(),
            start == 1 ==> s@.len() > 0 && s@[0] == '+',
            start == 0 ==> !(s@.len() > 0 && s@[0] == '+'),
            body == (if start == 1 { s@.skip(1) } else { s@ }),
            body.len() == len - start,
            all_digits(body.take(i - start), radix as int),
            acc == spec_digits_val(body.take(i - start), radix as int),
            radix == 10 || radix == 16,
        decreases len - i,
    {
        let c = s.get_char(i);
        proof {
            assert(body[i - start] == s@[i as int]);
        }
        match digit_of_char(c, radix) {
            None => {
                proof {
                    assert(!is_digit(body[i - start], radix as int));
                    assert(!all_digits(body, radix as int));
                }
                return None;
            },
            Some(d) => {
                let ghost k = i - start;
                proof {
                    assert(body.take(k + 1).drop_last() =~= body.take(k));
                    assert(body.take(k + 1).last() == body[k]);
                    assert(all_digits(body.take(k + 1), radix as int));
                }
                let ghost m: int = u128::MAX as int;
                let ghost rr: int = radix as int;
                let limit: u128 = u128::MAX / (radix as u128);
                proof {
                    lemma_fundamental_div_mod(m, rr);
                    lemma_mod_bound(m, rr);
                }
                if acc > limit {
                    proof {
                        assert(acc as int * rr + d >= m + 1) by (nonlinear_arith)
                            requires
                                acc as int >= m / rr + 1,
                                m == rr * (m / rr) + m % rr,
                                0 <= m % rr < rr,
                                d >= 0,
                                rr >= 2,
                        ;
                        assert(spec_digits_val(body.take(k + 1), radix as int) > m);
                        if all_digits(body, rr) {
                            lemma_digits_val_take_le(body, k + 1, rr);
                        }
                    }
                    return None;
                }
                proof {
                    assert(acc as int * rr <= m - (m % rr)) by (nonlinear_arith)
                        requires
                            acc as int <= m / rr,
                            m == rr * (m / rr) + m % rr,
                            0 <= m % rr < rr,
                            rr >= 2,
                    ;
                }
                let t: u128 = acc * (radix as u128);
                if t > u128::MAX - (d as u128) {
                    proof {
                        assert(spec_digits_val(body.take(k + 1), radix as int) > m);
                        if all_digits(body, rr) {
                            lemma_digits_val_take_le(body, k + 1, rr);
                        }
                    }
                    return None;
                }
                acc = t + (d as u128);
                i += 1;
            },
        }
    }
    proof {
        assert(body.take(body.len() as int) =~= body);
    }
    Some(acc)
}

/// Parses a decimal `u128`, as `u128::from_str` would.
pub fn parse_u128_dec(s: &str) -> (r: Option<u128>)
    ensures
        r == spec_parse_u128(s@, 10),
{
    parse_u128_radix(s, 10)
}

/// Parses a hexadecimal `u128`, as `u128::from_str_radix` with base 16 would.
pub fn parse_u128_hex(s: &str) -> (r: Option<u128>)
    ensures
        r == spec_parse_u128(s@, 16),
{
    parse_u128_radix(s, 16)
}

} // verus!
