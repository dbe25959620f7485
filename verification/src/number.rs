//! Numbers as text: reading them, and writing them for a person to read.

use vstd::prelude::*;

use crate::text;

verus! {

/// Whether `c` is a decimal digit.
pub open spec fn is_digit(c: char) -> bool {
    '0' <= c <= '9'
}

/// The value of a digit.
pub open spec fn digit_value(c: char) -> int {
    c as int - '0' as int
}

/// The digit with a value below ten.
pub open spec fn digit(value: int) -> char {
    (value + '0' as int) as char
}

/// The number that digits spell in base `base`.
pub open spec fn digits_value(s: Seq<char>, base: int) -> int
    decreases s.len(),
{
    if s.len() == 0 {
        0
    } else {
        digits_value(s.drop_last(), base) * base + digit_value(s.last())
    }
}

/// Whether every character of `s` is a digit of base `base`.
pub open spec fn all_digits(s: Seq<char>, base: int) -> bool {
    forall|i: int| 0 <= i < s.len() ==> is_digit(#[trigger] s[i]) && digit_value(s[i]) < base
}

/// `s` without one plus sign in front.
pub open spec fn without_plus(s: Seq<char>) -> Seq<char> {
    if s.len() > 0 && s[0] == '+' {
        s.skip(1)
    } else {
        s
    }
}

/// The number that `s` spells in base `base`: digits, with one plus sign in
/// front at most, and no more than `max`.
pub open spec fn number(s: Seq<char>, base: int, max: int) -> Option<int> {
    let digits = without_plus(s);
    if digits.len() > 0 && all_digits(digits, base) && digits_value(digits, base) <= max {
        Some(digits_value(digits, base))
    } else {
        None
    }
}

/// More digits never make a number smaller.
proof fn lemma_digits_grow(s: Seq<char>, base: int, n: int)
    requires
        0 <= n <= s.len(),
        base >= 1,
        all_digits(s, base),
    ensures
        0 <= digits_value(s.take(n), base) <= digits_value(s, base),
    decreases s.len(),
{
    if n == s.len() {
        assert(s.take(n) == s);
        if n > 0 {
            lemma_digits_grow(s.drop_last(), base, n - 1);
            assert(s.drop_last().take(n - 1) == s.drop_last());
            assert(digits_value(s.drop_last(), base) * base >= 0) by (nonlinear_arith)
                requires
                    digits_value(s.drop_last(), base) >= 0,
                    base >= 1,
            ;
        }
    } else {
        lemma_digits_grow(s.drop_last(), base, n);
        assert(s.drop_last().take(n) == s.take(n));
        let v = digits_value(s.drop_last(), base);
        assert(v * base >= v) by (nonlinear_arith)
            requires
                v >= 0,
                base >= 1,
        ;
    }
}

/// Reads a number in base `base` that is no more than `max`.
pub fn parse_number(s: &[char], base: u64, max: u64) -> (r: Option<u64>)
    requires
        2 <= base <= 10,
    ensures
        match r {
            Some(value) => number(s@, base as int, max as int) == Some(value as int),
            None => number(s@, base as int, max as int) is None,
        },
{
    let digits: &[char] = if s.len() > 0 && s[0] == '+' {
        &s[1..s.len()]
    } else {
        s
    };
    if digits.len() == 0 {
        return None;
    }
    let mut value: u64 = 0;
    let mut i: usize = 0;
    while i < digits.len()
        invariant
            2 <= base <= 10,
            i <= digits@.len(),
            digits@ == without_plus(s@),
            value <= max,
            value == digits_value(digits@.take(i as int), base as int),
            all_digits(digits@.take(i as int), base as int),
        decreases digits@.len() - i,
    {
        let c = digits[i];
        if !('0' <= c && c <= '9') {
            assert(!is_digit(digits@[i as int]));
            return None;
        }
        let d: u64 = (c as u32 - 48) as u64;
        if d >= base {
            assert(!(digit_value(digits@[i as int]) < base));
            return None;
        }
        assert(digits@.take(i as int + 1).drop_last() == digits@.take(i as int));
        assert(0 <= value * base <= 0xffff_ffff_ffff_ffff * 10) by (nonlinear_arith)
            requires
                0 <= value <= 0xffff_ffff_ffff_ffff,
                2 <= base <= 10,
        ;
        let wide: u128 = value as u128 * base as u128 + d as u128;
        if wide > max as u128 {
            proof {
                if all_digits(digits@, base as int) {
                    lemma_digits_grow(digits@, base as int, i as int + 1);
                }
            }
            return None;
        }
        value = wide as u64;
        assert(all_digits(digits@.take(i as int + 1), base as int)) by {
            assert forall|j: int| 0 <= j < i + 1 implies is_digit(
                #[trigger] digits@.take(i as int + 1)[j],
            ) && digit_value(digits@.take(i as int + 1)[j]) < base by {
                if j < i {
                    assert(is_digit(digits@.take(i as int)[j]));
                }
            }
        }
        i += 1;
    }
    assert(digits@.take(i as int) == digits@);
    Some(value)
}

/// The decimal digits of a number.
pub open spec fn decimal(value: nat) -> Seq<char>
    decreases value,
{
    if value < 10 {
        seq![digit(value as int)]
    } else {
        decimal(value / 10).push(digit(value as int % 10))
    }
}

/// The decimal digits of a number are digits.
pub proof fn lemma_decimal_digits(value: nat)
    ensures
        forall|i: int| 0 <= i < decimal(value).len() ==> is_digit(#[trigger] decimal(value)[i]),
    decreases value,
{
    if value >= 10 {
        lemma_decimal_digits(value / 10);
        let front = decimal(value / 10);
        assert forall|i: int| 0 <= i < decimal(value).len() implies is_digit(
            #[trigger] decimal(value)[i],
        ) by {
            if i < front.len() {
                assert(decimal(value)[i] == front[i]);
            }
        }
    }
}

/// The decimal digits of a number.
pub fn to_decimal(value: u64) -> (r: Vec<char>)
    ensures
        r@ == decimal(value as nat),
    decreases value,
{
    if value < 10 {
        let mut out: Vec<char> = Vec::new();
        out.push((value as u8 + 48) as char);
        out
    } else {
        let mut out = to_decimal(value / 10);
        out.push(((value % 10) as u8 + 48) as char);
        out
    }
}

/// The decimal digits of a number, as a string.
pub fn decimal_string(value: u64) -> (r: String)
    ensures
        r@ == decimal(value as nat),
{
    text::string_of(&to_decimal(value))
}

/// The decimal digits of a number, behind its sign if it is negative.
pub open spec fn signed(value: int) -> Seq<char> {
    if value < 0 {
        "-"@ + decimal((-value) as nat)
    } else {
        decimal(value as nat)
    }
}

/// The decimal digits of a number, behind its sign if it is negative.
pub fn signed_string(value: i32) -> (r: String)
    ensures
        r@ == signed(value as int),
{
    if value < 0 {
        let digits = decimal_string((-(value as i64)) as u64);
        text::cat2("-", digits.as_str())
    } else {
        decimal_string(value as u64)
    }
}

/// The quotient of `n` by `d`, rounded to the nearest whole number, and to the
/// even one of two that are equally near.
pub open spec fn rounded(n: int, d: int) -> int {
    if 2 * (n % d) > d || (2 * (n % d) == d && (n / d) % 2 == 1) {
        n / d + 1
    } else {
        n / d
    }
}

/// The quotient of `n` by `d`, rounded to the nearest whole number, and to the
/// even one of two that are equally near.
pub fn round(n: u128, d: u128) -> (r: u128)
    requires
        0 < d < 0x1_0000_0000_0000_0000,
        n < 0x1_0000_0000_0000_0000_0000,
    ensures
        r == rounded(n as int, d as int),
        r <= n + 1,
        r <= n / d + 1,
{
    let q = n / d;
    let rest = n % d;
    assert(q <= n) by (nonlinear_arith)
        requires
            q == n / d,
            d > 0,
    ;
    assert(rest < d) by (nonlinear_arith)
        requires
            rest == n % d,
            d > 0,
    ;
    if 2 * rest > d || (2 * rest == d && q % 2 == 1) {
        q + 1
    } else {
        q
    }
}

/// The step between numbers as large as `n` that a binary floating-point number
/// with a significand of fifty-three bits can hold.
pub open spec fn double_step(n: int) -> int
    decreases n,
{
    if n < 0x20_0000_0000_0000 {
        1
    } else {
        2 * double_step(n / 2)
    }
}

/// The number nearest to `n` that a binary floating-point number with a
/// significand of fifty-three bits can hold.
pub open spec fn nearest_double(n: int) -> int {
    rounded(n, double_step(n)) * double_step(n)
}

/// The step between the floating-point numbers as large as `n`.
pub fn step_of(n: u64) -> (r: u64)
    ensures
        r == double_step(n as int),
        1 <= r,
        r as int * 0x10_0000_0000_0000 <= n || r == 1,
    decreases n,
{
    if n < 0x20_0000_0000_0000 {
        1
    } else {
        let half = step_of(n / 2);
        assert(half as int * 0x10_0000_0000_0000 <= n / 2);
        2 * half
    }
}

/// The number of tenths of `scale` in `bytes`, computed as floating-point
/// division and formatting compute it.
pub open spec fn tenths(bytes: int, scale: int) -> int {
    rounded(nearest_double(bytes) * 10, scale)
}

/// The number of tenths of `scale` in `bytes`.
pub fn count_tenths(bytes: u64, scale: u64) -> (r: u128)
    requires
        0 < scale,
    ensures
        r == tenths(bytes as int, scale as int),
        r <= 0x1_0000_0000_0000_0000_0000,
        scale >= 16 ==> r <= 0x1_ffff_ffff_ffff_ffff,
{
    let step = step_of(bytes);
    let q = round(bytes as u128, step as u128);
    let ghost whole = bytes as int / step as int;
    assert(q * step <= bytes + step) by {
        assert(whole * step <= bytes) by (nonlinear_arith)
            requires
                whole == bytes as int / step as int,
                step >= 1,
        ;
        assert(q <= whole + 1);
        assert(q * step <= whole * step + step) by (nonlinear_arith)
            requires
                q <= whole + 1,
                step >= 1,
        ;
    }
    let nearest = q * step as u128;
    assert(scale >= 16 ==> (nearest * 10) / scale as int <= (nearest * 10) / 16) by (nonlinear_arith)
        requires
            scale > 0,
            nearest >= 0,
    ;
    round(nearest * 10, scale as u128)
}

} // verus!
