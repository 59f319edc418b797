//! Fixed-point decimal parsing of exchange wire fields.

use vstd::arithmetic::div_mod::{
    lemma_add_mod_noop, lemma_fundamental_div_mod, lemma_mod_bound, lemma_mod_multiples_vanish,
    lemma_mod_twice, lemma_mul_mod_noop_general,
};
use vstd::prelude::*;
use vstd::wrapping::i64_specs;

verus! {

/// Largest number of fractional digits that a caller can ask for.
pub const MAX_SCALE: u32 = 15;

/// Why a byte span could not be read as a number.
#[derive(Debug, Clone, Copy, PartialEq, Eq, Structural)]
pub enum ParseError {
    /// The start index is at or past the end of the buffer.
    EmptyInput,
    /// The first byte is neither a digit, `-`, nor `.`.
    InvalidFirstChar,
    /// A sign or a dot is present but no digit.
    NoDigits,
    /// A second `-` or a second `.` stands inside the number.
    InvalidTerminator,
}

/// The number of values that 64 bits can hold.
pub open spec fn two_pow_64() -> int {
    0x1_0000_0000_0000_0000
}

/// The 64-bit signed integer that is congruent to `x` modulo 2^64.
pub open spec fn wrap_i64(x: int) -> int {
    let r = x % two_pow_64();
    if r > i64::MAX {
        r - two_pow_64()
    } else {
        r
    }
}

/// Ten to the power `exp`.
pub open spec fn pow10(exp: nat) -> int
    decreases exp,
{
    if exp == 0 {
        1
    } else {
        10 * pow10((exp - 1) as nat)
    }
}

/// A value in the 64-bit signed range is its own wrapped value.
pub proof fn lemma_wrap_in_range(x: int)
    requires
        i64::MIN <= x <= i64::MAX,
    ensures
        wrap_i64(x) == x,
{
    lemma_wrap_unique(x, x);
}

/// The wrapped value stays in the 64-bit signed range and is congruent to
/// the exact one.
pub proof fn lemma_wrap_congruent(x: int)
    ensures
        i64::MIN <= wrap_i64(x) <= i64::MAX,
        wrap_i64(x) % two_pow_64() == x % two_pow_64(),
{
    let m = two_pow_64();
    let r = x % m;
    lemma_mod_bound(x, m);
    lemma_mod_twice(x, m);
    if r > i64::MAX {
        lemma_mod_multiples_vanish(-1, r, m);
        assert(m * (-1) + r == r - m);
    }
}

/// Only one value of the 64-bit signed range is congruent to `x`.
pub proof fn lemma_wrap_unique(v: int, x: int)
    requires
        i64::MIN <= v <= i64::MAX,
        v % two_pow_64() == x % two_pow_64(),
    ensures
        wrap_i64(x) == v,
{
    let m = two_pow_64();
    let w = wrap_i64(x);
    lemma_wrap_congruent(x);
    lemma_fundamental_div_mod(v, m);
    lemma_fundamental_div_mod(w, m);
    let k = v / m - w / m;
    assert(v - w == m * k) by (nonlinear_arith)
        requires
            v == m * (v / m) + (v % m),
            w == m * (w / m) + (w % m),
            v % m == w % m,
            k == v / m - w / m,
    ;
    assert(k == 0) by (nonlinear_arith)
        requires
            v - w == m * k,
            -m < v - w < m,
            m > 0,
    ;
}

/// Wrapping multiplication of wrapped values is the wrapped product.
proof fn lemma_wrapping_mul(x: i64, y: i64, a: int, b: int)
    requires
        x == wrap_i64(a),
        y == wrap_i64(b),
    ensures
        i64_specs::wrapping_mul(x, y) == wrap_i64(a * b),
{
    let m = two_pow_64();
    lemma_wrap_congruent(a);
    lemma_wrap_congruent(b);
    lemma_mul_mod_noop_general(x as int, y as int, m);
    lemma_mul_mod_noop_general(a, b, m);
    assert((x * y) % m == (a * b) % m);
    lemma_wrap_congruent(x * y);
    lemma_wrap_unique(wrap_i64(x * y), a * b);
}

/// Wrapping addition of wrapped values is the wrapped sum.
proof fn lemma_wrapping_add(x: i64, y: i64, a: int, b: int)
    requires
        x == wrap_i64(a),
        y == wrap_i64(b),
    ensures
        i64_specs::wrapping_add(x, y) == wrap_i64(a + b),
{
    let m = two_pow_64();
    lemma_wrap_congruent(a);
    lemma_wrap_congruent(b);
    lemma_add_mod_noop(x as int, y as int, m);
    lemma_add_mod_noop(a, b, m);
    assert((x + y) % m == (a + b) % m);
    let s = i64_specs::wrapping_add(x, y) as int;
    if x + y > i64::MAX {
        lemma_mod_multiples_vanish(-1, x + y, m);
        assert(m * (-1) + (x + y) == s);
    } else if x + y < i64::MIN {
        lemma_mod_multiples_vanish(1, x + y, m);
        assert(m * 1 + (x + y) == s);
    }
    lemma_wrap_unique(s, a + b);
}

/// Whether a byte is an ASCII decimal digit.
pub open spec fn is_digit(b: u8) -> bool {
    0x30 <= b <= 0x39
}

/// The index at which the run of digits that begins at `from` ends: that of
/// the first byte at or after `from` that is no digit, or the length.
pub open spec fn digit_run_end(bytes: Seq<u8>, from: int) -> int
    decreases bytes.len() - from,
{
    if 0 <= from < bytes.len() && is_digit(bytes[from]) {
        digit_run_end(bytes, from + 1)
    } else {
        from
    }
}

/// The number that the decimal digits in `bytes[from..to]` spell.
pub open spec fn digits_value(bytes: Seq<u8>, from: int, to: int) -> int
    decreases to - from,
{
    if to <= from {
        0
    } else {
        digits_value(bytes, from, to - 1) * 10 + (bytes[to - 1] - 0x30)
    }
}

/// What the text that begins at `start` denotes at `scale` fractional digits:
/// the exact scaled value with the index of the first byte behind the
/// number, or the reason why it is no number.
pub open spec fn parse_spec(bytes: Seq<u8>, start: int, scale: nat) -> Result<
    (int, int),
    ParseError,
> {
    if start >= bytes.len() {
        Err(ParseError::EmptyInput)
    } else if bytes[start] != 0x2d && bytes[start] != 0x2e && !is_digit(bytes[start]) {
        Err(ParseError::InvalidFirstChar)
    } else {
        let negative = bytes[start] == 0x2d;
        let sign: int = if negative {
            -1
        } else {
            1
        };
        let int_start = if negative {
            start + 1
        } else {
            start
        };
        let int_end = digit_run_end(bytes, int_start);
        let int_value = digits_value(bytes, int_start, int_end);
        if int_end < bytes.len() && bytes[int_end] == 0x2e {
            let frac_start = int_end + 1;
            let frac_end = digit_run_end(bytes, frac_start);
            if frac_end < bytes.len() && (bytes[frac_end] == 0x2d || bytes[frac_end] == 0x2e) {
                Err(ParseError::InvalidTerminator)
            } else if int_end == int_start && frac_end == frac_start {
                Err(ParseError::NoDigits)
            } else {
                let kept: int = if frac_end - frac_start < scale {
                    frac_end - frac_start
                } else {
                    scale as int
                };
                let mantissa = int_value * pow10(kept as nat) + digits_value(
                    bytes,
                    frac_start,
                    frac_start + kept,
                );
                Ok((sign * (mantissa * pow10((scale - kept) as nat)), frac_end))
            }
        } else if int_end < bytes.len() && bytes[int_end] == 0x2d {
            Err(ParseError::InvalidTerminator)
        } else if int_end == int_start {
            Err(ParseError::NoDigits)
        } else {
            Ok((sign * (int_value * pow10(scale)), int_end))
        }
    }
}

/// Whether `got` is what `parse_spec` asks for: the same error, or the same
/// index with the exact value wrapped to 64 bits.
pub open spec fn parse_result_matches(
    got: Result<(i64, usize), ParseError>,
    exact: Result<(int, int), ParseError>,
) -> bool {
    match (got, exact) {
        (Ok((value, next)), Ok((exact_value, exact_next))) => value == wrap_i64(exact_value)
            && next == exact_next,
        (Err(e), Err(exact_e)) => e == exact_e,
        _ => false,
    }
}

/// Ten to the power `exp`, from a table.
fn power_of_ten(exp: u32) -> (p: i64)
    requires
        exp <= MAX_SCALE,
    ensures
        p == pow10(exp as nat),
{
    proof {
        reveal_with_fuel(pow10, 17);
    }
    match exp {
        0 => 1,
        1 => 10,
        2 => 100,
        3 => 1_000,
        4 => 10_000,
        5 => 100_000,
        6 => 1_000_000,
        7 => 10_000_000,
        8 => 100_000_000,
        9 => 1_000_000_000,
        10 => 10_000_000_000,
        11 => 100_000_000_000,
        12 => 1_000_000_000_000,
        13 => 10_000_000_000_000,
        14 => 100_000_000_000_000,
        _ => 1_000_000_000_000_000,
    }
}

/// Appends one decimal digit to a wrapped mantissa.
fn push_digit(mantissa: i64, b: u8, Ghost(exact): Ghost<int>) -> (next: i64)
    requires
        is_digit(b),
        mantissa == wrap_i64(exact),
    ensures
        next == wrap_i64(exact * 10 + (b - 0x30)),
{
    let digit: i64 = (b - 0x30) as i64;
    let scaled = mantissa.wrapping_mul(10);
    proof {
        lemma_wrap_in_range(10);
        lemma_wrapping_mul(mantissa, 10, exact, 10);
        lemma_wrap_in_range(digit as int);
        lemma_wrapping_add(scaled, digit, exact * 10, digit as int);
    }
    scaled.wrapping_add(digit)
}

/// Scales a wrapped mantissa by a power of ten and gives it its sign.
fn scale_and_sign(mantissa: i64, exp: u32, negative: bool, Ghost(exact): Ghost<int>) -> (value: i64)
    requires
        exp <= MAX_SCALE,
        mantissa == wrap_i64(exact),
    ensures
        value == wrap_i64(
            (if negative {
                -1int
            } else {
                1int
            }) * (exact * pow10(exp as nat)),
        ),
{
    let power = power_of_ten(exp);
    let sign: i64 = if negative {
        -1
    } else {
        1
    };
    let scaled = mantissa.wrapping_mul(power);
    proof {
        lemma_wrap_in_range(power as int);
        lemma_wrapping_mul(mantissa, power, exact, power as int);
        lemma_wrap_in_range(sign as int);
        lemma_wrapping_mul(scaled, sign, exact * power, sign as int);
        assert((exact * power) * sign == sign * (exact * pow10(exp as nat))) by (nonlinear_arith)
            requires
                power == pow10(exp as nat),
        ;
    }
    scaled.wrapping_mul(sign)
}

/// A run of digits ends at or after its beginning, and inside the buffer
/// where it begins there.
pub proof fn lemma_digit_run_bounds(bytes: Seq<u8>, from: int)
    requires
        0 <= from <= bytes.len(),
    ensures
        from <= digit_run_end(bytes, from) <= bytes.len(),
    decreases bytes.len() - from,
{
    if from < bytes.len() && is_digit(bytes[from]) {
        lemma_digit_run_bounds(bytes, from + 1);
    }
}

/// A number that was read ends behind its beginning and inside the buffer,
/// so the next field can be read from there.
pub proof fn lemma_parse_advances(bytes: Seq<u8>, start: int, scale: nat)
    requires
        0 <= start,
    ensures
        match parse_spec(bytes, start, scale) {
            Ok((_, next)) => start < next <= bytes.len(),
            Err(_) => true,
        },
{
    if start < bytes.len() {
        let int_start = if bytes[start] == 0x2d {
            start + 1
        } else {
            start
        };
        lemma_digit_run_bounds(bytes, int_start);
        let int_end = digit_run_end(bytes, int_start);
        if int_end < bytes.len() {
            lemma_digit_run_bounds(bytes, int_end + 1);
        }
    }
}

/// A run of digits that begins at `from` ends where the run that begins at
/// any index inside it ends.
proof fn lemma_digit_run_step(bytes: Seq<u8>, from: int, at: int)
    requires
        0 <= from <= at <= bytes.len(),
        forall|j: int| from <= j < at ==> is_digit(#[trigger] bytes[j]),
    ensures
        digit_run_end(bytes, from) == digit_run_end(bytes, at),
    decreases at - from,
{
    if from < at {
        lemma_digit_run_step(bytes, from + 1, at);
    }
}

/// Parses a number into a fixed-point `i64` and returns the value and the
/// index of the first byte behind the number.
///
/// The grammar is an optional `-`, a run of digits, an optional `.` and a
/// further run of digits. Fractional digits beyond `target_scale` are
/// dropped; missing ones are padded with zeros. A value whose magnitude
/// exceeds 64 bits wraps around.
pub fn parse_i64_with_precision(bytes: &[u8], start_idx: usize, target_scale: u32) -> (result:
    Result<(i64, usize), ParseError>)
    requires
        target_scale <= MAX_SCALE,
    ensures
        parse_result_matches(result, parse_spec(bytes@, start_idx as int, target_scale as nat)),
        result matches Ok((_, next)) ==> start_idx < next <= bytes@.len(),
{
    if start_idx >= bytes.len() {
        return Err(ParseError::EmptyInput);
    }
    let first = bytes[start_idx];
    let negative = first == 0x2d;
    if !negative && first != 0x2e && !(0x30 <= first && first <= 0x39) {
        return Err(ParseError::InvalidFirstChar);
    }
    let int_start: usize = if negative {
        start_idx + 1
    } else {
        start_idx
    };
    let mut idx: usize = int_start;
    let mut res: i64 = 0;
    proof {
        lemma_wrap_in_range(0);
    }
    while idx < bytes.len() && 0x30 <= bytes[idx] && bytes[idx] <= 0x39
        invariant
            int_start <= idx <= bytes.len(),
            forall|j: int| int_start <= j < idx ==> is_digit(#[trigger] bytes@[j]),
            res == wrap_i64(digits_value(bytes@, int_start as int, idx as int)),
        decreases bytes.len() - idx,
    {
        res = push_digit(res, bytes[idx], Ghost(digits_value(bytes@, int_start as int, idx as int)));
        idx += 1;
    }
    proof {
        lemma_digit_run_step(bytes@, int_start as int, idx as int);
    }
    let int_end: usize = idx;
    let ghost int_value = digits_value(bytes@, int_start as int, int_end as int);
    if idx >= bytes.len() || bytes[idx] != 0x2e {
        if idx < bytes.len() && bytes[idx] == 0x2d {
            return Err(ParseError::InvalidTerminator);
        }
        if int_end == int_start {
            return Err(ParseError::NoDigits);
        }
        return Ok((scale_and_sign(res, target_scale, negative, Ghost(int_value)), idx));
    }
    idx += 1;
    let frac_start: usize = idx;
    let mut kept: u32 = 0;
    proof {
        assert(int_value * pow10(0) == int_value) by (nonlinear_arith)
            requires
                pow10(0) == 1,
        ;
    }
    while idx < bytes.len() && 0x30 <= bytes[idx] && bytes[idx] <= 0x39
        invariant
            frac_start <= idx <= bytes.len(),
            kept <= target_scale,
            kept <= idx - frac_start,
            kept < target_scale ==> kept == idx - frac_start,
            forall|j: int| frac_start <= j < idx ==> is_digit(#[trigger] bytes@[j]),
            res == wrap_i64(
                int_value * pow10(kept as nat) + digits_value(
                    bytes@,
                    frac_start as int,
                    frac_start + kept,
                ),
            ),
        decreases bytes.len() - idx,
    {
        if kept < target_scale {
            let ghost before = int_value * pow10(kept as nat) + digits_value(
                bytes@,
                frac_start as int,
                frac_start + kept,
            );
            res = push_digit(res, bytes[idx], Ghost(before));
            proof {
                let d = bytes@[idx as int] - 0x30;
                let p = pow10(kept as nat);
                let v = digits_value(bytes@, frac_start as int, frac_start + kept);
                assert(pow10((kept + 1) as nat) == 10 * p);
                assert((int_value * p + v) * 10 + d == int_value * (10 * p) + (v * 10 + d))
                    by (nonlinear_arith);
            }
            kept += 1;
        }
        idx += 1;
    }
    proof {
        lemma_digit_run_step(bytes@, frac_start as int, idx as int);
    }
    if idx < bytes.len() && (bytes[idx] == 0x2d || bytes[idx] == 0x2e) {
        return Err(ParseError::InvalidTerminator);
    }
    if int_end == int_start && idx == frac_start {
        return Err(ParseError::NoDigits);
    }
    let ghost mantissa = int_value * pow10(kept as nat) + digits_value(
        bytes@,
        frac_start as int,
        frac_start + kept,
    );
    Ok((scale_and_sign(res, target_scale - kept, negative, Ghost(mantissa)), idx))
}

} // verus!
