//! Rounding a number to a fixed count of significant digits.

use vstd::prelude::*;
use vstd::arithmetic::div_mod::{lemma_div_denominator, lemma_hoist_over_denominator};
use crate::decimal::{
    decimal_digits, digit_byte, digit_count, digits_value, fixed_digits, lemma_digit_count_bounds,
    lemma_digits_value_fixed, lemma_div_pow10_bounds, lemma_fixed_digits_index,
    lemma_fixed_digits_pad, lemma_fixed_digits_take, lemma_pow10_adds, lemma_pow10_positive,
    pow10, zeros,
};

verus! {

/// How many of the low digits of `x` find no place among
/// `significant_digits` digits.
pub open spec fn dropped_digits(x: nat, significant_digits: nat) -> nat {
    if digit_count(x) > significant_digits {
        (digit_count(x) - significant_digits) as nat
    } else {
        0
    }
}

/// `x / 10^k` rounded to the nearest integer, a half upward.
pub open spec fn round_half_up(x: nat, k: nat) -> nat {
    (x + pow10(k) / 2) / pow10(k)
}

/// Whether rounding `x` turns a row of nines into the next power of
/// ten, so that the rounded number has one digit more than `x`.
pub open spec fn carries_out(x: nat, significant_digits: nat) -> bool {
    digit_count(x) > significant_digits && round_half_up(
        x,
        dropped_digits(x, significant_digits),
    ) == pow10(significant_digits)
}

/// How many digits `x` has once it is rounded.
pub open spec fn rounded_digit_count(x: nat, significant_digits: nat) -> nat {
    if carries_out(x, significant_digits) {
        digit_count(x) + 1
    } else {
        digit_count(x)
    }
}

/// The number that the digit window spells: `x` rounded to
/// `significant_digits` digits, without the zeros that follow them, or
/// with zeros added where `x` has fewer digits.
pub open spec fn window_value(x: nat, significant_digits: nat) -> nat {
    let d = digit_count(x);
    if d <= significant_digits {
        x * pow10((significant_digits - d) as nat)
    } else if carries_out(x, significant_digits) {
        pow10((significant_digits - 1) as nat)
    } else {
        round_half_up(x, (d - significant_digits) as nat)
    }
}

/// The digit window: exactly `significant_digits` digits.
pub open spec fn digit_window(x: nat, significant_digits: nat) -> Seq<u8> {
    fixed_digits(window_value(x, significant_digits), significant_digits)
}

/// The digit behind the kept ones decides the rounding: from five on,
/// the kept digits are counted one up.
pub proof fn lemma_next_digit_decides(x: nat, k: nat)
    requires
        k >= 1,
    ensures
        round_half_up(x, k) == if (x / pow10((k - 1) as nat)) % 10 >= 5 {
            x / pow10(k) + 1
        } else {
            x / pow10(k)
        },
{
    let p = pow10((k - 1) as nat);
    lemma_pow10_positive((k - 1) as nat);
    assert(pow10(k) == 10 * p);
    assert(pow10(k) / 2 == 5 * p);
    let y = x / p;
    lemma_div_pow10_bounds(x, (k - 1) as nat);
    lemma_hoist_over_denominator(x as int, 5, p);
    assert((x + 5 * p) / p == y + 5);
    lemma_div_denominator((x + 5 * p) as int, p as int, 10);
    lemma_div_denominator(x as int, p as int, 10);
    assert(p * 10 == 10 * p) by (nonlinear_arith);
}

/// Where `x` has more digits than are kept, the kept digits spell a
/// number of exactly `significant_digits` digits.
pub proof fn lemma_kept_bounds(x: nat, significant_digits: nat)
    requires
        significant_digits >= 1,
        digit_count(x) > significant_digits,
    ensures
        pow10((significant_digits - 1) as nat) <= x / pow10(
            dropped_digits(x, significant_digits),
        ) < pow10(significant_digits),
{
    let d = digit_count(x);
    let k = dropped_digits(x, significant_digits);
    let p = pow10(k);
    let q = x / p;
    lemma_digit_count_bounds(x);
    lemma_div_pow10_bounds(x, k);
    lemma_pow10_positive(k);
    lemma_pow10_adds(significant_digits, k);
    lemma_pow10_adds((significant_digits - 1) as nat, k);
    assert((significant_digits - 1) as nat + k == (d - 1) as nat);
    let hi = pow10(significant_digits);
    let lo = pow10((significant_digits - 1) as nat);
    assert(lo <= q < hi) by (nonlinear_arith)
        requires
            p > 0,
            q * p <= x < (q + 1) * p,
            lo * p <= x < hi * p,
    ;
}

/// Where `x` has no more digits than the window, the window is the
/// digits of `x` and zeros behind them.
pub proof fn lemma_window_padded(x: nat, significant_digits: nat)
    requires
        digit_count(x) <= significant_digits,
    ensures
        digit_window(x, significant_digits) == decimal_digits(x) + zeros(
            (significant_digits - digit_count(x)) as nat,
        ),
        rounded_digit_count(x, significant_digits) == digit_count(x),
{
    lemma_fixed_digits_pad(x, digit_count(x), (significant_digits - digit_count(x)) as nat);
}

/// Where `x` has more digits than the window: what its first digits
/// spell, which digit follows them, and what the window spells for
/// each way in which the rounding can go.
pub proof fn lemma_window_rounded(x: nat, significant_digits: nat)
    requires
        significant_digits >= 1,
        digit_count(x) > significant_digits,
    ensures
        ({
            let kept = x / pow10(dropped_digits(x, significant_digits));
            let next = (x / pow10((dropped_digits(x, significant_digits) - 1) as nat)) % 10;
            &&& decimal_digits(x).take(significant_digits as int) == fixed_digits(
                kept,
                significant_digits,
            )
            &&& digits_value(fixed_digits(kept, significant_digits)) == kept
            &&& decimal_digits(x)[significant_digits as int] == digit_byte(next)
            &&& pow10((significant_digits - 1) as nat) <= kept < pow10(significant_digits)
            &&& next < 5 ==> !carries_out(x, significant_digits) && window_value(
                x,
                significant_digits,
            ) == kept
            &&& next >= 5 && kept + 1 < pow10(significant_digits) ==> !carries_out(
                x,
                significant_digits,
            ) && window_value(x, significant_digits) == kept + 1
            &&& next >= 5 && kept + 1 == pow10(significant_digits) ==> carries_out(
                x,
                significant_digits,
            ) && window_value(x, significant_digits) == pow10((significant_digits - 1) as nat)
        }),
{
    let d = digit_count(x);
    let k = dropped_digits(x, significant_digits);
    let kept = x / pow10(k);
    lemma_div_pow10_bounds(x, k);
    lemma_kept_bounds(x, significant_digits);
    lemma_fixed_digits_take(x, d, k);
    lemma_digits_value_fixed(kept, significant_digits);
    assert(kept % pow10(significant_digits) == kept) by (nonlinear_arith)
        requires
            0 <= kept < pow10(significant_digits),
    ;
    lemma_fixed_digits_index(x, d, significant_digits as int);
    assert((d - 1 - significant_digits) as nat == (k - 1) as nat);
    lemma_next_digit_decides(x, k);
}

} // verus!
