//! What a formatted number reads like: the model that the formatting
//! functions are held to.

use vstd::prelude::*;
use crate::decimal::{decimal_digits, DIGIT_NINE, DIGIT_ZERO};
use crate::rounding::{digit_window, rounded_digit_count};

verus! {

/// ASCII `.`, which ends the integer digits.
pub const POINT: u8 = 0x2E;

/// ASCII `_`, which parts the groups of fractional digits.
pub const SEPARATOR: u8 = 0x5F;

/// ASCII `-`.
pub const MINUS: u8 = 0x2D;

/// ASCII `e`, which opens an exponent where no prefix exists.
pub const EXPONENT_MARK: u8 = 0x65;

/// The prefixes from quecto (`10^-30`) to quetta (`10^30`), as the
/// bytes of `qryzafpnum kMGTPEZYRQ`. The entry for `10^-6` is never
/// written, the micro sign is; nor is the one in the middle, for `10^0`.
pub const PREFIXES: [u8; 21] = [
    0x71, 0x72, 0x79, 0x7A, 0x61, 0x66, 0x70, 0x6E, 0x75, 0x6D, 0x20,
    0x6B, 0x4D, 0x47, 0x54, 0x50, 0x45, 0x5A, 0x59, 0x52, 0x51,
];

/// The micro sign `µ` in UTF-8.
pub open spec fn micro_sign() -> Seq<u8> {
    seq![0xC2u8, 0xB5u8]
}

/// The power-of-1000 bucket of a number whose leading digit stands for
/// `10^log10`: the floor of `log10 / 3`.
pub open spec fn bucket(log10: int) -> int {
    log10 / 3
}

/// How many digits stand before the decimal point: one, two or three.
pub open spec fn integer_digits(log10: int) -> nat {
    (log10 % 3 + 1) as nat
}

/// The fractional digits in groups of three, parted by `_`.
pub open spec fn grouped(fraction: Seq<u8>) -> Seq<u8>
    decreases fraction.len(),
{
    if fraction.len() <= 3 {
        fraction
    } else {
        fraction.take(3) + seq![SEPARATOR] + grouped(fraction.skip(3))
    }
}

/// The digits of `text` in their order, everything else left out.
pub open spec fn shown_digits(text: Seq<u8>) -> Seq<u8> {
    text.filter(|b: u8| DIGIT_ZERO <= b <= DIGIT_NINE)
}

/// The digit window with its decimal point after `before` digits. Where
/// no digit is left for the fraction, the point is left out.
pub open spec fn placed(window: Seq<u8>, before: nat) -> Seq<u8> {
    if before < window.len() {
        window.take(before as int) + seq![POINT] + grouped(window.skip(before as int))
    } else {
        window
    }
}

/// An integer in decimal, with `-` before a negative one.
pub open spec fn signed_decimal(value: int) -> Seq<u8> {
    if value < 0 {
        seq![MINUS] + decimal_digits((-value) as nat)
    } else {
        decimal_digits(value as nat)
    }
}

/// What follows the digits for the bucket `log1000`: nothing for zero,
/// the micro sign for `-2`, the letter of the table from `-10` to `10`,
/// else `e` and the decimal exponent, which is three times the bucket.
pub open spec fn prefix_bytes(log1000: int) -> Seq<u8> {
    if log1000 == 0 {
        Seq::empty()
    } else if log1000 == -2 {
        micro_sign()
    } else if -10 <= log1000 <= 10 {
        seq![PREFIXES@[log1000 + 10]]
    } else {
        seq![EXPONENT_MARK] + signed_decimal(3 * log1000)
    }
}

/// The decimal exponent of the leading digit of `x * 10^shift` once `x`
/// is rounded to `significant_digits` digits. Zero has exponent zero.
pub open spec fn magnitude_log10(x: nat, shift: int, significant_digits: nat) -> int {
    if x == 0 {
        0
    } else {
        rounded_digit_count(x, significant_digits) - 1 + shift
    }
}

/// How `x * 10^shift` reads with `significant_digits` digits.
pub open spec fn magnitude_text(x: nat, shift: int, significant_digits: nat) -> Seq<u8> {
    let log10 = magnitude_log10(x, shift, significant_digits);
    placed(digit_window(x, significant_digits), integer_digits(log10)) + prefix_bytes(
        bucket(log10),
    )
}

/// How long the grouped fraction is: one separator after every third
/// digit that another digit follows.
pub proof fn lemma_grouped_len(fraction: Seq<u8>)
    ensures
        grouped(fraction).len() == if fraction.len() == 0 {
            0
        } else {
            fraction.len() + (fraction.len() - 1) / 3
        },
    decreases fraction.len(),
{
    if fraction.len() > 3 {
        lemma_grouped_len(fraction.skip(3));
    }
}

/// Grouping digit by digit: a separator goes before a further digit
/// whenever the digits so far fill whole groups.
pub proof fn lemma_grouped_push(fraction: Seq<u8>, digit: u8)
    ensures
        grouped(fraction.push(digit)) == if fraction.len() > 0 && fraction.len() % 3 == 0 {
            grouped(fraction).push(SEPARATOR).push(digit)
        } else {
            grouped(fraction).push(digit)
        },
    decreases fraction.len(),
{
    let longer = fraction.push(digit);
    if fraction.len() == 3 {
        assert(longer.take(3) =~= fraction);
        assert(longer.skip(3) =~= seq![digit]);
        assert(grouped(longer.skip(3)) == longer.skip(3));
        assert(grouped(longer) =~= fraction.push(SEPARATOR).push(digit));
    } else if fraction.len() > 3 {
        lemma_grouped_push(fraction.skip(3), digit);
        assert(longer.take(3) =~= fraction.take(3));
        assert(longer.skip(3) =~= fraction.skip(3).push(digit));
        let head = fraction.take(3) + seq![SEPARATOR];
        let tail = grouped(fraction.skip(3));
        assert(grouped(fraction) == head + tail);
        assert(head + tail.push(digit) =~= (head + tail).push(digit));
        assert(head + tail.push(SEPARATOR).push(digit) =~= (head + tail).push(SEPARATOR).push(
            digit,
        ));
    }
}

/// How long the placed window is.
pub proof fn lemma_placed_len(window: Seq<u8>, before: nat)
    ensures
        placed(window, before).len() == if before < window.len() {
            window.len() + 1 + (window.len() - before - 1) / 3
        } else {
            window.len() as int
        },
{
    if before < window.len() {
        lemma_grouped_len(window.skip(before as int));
    }
}

/// Placing digit by digit: the point goes before the digit that
/// follows the integer digits, a separator before every third
/// fractional digit after the first.
pub proof fn lemma_placed_push(window: Seq<u8>, before: nat, digit: u8)
    ensures
        placed(window.push(digit), before) == if window.len() == before {
            window.push(POINT).push(digit)
        } else if window.len() > before && (window.len() - before) % 3 == 0 {
            placed(window, before).push(SEPARATOR).push(digit)
        } else {
            placed(window, before).push(digit)
        },
{
    let longer = window.push(digit);
    if window.len() == before {
        assert(longer.take(before as int) =~= window);
        assert(longer.skip(before as int) =~= seq![digit]);
        assert(placed(longer, before) =~= window.push(POINT).push(digit));
    } else if window.len() > before {
        let fraction = window.skip(before as int);
        lemma_grouped_push(fraction, digit);
        assert(longer.take(before as int) =~= window.take(before as int));
        assert(longer.skip(before as int) =~= fraction.push(digit));
        let head = window.take(before as int) + seq![POINT];
        let tail = grouped(fraction);
        assert(head + tail.push(digit) =~= (head + tail).push(digit));
        assert(head + tail.push(SEPARATOR).push(digit) =~= (head + tail).push(SEPARATOR).push(
            digit,
        ));
    }
}

} // verus!
