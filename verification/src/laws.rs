//! What holds of every formatted number.
//!
//! - The digits: [`lemma_window_is_close`] and
//!   [`lemma_window_value_bounds`]. Exactly as many digits as were asked
//!   for are displayed, the first of them not zero unless the number is,
//!   and they are within half a unit of the last digit of the number.
//! - The layout: [`lemma_text_layout`] and [`lemma_groups_of_three`]. One
//!   to three digits stand before the point, groups of three behind it.
//! - Rounding up to a power of ten: [`lemma_carry_condition`] and
//!   [`lemma_carry_raises_magnitude`].
//! - The product alone counts: [`lemma_text_depends_on_product`].
//! - The sign: [`lemma_sign_mirrors`] and [`lemma_float_sign_mirrors`].
//! - The buffer: [`lemma_text_fits_buffer`].
//! - The encoding: [`lemma_integer_text_is_utf8`] and
//!   [`lemma_float_text_is_utf8`].

use vstd::prelude::*;
use vstd::arithmetic::div_mod::lemma_div_denominator;
use vstd::utf8::{
    encode_utf8_valid_utf8, is_leading_byte_width_1, partial_valid_utf8,
    partial_valid_utf8_extend_ascii_block, valid_utf8, valid_utf8_concat,
};
use crate::decimal::{
    digit_count, digits_value, fixed_digits, is_digits, lemma_digit_count_bounds,
    lemma_digits_value_fixed, lemma_fixed_digits_are_digits, lemma_fixed_digits_pad,
    lemma_pow10_adds, lemma_pow10_monotonic, lemma_pow10_positive, lemma_u128_below_pow10,
    pow10, zeros, DIGIT_NINE, DIGIT_ONE, DIGIT_ZERO,
};
use crate::float_impl::{float_text, infinity_text, nan_text, FloatKind, FormatFloat};
use crate::format_impl::{integer_text, lemma_micro_sign_bytes, MAX_INTEGER_DIGITS};
use crate::rounding::{
    carries_out, digit_window, dropped_digits, lemma_kept_bounds, lemma_next_digit_decides,
    round_half_up, rounded_digit_count, window_value,
};
use crate::text::{
    bucket, grouped, integer_digits, lemma_grouped_len, lemma_placed_len, lemma_placed_push,
    magnitude_log10, magnitude_text, placed, prefix_bytes, shown_digits, signed_decimal, MINUS,
    POINT, SEPARATOR,
};
use crate::write_buffer::BUFFER_SIZE;
use crate::Config;

verus! {

/// A number below `10^n` has at most `n` digits.
pub proof fn lemma_digit_count_at_most(x: nat, n: nat)
    requires
        n >= 1,
        x < pow10(n),
    ensures
        digit_count(x) <= n,
{
    lemma_digit_count_bounds(x);
    if digit_count(x) > n {
        lemma_pow10_monotonic(n, (digit_count(x) - 1) as nat);
    }
}

/// The buffer is large enough: whatever the number, the shift, the
/// exponent and the count of digits, the text leaves room for a sign
/// before it.
pub proof fn lemma_text_fits_buffer(x: u128, shift: isize, exponent: i32, significant_digits: usize)
    requires
        3 <= significant_digits <= MAX_INTEGER_DIGITS,
    ensures
        1 + magnitude_text(x as nat, shift + exponent, significant_digits as nat).len()
            <= BUFFER_SIZE,
{
    let sig = significant_digits as nat;
    let log10 = magnitude_log10(x as nat, shift + exponent, sig);
    let window = digit_window(x as nat, sig);
    lemma_fixed_digits_are_digits(window_value(x as nat, sig), sig);
    lemma_placed_len(window, integer_digits(log10));
    assert(placed(window, integer_digits(log10)).len() <= 43);
    lemma_u128_below_pow10();
    lemma_digit_count_at_most(x as nat, 39);
    assert(rounded_digit_count(x as nat, sig) <= 40);
    let b = bucket(log10);
    assert(-0x8000_0000_0000_0000 <= shift <= 0x7fff_ffff_ffff_ffff);
    assert(-9_223_372_039_002_259_456 <= log10 <= 9_223_372_039_002_259_494);
    if b < -10 || b > 10 {
        let magnitude = if b < 0 {
            (-(3 * b)) as nat
        } else {
            (3 * b) as nat
        };
        assert(pow10(19) == 10_000_000_000_000_000_000) by {
            reveal_with_fuel(pow10, 20);
        }
        lemma_digit_count_at_most(magnitude, 19);
        lemma_fixed_digits_are_digits(magnitude, digit_count(magnitude));
        assert(signed_decimal(3 * b).len() <= 20);
    }
    assert(prefix_bytes(b).len() <= 21);
}

/// Rounding to the nearest multiple of `10^k` moves a number by at
/// most half of `10^k`.
pub proof fn lemma_round_half_up_is_nearest(x: nat, k: nat)
    ensures
        2 * (round_half_up(x, k) * pow10(k) - x) <= pow10(k),
        2 * (x - round_half_up(x, k) * pow10(k)) <= pow10(k),
{
    let p = pow10(k);
    lemma_pow10_positive(k);
    let half = p / 2;
    let r = round_half_up(x, k);
    assert(r * p <= x + half < (r + 1) * p) by (nonlinear_arith)
        requires
            p > 0,
            r == (x + half) / p,
    ;
    assert((r + 1) * p == r * p + p) by (nonlinear_arith);
    if k > 0 {
        assert(p == 10 * pow10((k - 1) as nat));
    } else {
        assert(p == 1);
    }
}

/// Of a number that is not zero, the window's first digit is not zero:
/// the window spells a number of exactly `significant_digits` digits.
pub proof fn lemma_window_value_bounds(x: nat, significant_digits: nat)
    requires
        significant_digits >= 1,
    ensures
        window_value(x, significant_digits) < pow10(significant_digits),
        x > 0 ==> pow10((significant_digits - 1) as nat) <= window_value(x, significant_digits),
{
    let d = digit_count(x);
    lemma_digit_count_bounds(x);
    lemma_pow10_positive((significant_digits - 1) as nat);
    if d <= significant_digits {
        let m = (significant_digits - d) as nat;
        lemma_pow10_adds(d, m);
        lemma_pow10_adds((d - 1) as nat, m);
        lemma_pow10_positive(m);
        let hi = pow10(d);
        let lo = pow10((d - 1) as nat);
        let pm = pow10(m);
        assert(x * pm < hi * pm && (x > 0 ==> lo * pm <= x * pm)) by (nonlinear_arith)
            requires
                x < hi,
                x > 0 ==> lo <= x,
                pm > 0,
        ;
    } else if !carries_out(x, significant_digits) {
        let k = (d - significant_digits) as nat;
        lemma_kept_bounds(x, significant_digits);
        lemma_next_digit_decides(x, k);
    }
}

/// The window has exactly `significant_digits` digits, which are the
/// digits of the text before its prefix, and it spells the number to
/// within half a unit of its last digit: where digits were dropped, the
/// window times the power of ten of the last kept digit differs from
/// `x` by at most half that power; where none were, the window is `x`
/// with zeros behind it. The first digit of the window stands for
/// `10^log10`, with `log10` the shift plus the count of digits of the
/// rounded number less one, and three times the bucket plus the count
/// of integer digits less one: the digits before the point, times 1000
/// to the power of the bucket, come to within half a unit of the last
/// digit of `x * 10^shift`.
pub proof fn lemma_window_is_close(x: nat, shift: int, significant_digits: nat)
    requires
        significant_digits >= 1,
    ensures
        digit_window(x, significant_digits).len() == significant_digits,
        is_digits(digit_window(x, significant_digits)),
        digits_value(digit_window(x, significant_digits)) == window_value(x, significant_digits),
        shown_digits(
            placed(
                digit_window(x, significant_digits),
                integer_digits(magnitude_log10(x, shift, significant_digits)),
            ),
        ) == digit_window(x, significant_digits),
        3 * bucket(magnitude_log10(x, shift, significant_digits)) + integer_digits(
            magnitude_log10(x, shift, significant_digits),
        ) - 1 == magnitude_log10(x, shift, significant_digits),
        x > 0 ==> magnitude_log10(x, shift, significant_digits) == rounded_digit_count(
            x,
            significant_digits,
        ) - 1 + shift,
        ({
            let count = rounded_digit_count(x, significant_digits);
            let shown = window_value(x, significant_digits);
            if count >= significant_digits {
                let unit = pow10((count - significant_digits) as nat);
                2 * (shown * unit - x) <= unit && 2 * (x - shown * unit) <= unit
            } else {
                shown == x * pow10((significant_digits - count) as nat)
            }
        }),
{
    let window = digit_window(x, significant_digits);
    let shown = window_value(x, significant_digits);
    let d = digit_count(x);
    lemma_fixed_digits_are_digits(shown, significant_digits);
    lemma_window_value_bounds(x, significant_digits);
    lemma_digits_value_fixed(shown, significant_digits);
    assert(shown % pow10(significant_digits) == shown) by (nonlinear_arith)
        requires
            0 <= shown < pow10(significant_digits),
    ;
    lemma_shown_digits_of_placed(
        window,
        integer_digits(magnitude_log10(x, shift, significant_digits)),
    );
    if d == significant_digits {
        assert(x * pow10(0) == x) by (nonlinear_arith)
            requires
                pow10(0) == 1,
        ;
    } else if d > significant_digits {
        let k = (d - significant_digits) as nat;
        let p = pow10(k);
        lemma_round_half_up_is_nearest(x, k);
        if carries_out(x, significant_digits) {
            let unit = pow10(k + 1);
            lemma_pow10_adds((significant_digits - 1) as nat, k + 1);
            lemma_pow10_adds(significant_digits, k);
            assert((significant_digits - 1) as nat + (k + 1) == significant_digits + k);
            lemma_pow10_positive(k);
            assert(unit == 10 * p);
        }
    }
}

/// A digit at the end of a text is its last digit; any other byte
/// there is left out.
pub proof fn lemma_shown_digits_push(text: Seq<u8>, b: u8)
    ensures
        shown_digits(text.push(b)) == if DIGIT_ZERO <= b <= DIGIT_NINE {
            shown_digits(text).push(b)
        } else {
            shown_digits(text)
        },
{
    reveal(Seq::filter);
    assert(text.push(b).drop_last() =~= text);
}

/// Taking the point and the separators out of a placed window gives
/// the window back.
pub proof fn lemma_shown_digits_of_placed(window: Seq<u8>, before: nat)
    requires
        is_digits(window),
    ensures
        shown_digits(placed(window, before)) == window,
    decreases window.len(),
{
    if window.len() == 0 {
        reveal(Seq::filter);
        assert(placed(window, before) =~= Seq::<u8>::empty());
    } else {
        let front = window.drop_last();
        let last = window.last();
        assert(window =~= front.push(last));
        lemma_shown_digits_of_placed(front, before);
        lemma_placed_push(front, before, last);
        let inner = placed(front, before);
        lemma_shown_digits_push(inner, last);
        lemma_shown_digits_push(inner, SEPARATOR);
        lemma_shown_digits_push(inner.push(SEPARATOR), last);
        lemma_shown_digits_push(front, POINT);
        lemma_shown_digits_push(front.push(POINT), last);
        if front.len() == before {
            assert(inner == front);
        }
    }
}

/// The fractional digits stand in groups of three: every fourth byte
/// of the grouped fraction is a separator, the bytes between are the
/// digits in their order, and the last byte is a digit.
pub proof fn lemma_groups_of_three(fraction: Seq<u8>)
    ensures
        grouped(fraction).len() == if fraction.len() == 0 {
            0
        } else {
            fraction.len() + (fraction.len() - 1) / 3
        },
        forall|p: int|
            0 <= p < grouped(fraction).len() ==> #[trigger] grouped(fraction)[p] == if p % 4
                == 3 {
                SEPARATOR
            } else {
                fraction[p - p / 4]
            },
        fraction.len() > 0 ==> grouped(fraction).len() % 4 != 0,
    decreases fraction.len(),
{
    lemma_grouped_len(fraction);
    if fraction.len() > 3 {
        let rest = fraction.skip(3);
        lemma_groups_of_three(rest);
        lemma_grouped_len(rest);
        assert forall|p: int| 0 <= p < grouped(fraction).len() implies #[trigger] grouped(
            fraction,
        )[p] == if p % 4 == 3 {
            SEPARATOR
        } else {
            fraction[p - p / 4]
        } by {
            if p >= 4 {
                assert(grouped(fraction)[p] == grouped(rest)[p - 4]);
                assert(rest[(p - 4) - (p - 4) / 4] == fraction[p - p / 4]);
            }
        }
    }
}

/// The decimal point stands behind one, two or three digits, and never
/// among or before them; behind it the digits stand in groups of three
/// with a separator between two groups. With three significant digits
/// and three digits before the point there is no point at all.
pub proof fn lemma_text_layout(x: nat, shift: int, significant_digits: nat)
    requires
        significant_digits >= 3,
    ensures
        ({
            let text = magnitude_text(x, shift, significant_digits);
            let window = digit_window(x, significant_digits);
            let log10 = magnitude_log10(x, shift, significant_digits);
            let before = integer_digits(log10);
            let fraction = (significant_digits - before) as nat;
            &&& 1 <= before <= 3
            &&& is_digits(window)
            &&& forall|i: int| 0 <= i < before ==> #[trigger] text[i] == window[i]
            &&& before == significant_digits ==> text == window + prefix_bytes(bucket(log10))
            &&& before < significant_digits ==> {
                &&& text.len() == before + 1 + fraction + (fraction - 1) / 3 + prefix_bytes(
                    bucket(log10),
                ).len()
                &&& text[before as int] == POINT
                &&& forall|p: int|
                    0 <= p < fraction + (fraction - 1) / 3 ==> #[trigger] text[before + 1 + p]
                        == if p % 4 == 3 {
                        SEPARATOR
                    } else {
                        window[before + p - p / 4]
                    }
            }
        }),
{
    let window = digit_window(x, significant_digits);
    let log10 = magnitude_log10(x, shift, significant_digits);
    let before = integer_digits(log10);
    lemma_fixed_digits_are_digits(window_value(x, significant_digits), significant_digits);
    if before < significant_digits {
        lemma_groups_of_three(window.skip(before as int));
    }
}

/// A number that is all nines where it is kept, with a five or more
/// behind them, is rounded to the next power of ten: the window reads
/// one and zeros, the number counts one digit more, and the bucket is
/// one higher exactly where that digit is the first of a new group of
/// three.
pub proof fn lemma_carry_raises_magnitude(x: nat, shift: int, significant_digits: nat)
    requires
        significant_digits >= 1,
        carries_out(x, significant_digits),
    ensures
        2 * x >= 2 * pow10(digit_count(x)) - pow10((digit_count(x) - significant_digits) as nat),
        digit_window(x, significant_digits) == seq![DIGIT_ONE] + zeros(
            (significant_digits - 1) as nat,
        ),
        rounded_digit_count(x, significant_digits) == digit_count(x) + 1,
        magnitude_log10(x, shift, significant_digits) == digit_count(x) + shift,
        bucket(magnitude_log10(x, shift, significant_digits)) == bucket(
            digit_count(x) - 1 + shift,
        ) + if integer_digits(digit_count(x) - 1 + shift) == 3 {
            1int
        } else {
            0int
        },
{
    let d = digit_count(x);
    let k = (d - significant_digits) as nat;
    let p = pow10(k);
    lemma_pow10_positive(k);
    lemma_pow10_positive(significant_digits);
    lemma_pow10_adds(significant_digits, k);
    lemma_round_half_up_is_nearest(x, k);
    assert(p == 10 * pow10((k - 1) as nat));
    lemma_fixed_digits_pad(1, 1, (significant_digits - 1) as nat);
    assert(1 * pow10((significant_digits - 1) as nat) == pow10((significant_digits - 1) as nat))
        by (nonlinear_arith);
    assert(fixed_digits(1, 1) =~= seq![DIGIT_ONE]) by {
        reveal_with_fuel(fixed_digits, 2);
    }
    assert(1 + (significant_digits - 1) as nat == significant_digits);
}

/// Rounding carries out exactly where the number is within half a
/// unit of the last kept digit below the next power of ten.
pub proof fn lemma_carry_condition(x: nat, significant_digits: nat)
    requires
        significant_digits >= 1,
    ensures
        carries_out(x, significant_digits) <==> digit_count(x) > significant_digits && 2 * x
            >= 2 * pow10(digit_count(x)) - pow10((digit_count(x) - significant_digits) as nat),
{
    let d = digit_count(x);
    if d > significant_digits {
        let k = (d - significant_digits) as nat;
        let p = pow10(k);
        let top = pow10(significant_digits);
        let r = round_half_up(x, k);
        lemma_pow10_positive(k);
        lemma_pow10_adds(significant_digits, k);
        lemma_digit_count_bounds(x);
        assert(p == 10 * pow10((k - 1) as nat));
        let half = p / 2;
        assert(r * p <= x + half < (r + 1) * p) by (nonlinear_arith)
            requires
                p > 0,
                r == (x + half) / p,
        ;
        assert(r <= top) by (nonlinear_arith)
            requires
                r * p <= x + half,
                x < top * p,
                half < p,
                p > 0,
        ;
        assert(r >= top <==> x + half >= top * p) by (nonlinear_arith)
            requires
                r * p <= x + half < (r + 1) * p,
                p > 0,
        ;
    }
}

/// The text depends on the product `x * 10^shift` alone: a factor of
/// ten may pass from the number to the shift. So a mantissa that has
/// been rounded up to the next power of ten, and has one digit more
/// than was asked for, reads as that power of ten does.
pub proof fn lemma_text_depends_on_product(x: nat, shift: int, significant_digits: nat)
    requires
        x > 0,
        significant_digits >= 1,
    ensures
        digit_window(10 * x, significant_digits) == digit_window(x, significant_digits),
        rounded_digit_count(10 * x, significant_digits) == rounded_digit_count(
            x,
            significant_digits,
        ) + 1,
        magnitude_text(10 * x, shift, significant_digits) == magnitude_text(
            x,
            shift + 1,
            significant_digits,
        ),
{
    let d = digit_count(x);
    assert(digit_count(10 * x) == d + 1);
    lemma_digit_count_bounds(x);
    if d + 1 <= significant_digits {
        let lower = pow10((significant_digits - d - 1) as nat);
        assert(pow10((significant_digits - d) as nat) == 10 * lower);
        assert((10 * x) * lower == x * (10 * lower)) by (nonlinear_arith);
    } else if d == significant_digits {
        assert(pow10(1) == 10) by {
            reveal_with_fuel(pow10, 2);
        }
        assert(x * pow10(0) == x) by (nonlinear_arith)
            requires
                pow10(0) == 1,
        ;
        assert(round_half_up(10 * x, 1) == x);
    } else {
        let k = (d - significant_digits) as nat;
        let p = pow10(k);
        lemma_pow10_positive(k);
        assert(p == 10 * pow10((k - 1) as nat));
        assert(pow10(k + 1) == 10 * p);
        let y = x + p / 2;
        assert(10 * x + pow10(k + 1) / 2 == 10 * y);
        lemma_div_denominator((10 * y) as int, 10, p as int);
        assert(round_half_up(10 * x, k + 1) == round_half_up(x, k));
        assert(dropped_digits(10 * x, significant_digits) == k + 1);
    }
}

/// A negative integer reads as its absolute value behind a `-`.
pub proof fn lemma_sign_mirrors(value: int, config: Config)
    requires
        value > 0,
    ensures
        integer_text(-value, config) == seq![MINUS] + integer_text(value, config),
{
}

/// A floating-point number with its sign bit set reads as the same
/// number without it, behind a `-`.
pub proof fn lemma_float_sign_mirrors(kind: FloatKind, config: Config)
    ensures
        float_text(FormatFloat { negative: true, kind }, config) == seq![MINUS] + float_text(
            FormatFloat { negative: false, kind },
            config,
        ),
{
}

/// Every byte of `bytes` is an ASCII character.
pub open spec fn is_ascii_bytes(bytes: Seq<u8>) -> bool {
    forall|i: int| 0 <= i < bytes.len() ==> #[trigger] bytes[i] < 0x80
}

/// ASCII is UTF-8.
pub proof fn lemma_ascii_is_utf8(bytes: Seq<u8>)
    requires
        is_ascii_bytes(bytes),
    ensures
        valid_utf8(bytes),
{
    assert forall|i: int| 0 <= i < bytes.len() implies #[trigger] is_leading_byte_width_1(
        bytes[i],
    ) by {
        let b = bytes[i];
        assert(b < 0x80 ==> b & 0x80 == 0) by (bit_vector);
    }
    assert(bytes.subrange(0, 0) =~= Seq::<u8>::empty());
    assert(valid_utf8(bytes.subrange(0, 0)));
    assert(partial_valid_utf8(bytes, 0));
    partial_valid_utf8_extend_ascii_block(bytes, 0, bytes.len() as int);
    assert(bytes.subrange(0, bytes.len() as int) =~= bytes);
}

/// A placed window of digits is ASCII.
pub proof fn lemma_placed_is_ascii(window: Seq<u8>, before: nat)
    requires
        is_digits(window),
    ensures
        is_ascii_bytes(placed(window, before)),
    decreases window.len(),
{
    if window.len() > 0 {
        let front = window.drop_last();
        assert(window =~= front.push(window.last()));
        lemma_placed_is_ascii(front, before);
        lemma_placed_push(front, before, window.last());
    }
}

/// What follows the digits is UTF-8.
pub proof fn lemma_prefix_is_utf8(log1000: int)
    ensures
        valid_utf8(prefix_bytes(log1000)),
{
    if log1000 == -2 {
        lemma_micro_sign_bytes();
        encode_utf8_valid_utf8("µ"@);
    } else if log1000 < -10 || log1000 > 10 {
        let value = 3 * log1000;
        let magnitude = if value < 0 {
            (-value) as nat
        } else {
            value as nat
        };
        lemma_fixed_digits_are_digits(magnitude, digit_count(magnitude));
        lemma_ascii_is_utf8(prefix_bytes(log1000));
    } else {
        lemma_ascii_is_utf8(prefix_bytes(log1000));
    }
}

/// The text of a magnitude is well-formed UTF-8.
pub proof fn lemma_magnitude_text_is_utf8(x: nat, shift: int, significant_digits: nat)
    ensures
        valid_utf8(magnitude_text(x, shift, significant_digits)),
{
    let log10 = magnitude_log10(x, shift, significant_digits);
    let window = digit_window(x, significant_digits);
    lemma_fixed_digits_are_digits(window_value(x, significant_digits), significant_digits);
    lemma_placed_is_ascii(window, integer_digits(log10));
    lemma_ascii_is_utf8(placed(window, integer_digits(log10)));
    lemma_prefix_is_utf8(bucket(log10));
    valid_utf8_concat(placed(window, integer_digits(log10)), prefix_bytes(bucket(log10)));
}

/// The text of an integer is well-formed UTF-8.
pub proof fn lemma_integer_text_is_utf8(value: int, config: Config)
    ensures
        valid_utf8(integer_text(value, config)),
{
    let magnitude = if value < 0 {
        (-value) as nat
    } else {
        value as nat
    };
    lemma_magnitude_text_is_utf8(magnitude, config.shift as int, config.significant_digits as nat);
    lemma_ascii_is_utf8(seq![MINUS]);
    valid_utf8_concat(
        seq![MINUS],
        magnitude_text(magnitude, config.shift as int, config.significant_digits as nat),
    );
}

/// The text of a floating-point number is well-formed UTF-8.
pub proof fn lemma_float_text_is_utf8(value: FormatFloat, config: Config)
    ensures
        valid_utf8(float_text(value, config)),
{
    let body = float_text(FormatFloat { negative: false, kind: value.kind }, config);
    match value.kind {
        FloatKind::Nan => {
            lemma_ascii_is_utf8(nan_text());
        },
        FloatKind::Infinite => {
            lemma_ascii_is_utf8(infinity_text());
        },
        FloatKind::Finite { mantissa, exponent } => {
            lemma_magnitude_text_is_utf8(
                mantissa as nat,
                config.shift + exponent,
                config.significant_digits as nat,
            );
        },
    }
    lemma_ascii_is_utf8(seq![MINUS]);
    valid_utf8_concat(seq![MINUS], body);
}

} // verus!
