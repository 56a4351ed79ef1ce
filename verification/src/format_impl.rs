//! The formatting engine: from a magnitude to its bytes.

use vstd::prelude::*;
use vstd::slice::slice_subrange;
use vstd::string::StringSliceAdditionalSpecFns;
use vstd::utf8::{
    encode_utf8, has_width_1_encoding, has_width_2_encoding, last_continuation_byte,
    leading_byte_width_2, valid_utf8,
};
use crate::decimal::{
    digit_count, digits_value, is_digits, lemma_digits_value_update,
    lemma_fixed_digits_are_digits, lemma_fixed_digits_of_value, pow10, write_decimal, zeros,
    DIGITS_CAPACITY, DIGIT_FIVE, DIGIT_NINE, DIGIT_ONE, DIGIT_ZERO,
};
use crate::laws::{lemma_integer_text_is_utf8, lemma_text_fits_buffer};
use crate::rounding::{
    digit_window, dropped_digits, lemma_window_padded, lemma_window_rounded,
    rounded_digit_count,
};
use crate::text::{
    bucket, integer_digits, lemma_placed_len, lemma_placed_push, magnitude_log10,
    magnitude_text, micro_sign, placed, prefix_bytes, signed_decimal, EXPONENT_MARK, MINUS,
    POINT, PREFIXES, SEPARATOR,
};
use crate::write_buffer::{WriteBuffer, BUFFER_SIZE};
use crate::Config;

verus! {

/// `x / 3`, rounded toward negative infinity.
pub fn div_floor3(x: i128) -> (q: i128)
    ensures
        q == x / 3,
{
    let q: i128 = x / 3;
    if x % 3 < 0 {
        q - 1
    } else {
        q
    }
}

/// The remainder that [`div_floor3`] leaves: `0`, `1` or `2`.
pub fn mod_floor3(x: i128) -> (r: i128)
    ensures
        r == x % 3,
        0 <= r < 3,
{
    let r: i128 = x % 3;
    if r < 0 {
        r + 3
    } else {
        r
    }
}

/// The string `"µ"` is the two bytes of the micro sign.
pub proof fn lemma_micro_sign_bytes()
    ensures
        "µ".spec_bytes() == micro_sign(),
{
    reveal_strlit("µ");
    reveal_with_fuel(encode_utf8, 2);
    assert("µ"@.drop_first().len() == 0);
    assert('µ' as u32 == 0xB5);
    assert(!has_width_1_encoding(0xB5u32)) by (bit_vector);
    assert(has_width_2_encoding(0xB5u32)) by (bit_vector);
    assert(leading_byte_width_2(0xB5u32) == 0xC2u8) by (bit_vector);
    assert(last_continuation_byte(0xB5u32) == 0xB5u8) by (bit_vector);
    assert("µ".spec_bytes() =~= micro_sign());
}

/// Appends an integer in decimal, with `-` before a negative one.
pub fn write_signed(writer: &mut WriteBuffer, value: i128)
    requires
        old(writer)@.len() + signed_decimal(value as int).len() <= BUFFER_SIZE,
    ensures
        final(writer)@ == old(writer)@ + signed_decimal(value as int),
{
    let mut digits: [u8; DIGITS_CAPACITY] = [DIGIT_ZERO; DIGITS_CAPACITY];
    let magnitude: u128 = if value < 0 {
        writer.push_byte(MINUS);
        (-(value + 1)) as u128 + 1
    } else {
        value as u128
    };
    let count: usize = write_decimal(magnitude, &mut digits);
    assert(digits@.take(count as int) == digits@.subrange(0, count as int));
    writer.write_bytes(slice_subrange(digits.as_slice(), 0, count));
    assert(old(writer)@.push(MINUS) + digits@.take(count as int) == old(writer)@ + (seq![MINUS]
        + digits@.take(count as int)));
}

/// Appends what follows the digits for the bucket `log1000`: nothing
/// for zero, the micro sign for `-2`, a prefix letter from `-10` to
/// `10`, else `e` and the decimal exponent, three times the bucket.
pub fn write_prefix(writer: &mut WriteBuffer, log1000: i64)
    requires
        old(writer)@.len() + prefix_bytes(log1000 as int).len() <= BUFFER_SIZE,
    ensures
        final(writer)@ == old(writer)@ + prefix_bytes(log1000 as int),
{
    if log1000 < -10 || log1000 > 10 {
        writer.push_byte(EXPONENT_MARK);
        write_signed(writer, 3 * (log1000 as i128));
        assert(final(writer)@ == old(writer)@ + prefix_bytes(log1000 as int));
    } else if log1000 == -2 {
        proof {
            lemma_micro_sign_bytes();
        }
        writer.write_str("µ");
    } else if log1000 != 0 {
        writer.push_byte(PREFIXES[(log1000 + 10) as usize]);
        assert(final(writer)@ == old(writer)@ + prefix_bytes(log1000 as int));
    } else {
        assert(final(writer)@ == old(writer)@ + prefix_bytes(log1000 as int));
    }
}

/// Appends the first `significant_digits` digits of `digits` with the
/// decimal point and the group separators, then the prefix. `log10` is
/// the decimal exponent of the first digit.
pub fn post_format_uint(
    writer: &mut WriteBuffer,
    digits: &[u8; DIGITS_CAPACITY],
    log10: i128,
    significant_digits: usize,
)
    requires
        3 <= significant_digits <= DIGITS_CAPACITY,
        i64::MIN <= bucket(log10 as int) <= i64::MAX,
        old(writer)@.len() + placed(
            digits@.take(significant_digits as int),
            integer_digits(log10 as int),
        ).len() + prefix_bytes(bucket(log10 as int)).len() <= BUFFER_SIZE,
    ensures
        final(writer)@ == old(writer)@ + placed(
            digits@.take(significant_digits as int),
            integer_digits(log10 as int),
        ) + prefix_bytes(bucket(log10 as int)),
{
    let before_decimal: usize = mod_floor3(log10) as usize + 1;
    let ghost window = digits@.take(significant_digits as int);
    let mut i: usize = 0;
    proof {
        lemma_placed_len(window, before_decimal as nat);
        assert(window.take(0) =~= Seq::<u8>::empty());
        assert(writer@ =~= old(writer)@ + placed(window.take(0), before_decimal as nat));
    }
    while i < significant_digits
        invariant
            0 <= i <= significant_digits <= DIGITS_CAPACITY,
            1 <= before_decimal <= 3,
            window == digits@.take(significant_digits as int),
            writer@ == old(writer)@ + placed(window.take(i as int), before_decimal as nat),
            old(writer)@.len() + placed(window, before_decimal as nat).len() <= BUFFER_SIZE,
            placed(window, before_decimal as nat).len() == if before_decimal
                < significant_digits {
                significant_digits + 1 + (significant_digits - before_decimal - 1) / 3
            } else {
                significant_digits as int
            },
        decreases significant_digits - i,
    {
        proof {
            lemma_placed_len(window.take(i as int), before_decimal as nat);
            lemma_placed_push(window.take(i as int), before_decimal as nat, digits@[i as int]);
            assert(window.take(i + 1) =~= window.take(i as int).push(digits@[i as int]));
        }
        if i == before_decimal {
            writer.push_byte(POINT);
        } else if i > before_decimal && (i - before_decimal) % 3 == 0 {
            writer.push_byte(SEPARATOR);
        }
        writer.push_byte(digits[i]);
        i += 1;
    }
    assert(window.take(i as int) =~= window);
    write_prefix(writer, div_floor3(log10) as i64);
}

/// The most significant digits that an integer is displayed with.
pub const MAX_INTEGER_DIGITS: usize = 32;

/// Appends `x * 10^(exponent + config.shift)` with
/// `config.significant_digits` digits: the digits of `x`, rounded half
/// up where `x` has more of them and followed by zeros where it has
/// fewer, then the prefix of the bucket that the rounded number falls
/// in. Returns the length of what `writer` then holds.
pub fn format_unsigned(x: u128, exponent: i32, config: &Config, writer: &mut WriteBuffer) -> (len:
    usize)
    requires
        3 <= config.significant_digits <= MAX_INTEGER_DIGITS,
        old(writer)@.len() + magnitude_text(
            x as nat,
            config.shift + exponent,
            config.significant_digits as nat,
        ).len() <= BUFFER_SIZE,
    ensures
        final(writer)@ == old(writer)@ + magnitude_text(
            x as nat,
            config.shift + exponent,
            config.significant_digits as nat,
        ),
        len == final(writer)@.len(),
{
    let significant_digits: usize = config.significant_digits;
    let mut digits: [u8; DIGITS_CAPACITY] = [DIGIT_ZERO; DIGITS_CAPACITY];
    let mut count: usize = write_decimal(x, &mut digits);
    let ghost kept = (x as nat) / pow10(dropped_digits(x as nat, significant_digits as nat));
    proof {
        lemma_fixed_digits_are_digits(x as nat, count as nat);
        if count <= significant_digits {
            lemma_window_padded(x as nat, significant_digits as nat);
            assert(digits@.take(significant_digits as int) =~= digits@.take(count as int) + zeros(
                (significant_digits - count) as nat,
            ));
        } else {
            lemma_window_rounded(x as nat, significant_digits as nat);
            assert(digits@.take(significant_digits as int) =~= digits@.take(count as int).take(
                significant_digits as int,
            ));
            assert(digits@[significant_digits as int] == digits@.take(
                count as int,
            )[significant_digits as int]);
            lemma_fixed_digits_are_digits(kept, significant_digits as nat);
        }
    }
    if count > significant_digits && digits[significant_digits] >= DIGIT_FIVE {
        let mut increment: usize = significant_digits;
        assert(pow10(0) == 1);
        loop
            invariant_except_break
                0 <= increment <= significant_digits < DIGITS_CAPACITY,
                count == digit_count(x as nat) <= DIGITS_CAPACITY,
                is_digits(digits@.take(significant_digits as int)),
                digits_value(digits@.take(significant_digits as int)) + pow10(
                    (significant_digits - increment) as nat,
                ) == kept + 1,
                forall|j: int|
                    increment <= j < significant_digits ==> digits@[j] == DIGIT_ZERO,
            invariant
                3 <= significant_digits < DIGITS_CAPACITY,
                kept < pow10(significant_digits as nat),
            ensures
                count <= DIGITS_CAPACITY + 1,
                count == digit_count(x as nat) + if kept + 1 == pow10(significant_digits as nat) {
                    1int
                } else {
                    0int
                },
                is_digits(digits@.take(significant_digits as int)),
                digits_value(digits@.take(significant_digits as int)) == if kept + 1 == pow10(
                    significant_digits as nat,
                ) {
                    pow10((significant_digits - 1) as nat)
                } else {
                    kept + 1
                },
            decreases increment,
        {
            let ghost before = digits@.take(significant_digits as int);
            if increment == 0 {
                proof {
                    lemma_digits_value_update(before, 0, DIGIT_ONE);
                    assert(before[0] == DIGIT_ZERO);
                    let place = pow10((significant_digits - 1) as nat);
                    assert((DIGIT_ONE - before[0]) * place == place) by (nonlinear_arith)
                        requires
                            DIGIT_ONE - before[0] == 1,
                    ;
                }
                digits[0] = DIGIT_ONE;
                count += 1;
                assert(digits@.take(significant_digits as int) =~= before.update(0, DIGIT_ONE));
                break ;
            } else {
                increment -= 1;
                assert(before[increment as int] == digits@[increment as int]);
                assert(pow10((significant_digits - increment) as nat) == 10 * pow10(
                    (significant_digits - increment - 1) as nat,
                ));
                if digits[increment] == DIGIT_NINE {
                    proof {
                        lemma_digits_value_update(before, increment as int, DIGIT_ZERO);
                        let place = pow10((significant_digits - 1 - increment) as nat);
                        assert((DIGIT_ZERO - before[increment as int]) * place == -9 * place)
                            by (nonlinear_arith)
                            requires
                                DIGIT_ZERO - before[increment as int] == -9,
                        ;
                    }
                    digits[increment] = DIGIT_ZERO;
                    assert(digits@.take(significant_digits as int) =~= before.update(
                        increment as int,
                        DIGIT_ZERO,
                    ));
                } else {
                    let raised: u8 = digits[increment] + 1;
                    proof {
                        lemma_digits_value_update(before, increment as int, raised);
                        lemma_fixed_digits_of_value(before.update(increment as int, raised));
                        let place = pow10((significant_digits - 1 - increment) as nat);
                        assert((raised - before[increment as int]) * place == place)
                            by (nonlinear_arith)
                            requires
                                raised - before[increment as int] == 1,
                        ;
                    }
                    digits[increment] = raised;
                    assert(digits@.take(significant_digits as int) =~= before.update(
                        increment as int,
                        raised,
                    ));
                    break ;
                }
            }
        }
    }
    proof {
        lemma_fixed_digits_of_value(digits@.take(significant_digits as int));
        assert(digits@.take(significant_digits as int) == digit_window(
            x as nat,
            significant_digits as nat,
        ));
        assert(count == rounded_digit_count(x as nat, significant_digits as nat));
    }
    let log10: i128 = if x == 0 {
        0
    } else {
        count as i128 - 1 + config.shift as i128 + exponent as i128
    };
    assert(log10 == magnitude_log10(
        x as nat,
        config.shift + exponent,
        significant_digits as nat,
    ));
    post_format_uint(writer, &digits, log10, significant_digits);
    writer.len()
}

/// How a whole number, negative or not, reads under `config`: the
/// text of its absolute value, behind a `-` where it is negative.
pub open spec fn integer_text(value: int, config: Config) -> Seq<u8> {
    if value < 0 {
        seq![MINUS] + magnitude_text(
            (-value) as nat,
            config.shift as int,
            config.significant_digits as nat,
        )
    } else {
        magnitude_text(value as nat, config.shift as int, config.significant_digits as nat)
    }
}

/// Appends a signed integer: `-` where it is negative, then its
/// absolute value as [`format_unsigned`] writes it.
fn format_signed(x: i128, config: &Config, out: &mut WriteBuffer) -> (len: usize)
    requires
        3 <= config.significant_digits <= MAX_INTEGER_DIGITS,
        old(out)@.len() == 0,
    ensures
        final(out)@ == integer_text(x as int, *config),
        len == final(out)@.len(),
{
    if x < 0 {
        let magnitude: u128 = (-(x + 1)) as u128 + 1;
        proof {
            lemma_text_fits_buffer(magnitude, config.shift, 0, config.significant_digits);
        }
        out.push_byte(MINUS);
        format_unsigned(magnitude, 0, config, out)
    } else {
        proof {
            lemma_text_fits_buffer(x as u128, config.shift, 0, config.significant_digits);
        }
        format_unsigned(x as u128, 0, config, out)
    }
}

/// A number in the form in which it is formatted.
pub trait FormatImpl: Copy {
    /// The most significant digits that this kind of number is
    /// displayed with.
    spec fn max_digits() -> nat;

    /// [`Self::max_digits`] as a number to compute with.
    fn digit_limit() -> (limit: usize)
        ensures
            limit == Self::max_digits(),
    ;

    /// How the number reads under `config`.
    spec fn text(self, config: Config) -> Seq<u8>;

    /// Writes the number into the empty buffer `out` and returns how
    /// many bytes that took.
    fn format_impl(self, config: &Config, out: &mut WriteBuffer) -> (len: usize)
        requires
            3 <= config.significant_digits <= Self::max_digits(),
            old(out)@.len() == 0,
        ensures
            final(out)@ == self.text(*config),
            len == final(out)@.len(),
    ;

    /// The text is well-formed UTF-8.
    proof fn lemma_text_is_utf8(self, config: Config)
        ensures
            valid_utf8(self.text(config)),
    ;
}

impl FormatImpl for u32 {
    open spec fn max_digits() -> nat {
        MAX_INTEGER_DIGITS as nat
    }

    fn digit_limit() -> (limit: usize) {
        MAX_INTEGER_DIGITS
    }

    open spec fn text(self, config: Config) -> Seq<u8> {
        integer_text(self as int, config)
    }

    proof fn lemma_text_is_utf8(self, config: Config) {
        lemma_integer_text_is_utf8(self as int, config);
    }

    fn format_impl(self, config: &Config, out: &mut WriteBuffer) -> (len: usize) {
        proof {
            lemma_text_fits_buffer(self as u128, config.shift, 0, config.significant_digits);
        }
        format_unsigned(self as u128, 0, config, out)
    }
}

impl FormatImpl for i32 {
    open spec fn max_digits() -> nat {
        MAX_INTEGER_DIGITS as nat
    }

    fn digit_limit() -> (limit: usize) {
        MAX_INTEGER_DIGITS
    }

    open spec fn text(self, config: Config) -> Seq<u8> {
        integer_text(self as int, config)
    }

    proof fn lemma_text_is_utf8(self, config: Config) {
        lemma_integer_text_is_utf8(self as int, config);
    }

    fn format_impl(self, config: &Config, out: &mut WriteBuffer) -> (len: usize) {
        format_signed(self as i128, config, out)
    }
}

impl FormatImpl for u64 {
    open spec fn max_digits() -> nat {
        MAX_INTEGER_DIGITS as nat
    }

    fn digit_limit() -> (limit: usize) {
        MAX_INTEGER_DIGITS
    }

    open spec fn text(self, config: Config) -> Seq<u8> {
        integer_text(self as int, config)
    }

    proof fn lemma_text_is_utf8(self, config: Config) {
        lemma_integer_text_is_utf8(self as int, config);
    }

    fn format_impl(self, config: &Config, out: &mut WriteBuffer) -> (len: usize) {
        proof {
            lemma_text_fits_buffer(self as u128, config.shift, 0, config.significant_digits);
        }
        format_unsigned(self as u128, 0, config, out)
    }
}

impl FormatImpl for i64 {
    open spec fn max_digits() -> nat {
        MAX_INTEGER_DIGITS as nat
    }

    fn digit_limit() -> (limit: usize) {
        MAX_INTEGER_DIGITS
    }

    open spec fn text(self, config: Config) -> Seq<u8> {
        integer_text(self as int, config)
    }

    proof fn lemma_text_is_utf8(self, config: Config) {
        lemma_integer_text_is_utf8(self as int, config);
    }

    fn format_impl(self, config: &Config, out: &mut WriteBuffer) -> (len: usize) {
        format_signed(self as i128, config, out)
    }
}

impl FormatImpl for u128 {
    open spec fn max_digits() -> nat {
        MAX_INTEGER_DIGITS as nat
    }

    fn digit_limit() -> (limit: usize) {
        MAX_INTEGER_DIGITS
    }

    open spec fn text(self, config: Config) -> Seq<u8> {
        integer_text(self as int, config)
    }

    proof fn lemma_text_is_utf8(self, config: Config) {
        lemma_integer_text_is_utf8(self as int, config);
    }

    fn format_impl(self, config: &Config, out: &mut WriteBuffer) -> (len: usize) {
        proof {
            lemma_text_fits_buffer(self, config.shift, 0, config.significant_digits);
        }
        format_unsigned(self, 0, config, out)
    }
}

impl FormatImpl for i128 {
    open spec fn max_digits() -> nat {
        MAX_INTEGER_DIGITS as nat
    }

    fn digit_limit() -> (limit: usize) {
        MAX_INTEGER_DIGITS
    }

    open spec fn text(self, config: Config) -> Seq<u8> {
        integer_text(self as int, config)
    }

    proof fn lemma_text_is_utf8(self, config: Config) {
        lemma_integer_text_is_utf8(self as int, config);
    }

    fn format_impl(self, config: &Config, out: &mut WriteBuffer) -> (len: usize) {
        format_signed(self, config, out)
    }
}

} // verus!
