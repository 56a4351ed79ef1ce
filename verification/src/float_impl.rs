//! Floating-point numbers, taken apart for formatting.
//!
//! The library does no floating-point arithmetic. A caller hands it the
//! sign and the class of its number and, for a finite one, a decimal
//! mantissa and exponent: the number scaled by a power of ten so that
//! the mantissa, an integer, holds the digits to display.

use vstd::prelude::*;
use vstd::string::{is_ascii_spec_bytes, StringSliceAdditionalSpecFns};
use crate::format_impl::{format_unsigned, FormatImpl};
use crate::laws::{lemma_float_text_is_utf8, lemma_text_fits_buffer};
use crate::text::{magnitude_text, MINUS};
use crate::write_buffer::WriteBuffer;
use crate::Config;

verus! {

/// The most significant digits that a floating-point number is
/// displayed with.
pub const MAX_FLOAT_DIGITS: usize = 15;

/// The class of a floating-point number and, for a finite one, its
/// absolute value as `mantissa * 10^exponent`.
#[derive(Clone, Copy, Debug)]
pub enum FloatKind {
    /// Not a number.
    Nan,
    /// Infinite.
    Infinite,
    /// Finite, with the absolute value `mantissa * 10^exponent`. Zero
    /// has the mantissa zero.
    Finite {
        /// The digits to display, as an integer.
        mantissa: u64,
        /// The power of ten that the mantissa is multiplied by.
        exponent: i32,
    },
}

/// A floating-point number in the form in which it is formatted.
#[derive(Clone, Copy, Debug)]
pub struct FormatFloat {
    /// Whether the sign bit is set. Zero and NaN have a sign too.
    pub negative: bool,
    /// The class and the absolute value.
    pub kind: FloatKind,
}

/// The bytes of `NaN`.
pub open spec fn nan_text() -> Seq<u8> {
    seq![0x4Eu8, 0x61u8, 0x4Eu8]
}

/// The bytes of `inf`.
pub open spec fn infinity_text() -> Seq<u8> {
    seq![0x69u8, 0x6Eu8, 0x66u8]
}

/// How a floating-point number reads under `config`: `-` where the
/// sign bit is set, then `NaN`, `inf`, or the text of the mantissa with
/// its exponent added to the shift.
pub open spec fn float_text(value: FormatFloat, config: Config) -> Seq<u8> {
    let body = match value.kind {
        FloatKind::Nan => nan_text(),
        FloatKind::Infinite => infinity_text(),
        FloatKind::Finite { mantissa, exponent } => magnitude_text(
            mantissa as nat,
            config.shift + exponent,
            config.significant_digits as nat,
        ),
    };
    if value.negative {
        seq![MINUS] + body
    } else {
        body
    }
}

/// The strings `"NaN"` and `"inf"`, byte by byte.
pub proof fn lemma_special_bytes()
    ensures
        "NaN".spec_bytes() == nan_text(),
        "inf".spec_bytes() == infinity_text(),
{
    reveal_strlit("NaN");
    reveal_strlit("inf");
    is_ascii_spec_bytes("NaN");
    is_ascii_spec_bytes("inf");
    assert("NaN".spec_bytes() =~= nan_text());
    assert("inf".spec_bytes() =~= infinity_text());
}

impl FormatImpl for FormatFloat {
    open spec fn max_digits() -> nat {
        MAX_FLOAT_DIGITS as nat
    }

    fn digit_limit() -> (limit: usize) {
        MAX_FLOAT_DIGITS
    }

    open spec fn text(self, config: Config) -> Seq<u8> {
        float_text(self, config)
    }

    proof fn lemma_text_is_utf8(self, config: Config) {
        lemma_float_text_is_utf8(self, config);
    }

    fn format_impl(self, config: &Config, out: &mut WriteBuffer) -> (len: usize) {
        if self.negative {
            out.push_byte(MINUS);
        }
        proof {
            lemma_special_bytes();
        }
        match self.kind {
            FloatKind::Nan => {
                out.write_str("NaN");
            },
            FloatKind::Infinite => {
                out.write_str("inf");
            },
            FloatKind::Finite { mantissa, exponent } => {
                proof {
                    lemma_text_fits_buffer(
                        mantissa as u128,
                        config.shift,
                        exponent,
                        config.significant_digits,
                    );
                }
                format_unsigned(mantissa as u128, exponent, config, out);
            },
        }
        out.len()
    }
}

} // verus!
