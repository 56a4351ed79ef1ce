//! Formats numbers with SI metric prefixes, such as `123k`, `1.23M` or
//! `130µ`.
//!
//! A number is wrapped with [`Formattable::si_format`], configured with
//! [`SiFormatted::with_precision`] and [`SiFormatted::with_shift`], and
//! written with [`SiFormatted::format`] or [`SiFormatted::to_string`]:
//! `123456.si_format().to_string()` is `"123k"`, and
//! `22u64.si_format().with_shift(-3).to_string()` is `"22.0m"`.
//!
//! # What is displayed
//!
//! A number is displayed with a fixed count of significant digits, three
//! unless more are asked for. One, two or three of them stand before the
//! decimal point, so that the prefix behind the digits is a power of
//! 1000. The digits behind the point stand in groups of three, parted by
//! `_`. From `10^-30` to `10^30` the prefix is a letter, `µ` for
//! `10^-6`; beyond, it is `e` and the decimal exponent, a multiple of
//! three.
//!
//! An integer with more digits than are displayed is rounded to the
//! nearest number that can be, a half upward. The functions of
//! [`laws`] state what follows for every number.
//!
//! # Floating point
//!
//! The library computes with integers only, in a buffer of fixed size.
//! A floating-point number is formatted from its decimal parts, see
//! [`float_impl::FormatFloat`]; taking it apart is left to the caller.

use vstd::prelude::*;
use vstd::slice::slice_to_vec;
use vstd::utf8::{decode_utf8, decode_utf8_encode_utf8, encode_utf8, valid_utf8};
use crate::format_impl::FormatImpl;
use crate::write_buffer::WriteBuffer;

pub mod decimal;
pub mod float_impl;
pub mod format_impl;
pub mod formattable;
pub mod laws;
pub mod rounding;
pub mod text;
pub mod write_buffer;

pub use crate::formattable::Formattable;

verus! {

/// How a number is to be displayed.
#[derive(Clone, Copy, Debug)]
pub struct Config {
    /// The number is displayed as if it were multiplied by ten to this
    /// power. [`FORCED_SHIFT`] marks a shift that is not to be changed.
    pub shift: isize,
    /// How many digits are displayed, those before the decimal point
    /// included.
    pub significant_digits: usize,
}

/// The shift that [`SiFormatted::with_shift`] leaves alone.
pub const FORCED_SHIFT: isize = isize::MAX;

/// The least number of significant digits: with fewer, digits before
/// the decimal point would be lost.
pub const MIN_SIGNIFICANT_DIGITS: usize = 3;

impl Config {
    /// The default configuration: no shift, three significant digits.
    pub fn new() -> (config: Self)
        ensures
            config.shift == 0,
            config.significant_digits == MIN_SIGNIFICANT_DIGITS,
    {
        Config { shift: 0, significant_digits: 3 }
    }
}

/// A number wrapped for formatting. The `with_*` methods customize
/// how it is displayed.
pub struct SiFormatted<T> {
    config: Config,
    num: T,
}

impl<T> SiFormatted<T> {
    #[verifier::type_invariant]
    closed spec fn enough_digits(&self) -> bool {
        self.config.significant_digits >= MIN_SIGNIFICANT_DIGITS
    }

    /// The configuration that the number is displayed with.
    pub closed spec fn spec_config(&self) -> Config {
        self.config
    }

    /// The wrapped number.
    pub closed spec fn spec_num(&self) -> &T {
        &self.num
    }

    /// The configuration that the number is displayed with. It asks for
    /// three significant digits at least.
    #[verifier::when_used_as_spec(spec_config)]
    pub fn config(&self) -> (config: Config)
        ensures
            config == self.config(),
            config.significant_digits >= MIN_SIGNIFICANT_DIGITS,
    {
        proof {
            use_type_invariant(self);
        }
        self.config
    }

    /// The wrapped number.
    #[verifier::when_used_as_spec(spec_num)]
    pub fn num(&self) -> (num: &T)
        ensures
            num == self.num(),
    {
        &self.num
    }

    /// Wraps `num` with the default configuration.
    pub fn new(num: T) -> (wrapped: Self)
        ensures
            *wrapped.num() == num,
            wrapped.config().shift == 0,
            wrapped.config().significant_digits == MIN_SIGNIFICANT_DIGITS,
    {
        SiFormatted { config: Config::new(), num }
    }

    /// Wraps `num` with a configuration of the caller's choice, a
    /// forced shift included.
    pub fn with_config(num: T, config: Config) -> (wrapped: Self)
        requires
            config.significant_digits >= MIN_SIGNIFICANT_DIGITS,
        ensures
            *wrapped.num() == num,
            wrapped.config() == config,
    {
        SiFormatted { config, num }
    }

    /// Sets the number of significant digits to display. Unlike a
    /// precision in `std::fmt`, it counts the digits before the decimal
    /// point too. It must be at least 3.
    pub fn with_precision(self, significant_digits: usize) -> (wrapped: Self)
        requires
            significant_digits >= MIN_SIGNIFICANT_DIGITS,
        ensures
            wrapped.num() == self.num(),
            wrapped.config().shift == self.config().shift,
            wrapped.config().significant_digits == significant_digits,
    {
        let mut wrapped = self;
        wrapped.config.significant_digits = significant_digits;
        wrapped
    }

    /// Displays the number `x` as if it were `x * 10^shift`. Nothing is
    /// multiplied, so the product need not fit any type. A shift that
    /// is forced stays as it is.
    pub fn with_shift(self, shift: i8) -> (wrapped: Self)
        ensures
            wrapped.num() == self.num(),
            wrapped.config().significant_digits == self.config().significant_digits,
            wrapped.config().shift == if self.config().shift == FORCED_SHIFT {
                FORCED_SHIFT
            } else {
                shift as isize
            },
    {
        proof {
            use_type_invariant(&self);
        }
        let mut wrapped = self;
        if wrapped.config.shift != FORCED_SHIFT {
            wrapped.config.shift = shift as isize;
        }
        wrapped
    }
}

impl<T: FormatImpl> SiFormatted<T> {
    /// How the number reads.
    pub open spec fn text(&self) -> Seq<u8> {
        (*self.num()).text(self.config())
    }

    /// Whether the number can be displayed with as many digits as are
    /// asked for.
    pub fn is_formattable(&self) -> (ok: bool)
        ensures
            ok == (self.config().significant_digits <= T::max_digits()),
    {
        self.config.significant_digits <= T::digit_limit()
    }

    /// Formats the number into a fresh buffer.
    pub fn format(&self) -> (out: WriteBuffer)
        requires
            self.config().significant_digits <= T::max_digits(),
        ensures
            out@ == self.text(),
    {
        proof {
            use_type_invariant(self);
        }
        let mut out = WriteBuffer::new();
        let _ = self.num.format_impl(&self.config, &mut out);
        out
    }

    /// Formats the number into a string.
    pub fn to_string(&self) -> (s: String)
        requires
            self.config().significant_digits <= T::max_digits(),
        ensures
            encode_utf8(s@) == self.text(),
    {
        let out = self.format();
        let bytes = slice_to_vec(out.as_bytes());
        proof {
            self.num.lemma_text_is_utf8(self.config);
            decode_utf8_encode_utf8(bytes@);
        }
        String::from_utf8(bytes).unwrap()
    }
}

/// The error of `String::from_utf8`. Nothing is known of what it holds.
#[verifier::external_type_specification]
#[verifier::external_body]
pub struct ExFromUtf8Error(std::string::FromUtf8Error);

/// `String::from_utf8` of the standard library succeeds exactly on
/// well-formed UTF-8, and the string is then the one that the bytes
/// encode. This is taken from its documentation and not proved here.
pub assume_specification[ String::from_utf8 ](vec: Vec<u8>) -> (text: Result<
    String,
    std::string::FromUtf8Error,
>)
    ensures
        text is Ok <==> valid_utf8(vec@),
        text matches Ok(s) ==> s@ == decode_utf8(vec@),
;

} // verus!
