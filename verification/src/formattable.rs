//! The numbers that can be formatted.

use vstd::prelude::*;
use crate::format_impl::FormatImpl;
use crate::{SiFormatted, MIN_SIGNIFICANT_DIGITS};

verus! {

/// A type whose values can be formatted with SI prefixes.
pub trait Formattable: Sized {
    /// The type that values are converted to for formatting. Which
    /// type that is may change.
    type Backing: FormatImpl;

    /// The value as its backing type.
    spec fn backing(self) -> Self::Backing;

    /// Wraps the value for formatting, with the default configuration.
    /// The result can be configured further before it is displayed.
    fn si_format(self) -> (wrapped: SiFormatted<Self::Backing>)
        ensures
            *wrapped.num() == self.backing(),
            wrapped.config().shift == 0,
            wrapped.config().significant_digits == MIN_SIGNIFICANT_DIGITS,
    ;
}

impl Formattable for u8 {
    type Backing = u64;

    open spec fn backing(self) -> u64 {
        self as u64
    }

    fn si_format(self) -> (wrapped: SiFormatted<u64>) {
        SiFormatted::new(self as u64)
    }
}

impl Formattable for u16 {
    type Backing = u64;

    open spec fn backing(self) -> u64 {
        self as u64
    }

    fn si_format(self) -> (wrapped: SiFormatted<u64>) {
        SiFormatted::new(self as u64)
    }
}

impl Formattable for u32 {
    type Backing = u64;

    open spec fn backing(self) -> u64 {
        self as u64
    }

    fn si_format(self) -> (wrapped: SiFormatted<u64>) {
        SiFormatted::new(self as u64)
    }
}

impl Formattable for u64 {
    type Backing = u64;

    open spec fn backing(self) -> u64 {
        self
    }

    fn si_format(self) -> (wrapped: SiFormatted<u64>) {
        SiFormatted::new(self)
    }
}

impl Formattable for u128 {
    type Backing = u128;

    open spec fn backing(self) -> u128 {
        self
    }

    fn si_format(self) -> (wrapped: SiFormatted<u128>) {
        SiFormatted::new(self)
    }
}

impl Formattable for i8 {
    type Backing = i64;

    open spec fn backing(self) -> i64 {
        self as i64
    }

    fn si_format(self) -> (wrapped: SiFormatted<i64>) {
        SiFormatted::new(self as i64)
    }
}

impl Formattable for i16 {
    type Backing = i64;

    open spec fn backing(self) -> i64 {
        self as i64
    }

    fn si_format(self) -> (wrapped: SiFormatted<i64>) {
        SiFormatted::new(self as i64)
    }
}

impl Formattable for i32 {
    type Backing = i64;

    open spec fn backing(self) -> i64 {
        self as i64
    }

    fn si_format(self) -> (wrapped: SiFormatted<i64>) {
        SiFormatted::new(self as i64)
    }
}

impl Formattable for i64 {
    type Backing = i64;

    open spec fn backing(self) -> i64 {
        self
    }

    fn si_format(self) -> (wrapped: SiFormatted<i64>) {
        SiFormatted::new(self)
    }
}

impl Formattable for i128 {
    type Backing = i128;

    open spec fn backing(self) -> i128 {
        self
    }

    fn si_format(self) -> (wrapped: SiFormatted<i128>) {
        SiFormatted::new(self)
    }
}

} // verus!
