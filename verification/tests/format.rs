use libm::Libm;
use si_format::float_impl::{FloatKind, FormatFloat};
use si_format::{Config, Formattable, SiFormatted, FORCED_SHIFT};
use std::ops::Neg;

/// Takes a float apart as a caller of the library does: sign, class
/// and, for a finite number, the mantissa scaled to `significant_digits`
/// digits with its decimal exponent.
fn decompose(x: f64, significant_digits: usize) -> FormatFloat {
    let negative = x.is_sign_negative();
    let magnitude = Libm::<f64>::fabs(x);
    let kind = if magnitude.is_nan() {
        FloatKind::Nan
    } else if magnitude.is_infinite() {
        FloatKind::Infinite
    } else if magnitude == 0.0 {
        FloatKind::Finite { mantissa: 0, exponent: 0 }
    } else {
        let log10 = Libm::<f64>::floor(Libm::<f64>::log10(magnitude)) as i32;
        let float_shift = (significant_digits as i32 - 1) - log10;
        let scaled = magnitude * Libm::<f64>::pow(10.0, float_shift as f64);
        FloatKind::Finite { mantissa: Libm::<f64>::round(scaled) as u64, exponent: -float_shift }
    };
    FormatFloat { negative, kind }
}

fn t<T: Formattable + Neg<Output = T> + Copy>(
    num: T,
    shift: i8,
    significant_digits: usize,
    expected: &str,
) {
    assert_eq!(
        num.si_format().with_shift(shift).with_precision(significant_digits).to_string(),
        expected
    );
    assert_eq!(
        (-num).si_format().with_shift(shift).with_precision(significant_digits).to_string(),
        format!("-{}", expected)
    );
}

fn tf(num: f64, shift: i8, significant_digits: usize, expected: &str) {
    assert_eq!(
        SiFormatted::new(decompose(num, significant_digits))
            .with_shift(shift)
            .with_precision(significant_digits)
            .to_string(),
        expected
    );
    assert_eq!(
        SiFormatted::new(decompose(-num, significant_digits))
            .with_shift(shift)
            .with_precision(significant_digits)
            .to_string(),
        format!("-{}", expected)
    );
}

#[test]
fn test() {
    t(12345678, -1, 3, "1.23M");
    t(12345678, -2, 3, "123k");
    t(12345678, -3, 3, "12.3k");
    t(12345678, -4, 3, "1.23k");
    t(12345678, -5, 3, "123");
    t(12345678, -5, 12, "123.456_780_000");
    t(12345678, -5, 8, "123.456_78");
    t(12345678, -5, 9, "123.456_780");
    t(123456789, -6, 9, "123.456_789");
    t(121212121212121212121212121i128, 0, 12, "121.212_121_212Y");
    tf(121212121212121212121212121f64, 0, 12, "121.212_121_212Y");
    t(9999, 0, 3, "10.0k");
    t(99999, 0, 4, "100.0k");
    t(999999, 0, 5, "1.000_0M");
    tf(1.3e-4, 0, 3, "130µ");
    tf(1.3e-4, 0, 4, "130.0µ");
    tf(0.0, 0, 4, "0.000");
    tf(f64::INFINITY, 0, 4, "inf");
    tf(f64::INFINITY, -8, 4, "inf");
    tf(f64::NAN, 0, 4, "NaN");
    tf(f64::NAN, 2, 4, "NaN");
}

#[test]
fn default_configuration_shows_three_digits() {
    let config = Config::new();
    assert_eq!(config.shift, 0);
    assert_eq!(config.significant_digits, 3);
    assert_eq!(123456.si_format().to_string(), "123k");
    assert_eq!(SiFormatted::new(7u64).to_string(), "7.00");
}

#[test]
fn precision_counts_the_digits_before_the_point() {
    assert_eq!(1234567.si_format().with_precision(5).to_string(), "1.234_6M");
    assert_eq!(1234567.si_format().with_precision(3).to_string(), "1.23M");
    assert_eq!(1234567.si_format().with_precision(7).to_string(), "1.234_567M");
    assert_eq!(1234567.si_format().with_precision(9).to_string(), "1.234_567_00M");
}

#[test]
fn shift_displays_fixed_point_fractions() {
    assert_eq!(format!("{}s", 22u64.si_format().with_shift(-3).to_string()), "22.0ms");
    assert_eq!(format!("{}s", 20_000u128.si_format().with_shift(-9).to_string()), "20.0µs");
    assert_eq!(5u8.si_format().with_shift(3).to_string(), "5.00k");
}

#[test]
fn later_settings_replace_earlier_ones() {
    let wrapped = 1234u32.si_format().with_shift(3).with_precision(5).with_shift(-3).with_precision(4);
    assert_eq!(wrapped.to_string(), "1.234");
}

#[test]
fn forced_shift_is_not_replaced() {
    let forced = Config { shift: FORCED_SHIFT, significant_digits: 3 };
    let kept = SiFormatted::with_config(5u64, forced).with_shift(-3).with_precision(4);
    let same = SiFormatted::with_config(5u64, Config { shift: FORCED_SHIFT, significant_digits: 4 });
    assert_eq!(kept.to_string(), same.to_string());
    if isize::MAX as i128 == i64::MAX as i128 {
        assert_eq!(kept.to_string(), "50.00e9223372036854775806");
    }
    let free = Config { shift: 6, significant_digits: 3 };
    assert_eq!(SiFormatted::with_config(5u64, free).with_shift(-3).to_string(), "5.00m");
}

#[test]
fn every_integer_width_is_formattable() {
    assert_eq!(255u8.si_format().to_string(), "255");
    assert_eq!((-128i8).si_format().to_string(), "-128");
    assert_eq!(65535u16.si_format().with_precision(4).to_string(), "65.54k");
    assert_eq!((-32768i16).si_format().with_precision(5).to_string(), "-32.768k");
    assert_eq!(4294967295u32.si_format().with_precision(6).to_string(), "4.294_97G");
    assert_eq!((-2147483648i32).si_format().with_precision(7).to_string(), "-2.147_484G");
    assert_eq!(u64::MAX.si_format().with_precision(20).to_string(), "18.446_744_073_709_551_615E");
    assert_eq!(i64::MIN.si_format().with_precision(19).to_string(), "-9.223_372_036_854_775_808E");
    assert_eq!(u128::MAX.si_format().to_string(), "340e36");
    assert_eq!(i128::MIN.si_format().to_string(), "-170e36");
}

#[test]
fn backing_types_format_alike() {
    assert_eq!(SiFormatted::new(1234u32).to_string(), "1.23k");
    assert_eq!(SiFormatted::new(-1234i32).to_string(), "-1.23k");
    assert_eq!(SiFormatted::new(1234u64).to_string(), "1.23k");
    assert_eq!(SiFormatted::new(-1234i64).to_string(), "-1.23k");
    assert_eq!(SiFormatted::new(1234u128).to_string(), "1.23k");
    assert_eq!(SiFormatted::new(-1234i128).to_string(), "-1.23k");
}

#[test]
fn widest_integers_with_most_digits() {
    assert_eq!(
        u128::MAX.si_format().with_precision(32).to_string(),
        "340.282_366_920_938_463_463_374_607_431_77e36"
    );
    assert_eq!(
        i128::MIN.si_format().with_precision(32).to_string(),
        "-170.141_183_460_469_231_731_687_303_715_88e36"
    );
    assert_eq!(
        u64::MAX.si_format().with_precision(32).to_string(),
        "18.446_744_073_709_551_615_000_000_000_000E"
    );
    assert_eq!(
        u64::MAX.si_format().with_shift(-128).with_precision(32).to_string(),
        "184.467_440_737_095_516_150_000_000_000_00e-111"
    );
    assert_eq!(
        u128::MAX.si_format().with_shift(-128).with_precision(32).to_string(),
        "3.402_823_669_209_384_634_633_746_074_317_7e-90"
    );
    assert_eq!(
        u128::MAX.si_format().with_shift(127).with_precision(32).to_string(),
        "3.402_823_669_209_384_634_633_746_074_317_7e165"
    );
}

#[test]
fn zero_reads_as_zeros_whatever_the_shift() {
    assert_eq!(0u64.si_format().to_string(), "0.00");
    assert_eq!(0i64.si_format().with_shift(-3).with_precision(5).to_string(), "0.000_0");
    assert_eq!(0u128.si_format().with_shift(127).to_string(), "0.00");
    tf(0.0, -6, 3, "0.00");
}

#[test]
fn half_is_rounded_upward() {
    assert_eq!(1234u64.si_format().to_string(), "1.23k");
    assert_eq!(1235u64.si_format().to_string(), "1.24k");
    assert_eq!(1245u64.si_format().to_string(), "1.25k");
    assert_eq!(1249u64.si_format().to_string(), "1.25k");
    assert_eq!(12349999u64.si_format().with_precision(4).to_string(), "12.35M");
    assert_eq!(12344999u64.si_format().with_precision(4).to_string(), "12.34M");
}

#[test]
fn rounding_across_a_power_of_thousand_raises_the_prefix() {
    assert_eq!(9999u64.si_format().to_string(), "10.0k");
    assert_eq!(9995u64.si_format().to_string(), "10.0k");
    assert_eq!(9994u64.si_format().to_string(), "9.99k");
    assert_eq!(999_999u64.si_format().to_string(), "1.00M");
    assert_eq!(999_499u64.si_format().to_string(), "999k");
    assert_eq!(999_500u64.si_format().to_string(), "1.00M");
    assert_eq!(9995u64.si_format().with_shift(-1).to_string(), "1.00k");
    assert_eq!(99_950u64.si_format().with_shift(-2).to_string(), "1.00k");
    assert_eq!(99_999_999_999_999_999_999u128.si_format().with_precision(19).to_string(),
        "100.000_000_000_000_000_0E");
}

#[test]
fn every_bucket_has_its_prefix() {
    let expected = [
        (-30, "1.00q"), (-27, "1.00r"), (-24, "1.00y"), (-21, "1.00z"), (-18, "1.00a"),
        (-15, "1.00f"), (-12, "1.00p"), (-9, "1.00n"), (-6, "1.00µ"), (-3, "1.00m"),
        (0, "1.00"), (3, "1.00k"), (6, "1.00M"), (9, "1.00G"), (12, "1.00T"), (15, "1.00P"),
        (18, "1.00E"), (21, "1.00Z"), (24, "1.00Y"), (27, "1.00R"), (30, "1.00Q"),
    ];
    for (shift, text) in expected {
        assert_eq!(1u64.si_format().with_shift(shift).to_string(), text);
        assert_eq!(10u64.si_format().with_shift(shift).to_string(), text.replace("1.00", "10.0"));
        assert_eq!(100u64.si_format().with_shift(shift).to_string(), text.replace("1.00", "100"));
    }
}

#[test]
fn beyond_the_prefixes_the_decimal_exponent_is_written() {
    assert_eq!(1u64.si_format().with_shift(33).to_string(), "1.00e33");
    assert_eq!(1u64.si_format().with_shift(-33).to_string(), "1.00e-33");
    assert_eq!(1u64.si_format().with_shift(-31).to_string(), "100e-33");
    assert_eq!(1u64.si_format().with_shift(32).to_string(), "100Q");
    assert_eq!(1u64.si_format().with_shift(127).to_string(), "10.0e126");
    assert_eq!(1u64.si_format().with_shift(-128).to_string(), "10.0e-129");
}

#[test]
fn floats_are_formatted_from_their_parts() {
    let nan = FormatFloat { negative: false, kind: FloatKind::Nan };
    let minus_infinity = FormatFloat { negative: true, kind: FloatKind::Infinite };
    let minus_zero = FormatFloat { negative: true, kind: FloatKind::Finite { mantissa: 0, exponent: 0 } };
    let micro = FormatFloat { negative: false, kind: FloatKind::Finite { mantissa: 130, exponent: -6 } };
    assert_eq!(SiFormatted::new(nan).to_string(), "NaN");
    assert_eq!(SiFormatted::new(minus_infinity).with_shift(5).to_string(), "-inf");
    assert_eq!(SiFormatted::new(minus_zero).with_precision(4).to_string(), "-0.000");
    assert_eq!(SiFormatted::new(micro).to_string(), "130µ");
    assert_eq!(SiFormatted::new(micro).with_shift(6).to_string(), "130");
    assert_eq!(SiFormatted::new(micro).with_shift(-1).with_precision(5).to_string(), "13.000µ");
}

#[test]
fn a_mantissa_rounded_to_the_next_power_of_ten_moves_up() {
    let rounded_up = FormatFloat { negative: false, kind: FloatKind::Finite { mantissa: 1000, exponent: 0 } };
    let plain = FormatFloat { negative: false, kind: FloatKind::Finite { mantissa: 100, exponent: 1 } };
    assert_eq!(SiFormatted::new(rounded_up).to_string(), "1.00k");
    assert_eq!(SiFormatted::new(plain).to_string(), "1.00k");
    tf(999.9999, 0, 3, "1.00k");
    tf(999_999.9, 0, 4, "1.000M");
    tf(0.000_999_99, 0, 3, "1.00m");
    let longest = FormatFloat {
        negative: false,
        kind: FloatKind::Finite { mantissa: 1_000_000_000_000_000, exponent: -15 },
    };
    assert_eq!(SiFormatted::new(longest).with_precision(15).to_string(), "1.000_000_000_000_00");
}

#[test]
fn floats_of_every_size() {
    tf(1.0, 0, 3, "1.00");
    tf(1.5, 0, 3, "1.50");
    tf(1234.5678, 0, 6, "1.234_57k");
    tf(6.02214076e23, 0, 9, "602.214_076Z");
    tf(1.602176634e-19, 0, 10, "160.217_663_4z");
    tf(1.0e300, 0, 3, "1.00e300");
    tf(1.0e-300, 0, 3, "1.00e-300");
    tf(123.456, 3, 4, "123.5k");
}

#[test]
fn to_string_and_format_agree() {
    let wrapped = (-1234567i64).si_format().with_precision(6).with_shift(-9);
    let buffer = wrapped.format();
    assert_eq!(buffer.as_bytes(), "-1.234_57m".as_bytes());
    assert_eq!(wrapped.to_string().as_bytes(), buffer.as_bytes());
    let micro = 15u8.si_format().with_shift(-6);
    assert_eq!(micro.format().as_bytes(), &[b'1', b'5', b'.', b'0', 0xC2, 0xB5]);
    assert_eq!(micro.to_string(), "15.0µ");
    assert_eq!(micro.to_string().chars().count(), 5);
}
