use si_format::decimal::{write_decimal, DIGITS_CAPACITY};
use si_format::float_impl::{FloatKind, FormatFloat, MAX_FLOAT_DIGITS};
use si_format::format_impl::{
    div_floor3, format_unsigned, mod_floor3, post_format_uint, write_prefix, write_signed,
    FormatImpl, MAX_INTEGER_DIGITS,
};
use si_format::write_buffer::{WriteBuffer, BUFFER_SIZE};
use si_format::Config;

fn decimal(x: u128) -> String {
    let mut digits = [b'#'; DIGITS_CAPACITY];
    let count = write_decimal(x, &mut digits);
    assert!(digits[count..].iter().all(|b| *b == b'#'));
    String::from_utf8(digits[..count].to_vec()).unwrap()
}

fn prefix(log1000: i64) -> String {
    let mut buffer = WriteBuffer::new();
    buffer.push_byte(b'|');
    write_prefix(&mut buffer, log1000);
    String::from_utf8(buffer.as_bytes().to_vec()).unwrap()
}

fn unsigned(x: u128, exponent: i32, shift: isize, significant_digits: usize) -> String {
    let mut buffer = WriteBuffer::new();
    let config = Config { shift, significant_digits };
    let len = format_unsigned(x, exponent, &config, &mut buffer);
    assert_eq!(len, buffer.len());
    String::from_utf8(buffer.as_bytes().to_vec()).unwrap()
}

fn placed(digits: &str, log10: i128) -> String {
    let mut window = [b'0'; DIGITS_CAPACITY];
    window[..digits.len()].copy_from_slice(digits.as_bytes());
    let mut buffer = WriteBuffer::new();
    post_format_uint(&mut buffer, &window, log10, digits.len());
    String::from_utf8(buffer.as_bytes().to_vec()).unwrap()
}

#[test]
fn write_decimal_writes_every_digit() {
    assert_eq!(decimal(0), "0");
    assert_eq!(decimal(7), "7");
    assert_eq!(decimal(9), "9");
    assert_eq!(decimal(10), "10");
    assert_eq!(decimal(99), "99");
    assert_eq!(decimal(100), "100");
    assert_eq!(decimal(1234567890), "1234567890");
    assert_eq!(decimal(u64::MAX as u128), "18446744073709551615");
    assert_eq!(decimal(u128::MAX), "340282366920938463463374607431768211455");
    assert_eq!(decimal(10u128.pow(38)), format!("1{}", "0".repeat(38)));
}

#[test]
fn div_floor3_rounds_toward_negative_infinity() {
    assert_eq!(div_floor3(0), 0);
    assert_eq!(div_floor3(1), 0);
    assert_eq!(div_floor3(2), 0);
    assert_eq!(div_floor3(3), 1);
    assert_eq!(div_floor3(7), 2);
    assert_eq!(div_floor3(-1), -1);
    assert_eq!(div_floor3(-2), -1);
    assert_eq!(div_floor3(-3), -1);
    assert_eq!(div_floor3(-4), -2);
    assert_eq!(div_floor3(-128), -43);
    assert_eq!(div_floor3(i128::MAX), 56713727820156410577229101238628035242);
    assert_eq!(div_floor3(i128::MIN), -56713727820156410577229101238628035243);
}

#[test]
fn mod_floor3_is_never_negative() {
    assert_eq!(mod_floor3(0), 0);
    assert_eq!(mod_floor3(1), 1);
    assert_eq!(mod_floor3(2), 2);
    assert_eq!(mod_floor3(3), 0);
    assert_eq!(mod_floor3(-1), 2);
    assert_eq!(mod_floor3(-2), 1);
    assert_eq!(mod_floor3(-3), 0);
    assert_eq!(mod_floor3(-128), 1);
    assert_eq!(mod_floor3(i128::MAX), 1);
    assert_eq!(mod_floor3(i128::MIN), 1);
    for x in -30i128..30 {
        assert_eq!(div_floor3(x) * 3 + mod_floor3(x), x);
    }
}

#[test]
fn write_prefix_follows_the_table() {
    assert_eq!(prefix(0), "|");
    assert_eq!(prefix(1), "|k");
    assert_eq!(prefix(2), "|M");
    assert_eq!(prefix(-1), "|m");
    assert_eq!(prefix(-2), "|µ");
    let letters = "qryzafpnum kMGTPEZYRQ";
    for log1000 in -10i64..=10 {
        if log1000 != 0 && log1000 != -2 {
            let letter = &letters[(log1000 + 10) as usize..(log1000 + 11) as usize];
            assert_eq!(prefix(log1000), format!("|{}", letter));
        }
    }
}

#[test]
fn write_prefix_falls_back_to_the_decimal_exponent() {
    assert_eq!(prefix(11), "|e33");
    assert_eq!(prefix(-11), "|e-33");
    assert_eq!(prefix(100), "|e300");
    assert_eq!(prefix(-108), "|e-324");
    assert_eq!(prefix(i64::MAX), "|e27670116110564327421");
    assert_eq!(prefix(i64::MIN), "|e-27670116110564327424");
}

#[test]
fn write_signed_writes_the_sign_first() {
    let cases: [(i128, &str); 7] = [
        (0, "0"),
        (5, "5"),
        (-5, "-5"),
        (1234, "1234"),
        (-1000, "-1000"),
        (i128::MAX, "170141183460469231731687303715884105727"),
        (i128::MIN, "-170141183460469231731687303715884105728"),
    ];
    for (value, expected) in cases {
        let mut buffer = WriteBuffer::new();
        buffer.push_byte(b'e');
        write_signed(&mut buffer, value);
        assert_eq!(buffer.as_bytes(), format!("e{}", expected).as_bytes());
    }
}

#[test]
fn post_format_uint_places_point_and_separators() {
    assert_eq!(placed("123", 0), "1.23");
    assert_eq!(placed("123", 1), "12.3");
    assert_eq!(placed("123", 2), "123");
    assert_eq!(placed("123", 3), "1.23k");
    assert_eq!(placed("123", -1), "123m");
    assert_eq!(placed("123", -2), "12.3m");
    assert_eq!(placed("123", -3), "1.23m");
    assert_eq!(placed("1234", 2), "123.4");
    assert_eq!(placed("1234", 0), "1.234");
    assert_eq!(placed("12345", 0), "1.234_5");
    assert_eq!(placed("1234567", 0), "1.234_567");
    assert_eq!(placed("12345678", 0), "1.234_567_8");
    assert_eq!(placed("12345678", 1), "12.345_678");
    assert_eq!(placed("12345678", 2), "123.456_78");
    assert_eq!(placed("1234567890", 8), "123.456_789_0M");
    assert_eq!(placed("100", 36), "1.00e36");
    assert_eq!(placed("100", -36), "1.00e-36");
    assert_eq!(placed("100", -34), "100e-36");
}

#[test]
fn format_unsigned_adds_the_exponent_to_the_shift() {
    assert_eq!(unsigned(12345678, 0, -1, 3), "1.23M");
    assert_eq!(unsigned(12345678, -1, 0, 3), "1.23M");
    assert_eq!(unsigned(12345678, 2, -3, 3), "1.23M");
    assert_eq!(unsigned(130, -6, 0, 3), "130µ");
    assert_eq!(unsigned(1300, -7, 0, 4), "130.0µ");
    assert_eq!(unsigned(1000, 0, 0, 3), "1.00k");
    assert_eq!(unsigned(1000, -3, 0, 3), "1.00");
    assert_eq!(unsigned(0, 17, -40, 3), "0.00");
}

#[test]
fn format_unsigned_appends_to_what_the_buffer_holds() {
    let mut buffer = WriteBuffer::new();
    buffer.push_byte(b'~');
    let config = Config { shift: 0, significant_digits: 4 };
    let len = format_unsigned(98765, 0, &config, &mut buffer);
    assert_eq!(buffer.as_bytes(), b"~98.77k");
    assert_eq!(len, 7);
}

#[test]
fn longest_text_fills_the_buffer() {
    let mut buffer = WriteBuffer::new();
    buffer.push_byte(b'-');
    let config = Config { shift: i64::MIN as isize, significant_digits: MAX_INTEGER_DIGITS };
    let len = format_unsigned(10u128.pow(38), i32::MIN + 2, &config, &mut buffer);
    if isize::MIN as i128 == i64::MIN as i128 {
        assert_eq!(
            buffer.as_bytes(),
            "-1.000_000_000_000_000_000_000_000_000_000_0e-9223372039002259416".as_bytes()
        );
        assert_eq!(len, BUFFER_SIZE);
    }
    assert!(len <= BUFFER_SIZE);
}

#[test]
fn extreme_shifts_are_written_out() {
    if isize::MAX as i128 == i64::MAX as i128 {
        assert_eq!(unsigned(5, 0, isize::MAX, 3), "50.0e9223372036854775806");
        assert_eq!(
            unsigned(u64::MAX as u128, i32::MAX, isize::MAX, 15),
            "1.844_674_407_370_96e9223372039002259473"
        );
        assert_eq!(
            unsigned(u128::MAX, i32::MIN, isize::MIN, 32),
            "34.028_236_692_093_846_346_337_460_743_177e-9223372039002259419"
        );
    }
}

#[test]
fn format_impl_returns_the_length() {
    let config = Config { shift: -3, significant_digits: 5 };
    let mut buffer = WriteBuffer::new();
    assert_eq!(1234567u32.format_impl(&config, &mut buffer), 8);
    assert_eq!(buffer.as_bytes(), b"1.234_6k");
    let mut buffer = WriteBuffer::new();
    assert_eq!((-1234567i32).format_impl(&config, &mut buffer), 9);
    assert_eq!(buffer.as_bytes(), b"-1.234_6k");
    let mut buffer = WriteBuffer::new();
    assert_eq!(0u64.format_impl(&config, &mut buffer), 7);
    assert_eq!(buffer.as_bytes(), b"0.000_0");
    let mut buffer = WriteBuffer::new();
    assert_eq!(i64::MIN.format_impl(&config, &mut buffer), 9);
    assert_eq!(buffer.as_bytes(), b"-9.223_4P");
    let mut buffer = WriteBuffer::new();
    assert_eq!(u128::MAX.format_impl(&config, &mut buffer), 9);
    assert_eq!(buffer.as_bytes(), b"340.28e33");
    let mut buffer = WriteBuffer::new();
    assert_eq!((i128::MIN + 1).format_impl(&config, &mut buffer), 10);
    assert_eq!(buffer.as_bytes(), b"-170.14e33");
}

#[test]
fn float_parts_with_the_most_digits() {
    let config = Config { shift: 0, significant_digits: MAX_FLOAT_DIGITS };
    let pi = FormatFloat {
        negative: true,
        kind: FloatKind::Finite { mantissa: 314_159_265_358_979, exponent: -14 },
    };
    let mut buffer = WriteBuffer::new();
    let len = pi.format_impl(&config, &mut buffer);
    assert_eq!(buffer.as_bytes(), b"-3.141_592_653_589_79");
    assert_eq!(len, 21);
    let huge = FormatFloat {
        negative: false,
        kind: FloatKind::Finite { mantissa: u64::MAX, exponent: i32::MAX },
    };
    let mut buffer = WriteBuffer::new();
    huge.format_impl(&config, &mut buffer);
    assert_eq!(buffer.as_bytes(), b"184.467_440_737_096e2147483664");
    let nan = FormatFloat { negative: true, kind: FloatKind::Nan };
    let mut buffer = WriteBuffer::new();
    assert_eq!(nan.format_impl(&config, &mut buffer), 4);
    assert_eq!(buffer.as_bytes(), b"-NaN");
    let infinity = FormatFloat { negative: false, kind: FloatKind::Infinite };
    let mut buffer = WriteBuffer::new();
    assert_eq!(infinity.format_impl(&config, &mut buffer), 3);
    assert_eq!(buffer.as_bytes(), b"inf");
}
