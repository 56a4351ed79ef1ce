//! Decimal digit strings: how a natural number reads in ASCII.

use vstd::prelude::*;
use vstd::arithmetic::div_mod::{lemma_div_denominator, lemma_mod_breakdown};

verus! {

/// Length of the array that holds the digits of one number: a `u128`
/// has at most 39 digits.
pub const DIGITS_CAPACITY: usize = 39;

/// ASCII `0`.
pub const DIGIT_ZERO: u8 = 0x30;

/// ASCII `1`.
pub const DIGIT_ONE: u8 = 0x31;

/// ASCII `5`: from this digit on, the digit before it is rounded up.
pub const DIGIT_FIVE: u8 = 0x35;

/// ASCII `9`.
pub const DIGIT_NINE: u8 = 0x39;

/// Ten to the power `n`.
pub open spec fn pow10(n: nat) -> nat
    decreases n,
{
    if n == 0 {
        1
    } else {
        10 * pow10((n - 1) as nat)
    }
}

/// How many decimal digits `x` has; zero has one.
pub open spec fn digit_count(x: nat) -> nat
    decreases x,
{
    if x < 10 {
        1
    } else {
        1 + digit_count(x / 10)
    }
}

/// The ASCII byte of the digit `d`.
pub open spec fn digit_byte(d: nat) -> u8 {
    (DIGIT_ZERO + d) as u8
}

/// The `width` lowest decimal digits of `x`, most significant first.
pub open spec fn fixed_digits(x: nat, width: nat) -> Seq<u8>
    decreases width,
{
    if width == 0 {
        Seq::empty()
    } else {
        fixed_digits(x / 10, (width - 1) as nat).push(digit_byte(x % 10))
    }
}

/// The decimal digits of `x` without leading zeros; zero is `"0"`.
pub open spec fn decimal_digits(x: nat) -> Seq<u8> {
    fixed_digits(x, digit_count(x))
}

/// Every byte of `s` is an ASCII digit.
pub open spec fn is_digits(s: Seq<u8>) -> bool {
    forall|i: int| 0 <= i < s.len() ==> DIGIT_ZERO <= #[trigger] s[i] <= DIGIT_NINE
}

/// The number that the digit string `s` spells.
pub open spec fn digits_value(s: Seq<u8>) -> nat
    decreases s.len(),
{
    if s.len() == 0 {
        0
    } else {
        (10 * digits_value(s.drop_last()) + (s.last() - DIGIT_ZERO)) as nat
    }
}

/// A power of ten is positive.
pub proof fn lemma_pow10_positive(n: nat)
    ensures
        pow10(n) > 0,
    decreases n,
{
    if n > 0 {
        lemma_pow10_positive((n - 1) as nat);
    }
}

/// Exponents add where powers of ten are multiplied.
pub proof fn lemma_pow10_adds(a: nat, b: nat)
    ensures
        pow10(a + b) == pow10(a) * pow10(b),
    decreases a,
{
    if a > 0 {
        lemma_pow10_adds((a - 1) as nat, b);
        assert(((a + b) - 1) as nat == (a - 1) as nat + b);
        assert(10 * (pow10((a - 1) as nat) * pow10(b)) == (10 * pow10((a - 1) as nat)) * pow10(b))
            by (nonlinear_arith);
    } else {
        assert(pow10(b) == 1 * pow10(b)) by (nonlinear_arith);
    }
}

/// A higher power of ten is larger, by a factor of ten at least.
pub proof fn lemma_pow10_monotonic(a: nat, b: nat)
    requires
        a <= b,
    ensures
        pow10(a) <= pow10(b),
        a < b ==> 10 * pow10(a) <= pow10(b),
    decreases b,
{
    if a < b {
        lemma_pow10_monotonic(a, (b - 1) as nat);
        lemma_pow10_positive(a);
    }
}

/// `x` lies between the two powers of ten that its digit count names.
pub proof fn lemma_digit_count_bounds(x: nat)
    ensures
        digit_count(x) >= 1,
        x < pow10(digit_count(x)),
        x > 0 ==> pow10((digit_count(x) - 1) as nat) <= x,
    decreases x,
{
    reveal_with_fuel(pow10, 2);
    if x >= 10 {
        lemma_digit_count_bounds(x / 10);
    }
}

/// `x / 10^k` is the only number `q` with `q * 10^k <= x < (q + 1) * 10^k`.
pub proof fn lemma_div_pow10_bounds(x: nat, k: nat)
    ensures
        0 <= x / pow10(k),
        (x / pow10(k)) * pow10(k) <= x < (x / pow10(k) + 1) * pow10(k),
{
    lemma_pow10_positive(k);
    let p = pow10(k);
    assert(0 <= x / p && (x / p) * p <= x < (x / p + 1) * p) by (nonlinear_arith)
        requires
            p > 0,
            x >= 0,
    ;
}

/// A digit string of `width` digits has that length and holds digits
/// only.
pub proof fn lemma_fixed_digits_are_digits(x: nat, width: nat)
    ensures
        fixed_digits(x, width).len() == width,
        is_digits(fixed_digits(x, width)),
    decreases width,
{
    if width > 0 {
        lemma_fixed_digits_are_digits(x / 10, (width - 1) as nat);
    }
}

/// Cutting low digits off a digit string divides the number by a power
/// of ten.
pub proof fn lemma_fixed_digits_take(x: nat, width: nat, k: nat)
    requires
        k <= width,
    ensures
        fixed_digits(x, width).take(width - k) == fixed_digits(x / pow10(k), (width - k) as nat),
    decreases k,
{
    lemma_fixed_digits_are_digits(x, width);
    if k == 0 {
        assert(fixed_digits(x, width).take(width as int) =~= fixed_digits(x, width));
        assert(pow10(0) == 1);
        assert(x / 1 == x);
    } else {
        let shorter = fixed_digits(x / 10, (width - 1) as nat);
        lemma_fixed_digits_are_digits(x / 10, (width - 1) as nat);
        lemma_fixed_digits_take(x / 10, (width - 1) as nat, (k - 1) as nat);
        assert(fixed_digits(x, width).take(width - k) =~= shorter.take(width - k));
        let lower = pow10((k - 1) as nat);
        lemma_pow10_positive((k - 1) as nat);
        lemma_div_denominator(x as int, 10, lower as int);
        assert(pow10(k) == 10 * lower);
        assert((x / 10) / lower == x / pow10(k));
        assert(((width - 1) - (k - 1)) as nat == (width - k) as nat);
        assert(shorter.take(width - k) == fixed_digits((x / 10) / lower, (width - k) as nat));
    }
}

/// The digit at index `i` of a digit string.
pub proof fn lemma_fixed_digits_index(x: nat, width: nat, i: int)
    requires
        0 <= i < width,
    ensures
        fixed_digits(x, width)[i] == digit_byte((x / pow10((width - 1 - i) as nat)) % 10),
{
    let k = (width - 1 - i) as nat;
    lemma_fixed_digits_take(x, width, k);
    lemma_fixed_digits_are_digits(x, width);
    assert(width - k == i + 1);
    let front = fixed_digits(x / pow10(k), (i + 1) as nat);
    assert(fixed_digits(x, width).take(i + 1) == front);
    assert(fixed_digits(x, width).take(i + 1)[i] == fixed_digits(x, width)[i]);
    let y = x / pow10(k);
    lemma_div_pow10_bounds(x, k);
    lemma_fixed_digits_are_digits(y / 10, i as nat);
}

/// A run of `n` zero digits.
pub open spec fn zeros(n: nat) -> Seq<u8> {
    Seq::new(n, |i: int| DIGIT_ZERO)
}

/// Multiplying by a power of ten appends zeros.
pub proof fn lemma_fixed_digits_pad(x: nat, width: nat, m: nat)
    ensures
        fixed_digits(x * pow10(m), width + m) == fixed_digits(x, width) + zeros(m),
    decreases m,
{
    lemma_fixed_digits_are_digits(x, width);
    if m == 0 {
        assert(x * pow10(0) == x) by (nonlinear_arith)
            requires
                pow10(0) == 1,
        ;
        assert(fixed_digits(x, width) + zeros(0) =~= fixed_digits(x, width));
    } else {
        let smaller = x * pow10((m - 1) as nat);
        assert(x * pow10(m) == 10 * smaller) by (nonlinear_arith)
            requires
                pow10(m) == 10 * pow10((m - 1) as nat),
                smaller == x * pow10((m - 1) as nat),
        ;
        lemma_fixed_digits_pad(x, width, (m - 1) as nat);
        assert(((width + m) - 1) as nat == width + (m - 1) as nat);
        assert((fixed_digits(x, width) + zeros((m - 1) as nat)).push(DIGIT_ZERO) =~= fixed_digits(
            x,
            width,
        ) + zeros(m));
    }
}

/// A digit string of `width` digits spells its number modulo `10^width`.
pub proof fn lemma_digits_value_fixed(x: nat, width: nat)
    ensures
        digits_value(fixed_digits(x, width)) == x % pow10(width),
    decreases width,
{
    if width == 0 {
    } else {
        let shorter = fixed_digits(x / 10, (width - 1) as nat);
        lemma_digits_value_fixed(x / 10, (width - 1) as nat);
        assert(fixed_digits(x, width).drop_last() =~= shorter);
        lemma_pow10_positive((width - 1) as nat);
        lemma_mod_breakdown(x as int, 10, pow10((width - 1) as nat) as int);
    }
}

/// A string of digits is the fixed-width rendering of the number that
/// it spells.
pub proof fn lemma_fixed_digits_of_value(s: Seq<u8>)
    requires
        is_digits(s),
    ensures
        digits_value(s) < pow10(s.len()),
        s == fixed_digits(digits_value(s), s.len()),
    decreases s.len(),
{
    if s.len() > 0 {
        lemma_fixed_digits_of_value(s.drop_last());
        let v = digits_value(s.drop_last());
        let last = (s.last() - DIGIT_ZERO) as nat;
        assert(digits_value(s) == 10 * v + last);
        assert((10 * v + last) / 10 == v);
        assert((10 * v + last) % 10 == last);
        assert(fixed_digits(digits_value(s), s.len()) =~= s);
    }
}

/// Replacing one digit changes the number by the difference of the
/// two digits at that digit's place.
pub proof fn lemma_digits_value_update(s: Seq<u8>, j: int, digit: u8)
    requires
        is_digits(s),
        0 <= j < s.len(),
        DIGIT_ZERO <= digit <= DIGIT_NINE,
    ensures
        is_digits(s.update(j, digit)),
        digits_value(s.update(j, digit)) == digits_value(s) + (digit - s[j]) * pow10(
            (s.len() - 1 - j) as nat,
        ),
    decreases s.len(),
{
    let t = s.update(j, digit);
    let place = pow10((s.len() - 1 - j) as nat);
    if j == s.len() - 1 {
        assert(t.drop_last() =~= s.drop_last());
        assert((digit - s[j]) * place == digit - s[j]) by (nonlinear_arith)
            requires
                place == 1,
        ;
    } else {
        lemma_digits_value_update(s.drop_last(), j, digit);
        assert(t.drop_last() =~= s.drop_last().update(j, digit));
        let lower = pow10((s.len() - 2 - j) as nat);
        assert(place == 10 * lower);
        assert(10 * ((digit - s[j]) * lower) == (digit - s[j]) * place) by (nonlinear_arith)
            requires
                place == 10 * lower,
        ;
    }
}

/// Writes the decimal digits of `x` at the front of `digits`, most
/// significant first, and returns how many there are.
pub fn write_decimal(x: u128, digits: &mut [u8; DIGITS_CAPACITY]) -> (count: usize)
    ensures
        1 <= count <= DIGITS_CAPACITY,
        count == digit_count(x as nat),
        final(digits)@.take(count as int) == decimal_digits(x as nat),
        forall|i: int| count <= i < DIGITS_CAPACITY ==> final(digits)@[i] == old(digits)@[i],
{
    let mut count: usize = 1;
    let mut rest: u128 = x;
    assert(rest * pow10(0) == x) by (nonlinear_arith)
        requires
            rest == x,
            pow10(0) == 1,
    ;
    while rest >= 10
        invariant
            1 <= count <= DIGITS_CAPACITY,
            rest * pow10((count - 1) as nat) <= x,
            digit_count(x as nat) == count - 1 + digit_count(rest as nat),
        decreases rest,
    {
        proof {
            lemma_u128_below_pow10();
            lemma_pow10_positive((count - 1) as nat);
            assert(10 * pow10((count - 1) as nat) <= x) by (nonlinear_arith)
                requires
                    rest >= 10,
                    rest * pow10((count - 1) as nat) <= x,
                    pow10((count - 1) as nat) > 0,
            ;
            if count >= 39 {
                lemma_pow10_monotonic(39, count as nat);
            }
            assert((rest / 10) * (10 * pow10((count - 1) as nat)) <= rest * pow10(
                (count - 1) as nat,
            )) by (nonlinear_arith)
                requires
                    rest >= 0,
                    pow10((count - 1) as nat) > 0,
            ;
        }
        rest = rest / 10;
        count = count + 1;
    }
    let mut i: usize = count;
    let mut rest: u128 = x;
    while i > 0
        invariant
            0 <= i <= count <= DIGITS_CAPACITY,
            fixed_digits(x as nat, count as nat) =~= fixed_digits(rest as nat, i as nat)
                + digits@.subrange(i as int, count as int),
            forall|j: int| count <= j < DIGITS_CAPACITY ==> digits@[j] == old(digits)@[j],
        decreases i,
    {
        i = i - 1;
        digits[i] = DIGIT_ZERO + (rest % 10) as u8;
        rest = rest / 10;
    }
    assert(digits@.take(count as int) =~= digits@.subrange(0, count as int));
    count
}

/// The largest `u128` has 39 digits.
pub proof fn lemma_u128_below_pow10()
    ensures
        u128::MAX < pow10(39),
{
    reveal_with_fuel(pow10, 40);
}

} // verus!
