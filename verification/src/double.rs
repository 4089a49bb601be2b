//! Numbers rounded to the precision of a double, by whole-number arithmetic.

use crate::text;
use vstd::arithmetic::power2::{lemma_pow2_pos, lemma_pow2_unfold, pow2};
use vstd::prelude::*;

verus! {

/// A quotient rounded to the nearest whole number, a half to the even one.
pub open spec fn half_even(number: nat, divisor: nat) -> nat {
    let whole = number / divisor;
    let rest = number % divisor;
    if 2 * rest > divisor || (2 * rest == divisor && whole % 2 == 1) {
        whole + 1
    } else {
        whole
    }
}

pub fn round_half_even(number: u128, divisor: u128) -> (result: u128)
    requires
        0 < divisor,
        number < u128::MAX,
    ensures
        result == half_even(number as nat, divisor as nat),
{
    let whole: u128 = number / divisor;
    let rest: u128 = number % divisor;
    proof {
        assert(whole <= number) by (nonlinear_arith)
            requires
                whole == number / divisor,
                0 < divisor,
        ;
    }
    if rest > divisor - rest || (rest == divisor - rest && whole % 2 == 1) {
        whole + 1
    } else {
        whole
    }
}

/// Two to the power of the digits that a double holds.
pub const PRECISION: u64 = 9_007_199_254_740_992;

/// How far apart the doubles around a whole number lie, and 1 where every
/// whole number is one.
pub open spec fn spacing(number: nat) -> nat
    decreases number,
{
    if number < PRECISION {
        1
    } else {
        2 * spacing(number / 2)
    }
}

/// The double nearest to a whole number, of two as near the even one.
pub open spec fn whole_double(number: nat) -> nat {
    half_even(number, spacing(number)) * spacing(number)
}

proof fn lemma_spacing(number: nat)
    ensures
        1 <= spacing(number),
        number >= PRECISION ==> spacing(number) * (PRECISION as nat) <= 2 * number,
    decreases number,
{
    if number >= PRECISION {
        lemma_spacing(number / 2);
    }
}

/// Rounding to a double at most doubles a whole number.
pub proof fn lemma_whole_double_most(number: nat)
    ensures
        whole_double(number) <= 2 * number,
{
    let step = spacing(number);
    let whole = number / step;
    lemma_spacing(number);
    assert(whole * step <= number) by (nonlinear_arith)
        requires
            whole == number / step,
            1 <= step,
    ;
    assert(half_even(number, step) * step <= whole * step + step) by (nonlinear_arith)
        requires
            half_even(number, step) <= whole + 1,
            1 <= step,
    ;
    if number < PRECISION {
        assert(number % 1 == 0);
        assert(half_even(number, 1) * 1 == number) by (nonlinear_arith)
            requires
                half_even(number, 1) == number,
        ;
    } else {
        assert(step <= number) by (nonlinear_arith)
            requires
                step * 9_007_199_254_740_992 <= 2 * number,
                0 <= step,
        ;
    }
}

/// Rounding a large number to a double keeps it large.
pub proof fn lemma_whole_double_least(number: nat)
    requires
        number >= 4_503_599_627_370_496,
    ensures
        whole_double(number) >= 4_503_599_627_370_496,
{
    let step = spacing(number);
    let whole = number / step;
    lemma_spacing(number);
    if number < PRECISION {
        assert(half_even(number, 1) * 1 == number) by (nonlinear_arith)
            requires
                half_even(number, 1) == number,
        ;
    } else {
        assert(2 * whole + 2 > 9_007_199_254_740_992) by (nonlinear_arith)
            requires
                whole == number / step,
                1 <= step,
                step * 9_007_199_254_740_992 <= 2 * number,
        ;
        assert(half_even(number, step) * step >= half_even(number, step)) by (nonlinear_arith)
            requires
                1 <= step,
                0 <= half_even(number, step),
        ;
    }
}

pub fn round_whole(number: u128) -> (result: u128)
    requires
        number < 0x1000_0000_0000_0000_0000_0000_0000_0000,
    ensures
        result == whole_double(number as nat),
        result <= 2 * number,
{
    let mut shrunk: u128 = number;
    let mut step: u128 = 1;
    while shrunk >= PRECISION as u128
        invariant
            spacing(number as nat) == step * spacing(shrunk as nat),
            1 <= step,
            shrunk * step <= number,
            number < 0x1000_0000_0000_0000_0000_0000_0000_0000,
        decreases shrunk,
    {
        proof {
            let half = shrunk / 2;
            assert((half * (2 * step)) <= shrunk * step) by (nonlinear_arith)
                requires
                    half == shrunk / 2,
                    1 <= step,
            ;
            assert(step <= shrunk * step) by (nonlinear_arith)
                requires
                    1 <= shrunk,
                    1 <= step,
            ;
            assert(step * (2 * spacing(half as nat)) == (2 * step) * spacing(half as nat))
                by (nonlinear_arith);
        }
        shrunk = shrunk / 2;
        step = 2 * step;
    }
    let whole: u128 = number / step;
    let rounded: u128 = round_half_even(number, step);
    proof {
        assert(step * spacing(shrunk as nat) == step) by (nonlinear_arith)
            requires
                spacing(shrunk as nat) == 1,
        ;
        lemma_spacing(number as nat);
        assert(whole * step <= number) by (nonlinear_arith)
            requires
                whole == number / step,
                1 <= step,
        ;
        if step > 1 {
            assert(number >= PRECISION);
            assert(step <= number) by (nonlinear_arith)
                requires
                    step * 9_007_199_254_740_992 <= 2 * number,
            ;
        }
        assert(rounded * step <= whole * step + step) by (nonlinear_arith)
            requires
                rounded <= whole + 1,
                1 <= step,
        ;
        if step == 1 {
            assert(rounded == number) by {
                assert(number % 1 == 0);
            }
        }
    }
    rounded * step
}

/// Ten to a power.
pub open spec fn ten_to(power: nat) -> nat
    decreases power,
{
    if power == 0 {
        1
    } else {
        10 * ten_to((power - 1) as nat)
    }
}

/// The value of decimal digits, the least first.
pub open spec fn worth(digits: Seq<u8>) -> nat
    decreases digits.len(),
{
    if digits.len() == 0 {
        0
    } else {
        worth(digits.drop_last()) + digits.last() as nat * ten_to((digits.len() - 1) as nat)
    }
}

pub open spec fn are_digits(digits: Seq<u8>) -> bool {
    forall|i: int| 0 <= i < digits.len() ==> #[trigger] digits[i] <= 9
}

proof fn lemma_worth_push(digits: Seq<u8>, last: u8)
    ensures
        worth(digits.push(last)) == worth(digits) + last as nat * ten_to(digits.len()),
{
    assert(digits.push(last).drop_last() =~= digits);
}

proof fn lemma_worth_bound(digits: Seq<u8>)
    requires
        are_digits(digits),
    ensures
        worth(digits) < ten_to(digits.len()),
    decreases digits.len(),
{
    if digits.len() > 0 {
        let shorter = digits.drop_last();
        assert forall|i: int| 0 <= i < shorter.len() implies #[trigger] shorter[i] <= 9 by {
            assert(shorter[i] == digits[i]);
        }
        lemma_worth_bound(shorter);
        let place = ten_to(shorter.len());
        let last = digits.last() as nat;
        assert(last <= 9) by {
            assert(digits[digits.len() - 1] <= 9);
        }
        assert(last * place <= 9 * place) by (nonlinear_arith)
            requires
                last <= 9,
        ;
    }
}

/// Digits of twice the value.
fn doubled(digits: &Vec<u8>) -> (result: Vec<u8>)
    requires
        are_digits(digits@),
    ensures
        are_digits(result@),
        worth(result@) == 2 * worth(digits@),
{
    let mut result: Vec<u8> = Vec::new();
    let mut carry: u8 = 0;
    let mut at: usize = 0;
    while at < digits.len()
        invariant
            at <= digits@.len(),
            result@.len() == at,
            carry <= 1,
            are_digits(digits@),
            are_digits(result@),
            worth(result@) + carry as nat * ten_to(at as nat) == 2 * worth(
                digits@.take(at as int),
            ),
        decreases digits@.len() - at,
    {
        let sum: u8 = 2 * digits[at] + carry;
        let low: u8 = sum % 10;
        let high: u8 = sum / 10;
        proof {
            let place = ten_to(at as nat);
            lemma_worth_push(result@, low);
            assert(digits@.take(at + 1).drop_last() =~= digits@.take(at as int));
            let digit = digits@[at as int] as nat;
            assert(low as nat * place + high as nat * (10 * place) == carry as nat * place + 2 * (
            digit * place)) by (nonlinear_arith)
                requires
                    low as nat + 10 * (high as nat) == 2 * digit + carry as nat,
            ;
        }
        result.push(low);
        carry = high;
        at = at + 1;
    }
    assert(digits@.take(at as int) =~= digits@);
    if carry > 0 {
        proof {
            lemma_worth_push(result@, carry);
        }
        result.push(carry);
    }
    result
}

fn digit_at(digits: &Vec<u8>, at: usize) -> (result: u8)
    requires
        are_digits(digits@),
    ensures
        result == (if at < digits@.len() {
            digits@[at as int]
        } else {
            0
        }),
        result <= 9,
{
    if at < digits.len() {
        digits[at]
    } else {
        0
    }
}

/// The digits, followed by naughts up to a length.
spec fn extended(digits: Seq<u8>, length: nat) -> Seq<u8> {
    Seq::new(
        length,
        |i: int|
            if i < digits.len() {
                digits[i]
            } else {
                0
            },
    )
}

proof fn lemma_extended(digits: Seq<u8>, length: nat)
    requires
        digits.len() <= length,
    ensures
        worth(extended(digits, length)) == worth(digits),
    decreases length,
{
    if length == digits.len() {
        assert(extended(digits, length) =~= digits);
    } else {
        lemma_extended(digits, (length - 1) as nat);
        let wide = extended(digits, length);
        assert(wide.drop_last() =~= extended(digits, (length - 1) as nat));
        assert(0 * ten_to((length - 1) as nat) == 0) by (nonlinear_arith);
    }
}

/// Digits of the difference, where it is not negative.
fn difference(from: &Vec<u8>, less: &Vec<u8>) -> (result: Option<Vec<u8>>)
    requires
        are_digits(from@),
        are_digits(less@),
    ensures
        match result {
            Some(rest) => are_digits(rest@) && worth(rest@) + worth(less@) == worth(from@),
            None => worth(from@) < worth(less@),
        },
{
    let length: usize = if from.len() > less.len() {
        from.len()
    } else {
        less.len()
    };
    let ghost wide_from = extended(from@, length as nat);
    let ghost wide_less = extended(less@, length as nat);
    let mut result: Vec<u8> = Vec::new();
    let mut borrow: u8 = 0;
    let mut at: usize = 0;
    while at < length
        invariant
            at <= length,
            result@.len() == at,
            borrow <= 1,
            are_digits(from@),
            are_digits(less@),
            are_digits(result@),
            wide_from == extended(from@, length as nat),
            wide_less == extended(less@, length as nat),
            worth(result@) + worth(wide_less.take(at as int)) == worth(wide_from.take(at as int))
                + borrow as nat * ten_to(at as nat),
        decreases length - at,
    {
        let upper: u8 = digit_at(from, at);
        let lower: u8 = digit_at(less, at) + borrow;
        let (digit, next): (u8, u8) = if upper >= lower {
            (upper - lower, 0)
        } else {
            (10 + upper - lower, 1)
        };
        proof {
            let place = ten_to(at as nat);
            lemma_worth_push(result@, digit);
            assert(wide_from.take(at + 1).drop_last() =~= wide_from.take(at as int));
            assert(wide_less.take(at + 1).drop_last() =~= wide_less.take(at as int));
            let taken = wide_less[at as int] as nat;
            assert(digit as nat * place + taken * place + borrow as nat * place == upper as nat
                * place + next as nat * (10 * place)) by (nonlinear_arith)
                requires
                    digit as nat + taken + borrow as nat == upper as nat + 10 * (next as nat),
            ;
        }
        result.push(digit);
        borrow = next;
        at = at + 1;
    }
    proof {
        assert(wide_from.take(length as int) =~= wide_from);
        assert(wide_less.take(length as int) =~= wide_less);
        lemma_extended(from@, length as nat);
        lemma_extended(less@, length as nat);
        lemma_worth_bound(result@);
        assert(0 * ten_to(length as nat) == 0) by (nonlinear_arith);
    }
    if borrow == 0 {
        Some(result)
    } else {
        None
    }
}

proof fn lemma_first_digit(digits: Seq<char>)
    requires
        digits.len() > 0,
    ensures
        text::number_of(digits) == text::digit_value(digits[0]) * ten_to((digits.len() - 1) as nat)
            + text::number_of(digits.drop_first()),
    decreases digits.len(),
{
    if digits.len() == 1 {
        assert(digits.drop_last() =~= Seq::<char>::empty());
        assert(digits.drop_first() =~= Seq::<char>::empty());
        reveal_with_fuel(text::number_of, 2);
        reveal_with_fuel(ten_to, 1);
        assert(text::digit_value(digits[0]) * 1 == text::digit_value(digits[0]))
            by (nonlinear_arith);
    } else {
        let shorter = digits.drop_last();
        lemma_first_digit(shorter);
        assert(shorter.drop_first() =~= digits.drop_first().drop_last());
        assert(digits.drop_first().last() == digits.last());
        let first = text::digit_value(digits[0]);
        let place = ten_to((digits.len() - 2) as nat);
        assert((first * place) * 10 == first * (10 * place)) by (nonlinear_arith);
    }
}

/// The digits that some characters spell, the least first.
fn digits_of(characters: &[char]) -> (result: Vec<u8>)
    requires
        text::all_digits(characters@),
    ensures
        are_digits(result@),
        worth(result@) == text::number_of(characters@),
{
    let mut result: Vec<u8> = Vec::new();
    let mut left: usize = characters.len();
    assert(characters@.skip(left as int) =~= Seq::<char>::empty());
    while left > 0
        invariant
            left <= characters@.len(),
            text::all_digits(characters@),
            are_digits(result@),
            result@.len() == characters@.len() - left,
            worth(result@) == text::number_of(characters@.skip(left as int)),
        decreases left,
    {
        left = left - 1;
        let character: char = characters[left];
        assert('0' <= characters@[left as int] <= '9');
        let digit: u8 = (character as u32 - '0' as u32) as u8;
        proof {
            let rest = characters@.skip(left as int);
            lemma_first_digit(rest);
            assert(rest.drop_first() =~= characters@.skip(left + 1));
            lemma_worth_push(result@, digit);
        }
        result.push(digit);
    }
    assert(characters@.skip(0) =~= characters@);
    result
}

fn power_of_ten(power: usize) -> (result: Vec<u8>)
    ensures
        are_digits(result@),
        worth(result@) == ten_to(power as nat),
{
    let mut result: Vec<u8> = Vec::new();
    while result.len() < power
        invariant
            result@.len() <= power,
            are_digits(result@),
            worth(result@) == 0,
        decreases power - result@.len(),
    {
        proof {
            lemma_worth_push(result@, 0);
            assert(0 * ten_to(result@.len()) == 0) by (nonlinear_arith);
        }
        result.push(0);
    }
    proof {
        lemma_worth_push(result@, 1);
    }
    result.push(1);
    result
}

/// A fraction below one doubled until it is none: its numerator, and how often
/// it was doubled, counted downwards.
pub open spec fn raised(number: nat, divisor: nat) -> (nat, int)
    decreases
            (if number < divisor {
                divisor - number
            } else {
                0
            }),
{
    if number == 0 || number >= divisor {
        (number, 0)
    } else {
        let rest = raised(2 * number, divisor);
        (rest.0, rest.1 - 1)
    }
}

/// A fraction halved until it is below two: its divisor, and how often it was
/// halved.
pub open spec fn lowered(number: nat, divisor: nat) -> (nat, int)
    decreases number - divisor,
{
    if divisor == 0 || number < 2 * divisor {
        (divisor, 0)
    } else {
        let rest = lowered(number, 2 * divisor);
        (rest.0, rest.1 + 1)
    }
}

/// A mantissa times two to the power of an exponent.
pub struct DoubleView {
    pub mantissa: nat,
    pub exponent: int,
}

/// The double nearest to a fraction that is not naught, with a mantissa of
/// full precision, however large or small its exponent.
pub open spec fn nearest(number: nat, divisor: nat) -> DoubleView {
    let upper = raised(number, divisor);
    let lower = lowered(upper.0, divisor);
    DoubleView {
        mantissa: half_even(upper.0 * pow2(52), lower.0),
        exponent: upper.1 + lower.1 - 52,
    }
}

pub proof fn lemma_raised(number: nat, divisor: nat)
    requires
        0 < number,
        0 < divisor,
    ensures
        raised(number, divisor).0 >= divisor,
        number < divisor ==> raised(number, divisor).0 < 2 * divisor,
        number >= divisor ==> raised(number, divisor) == (number, 0int),
        number < divisor ==> raised(number, divisor).1 < 0,
    decreases
            (if number < divisor {
                divisor - number
            } else {
                0
            }),
{
    if number < divisor {
        lemma_raised(2 * number, divisor);
    }
}

pub proof fn lemma_lowered(number: nat, divisor: nat)
    requires
        0 < divisor,
        divisor <= number,
    ensures
        lowered(number, divisor).0 > 0,
        lowered(number, divisor).0 <= number < 2 * lowered(number, divisor).0,
        lowered(number, divisor).1 >= 0,
    decreases number - divisor,
{
    if number >= 2 * divisor {
        lemma_lowered(number, 2 * divisor);
    }
}

/// The mantissa of a fraction has full precision.
pub proof fn lemma_mantissa(number: nat, divisor: nat)
    requires
        0 < number,
        0 < divisor,
    ensures
        pow2(52) <= nearest(number, divisor).mantissa <= pow2(53),
{
    let upper = raised(number, divisor).0;
    lemma_raised(number, divisor);
    lemma_lowered(upper, divisor);
    let lower = lowered(upper, divisor).0;
    lemma_pow2_unfold(53);
    lemma_pow2_pos(52);
    lemma_quotient_range(upper, lower, pow2(52));
}

proof fn lemma_quotient_range(upper: nat, lower: nat, scale: nat)
    requires
        0 < lower <= upper < 2 * lower,
        0 < scale,
    ensures
        scale <= half_even(upper * scale, lower) <= 2 * scale,
        (upper * scale) / lower < 2 * scale,
{
    let whole = (upper * scale) / lower;
    let rest = (upper * scale) % lower;
    assert(upper * scale == whole * lower + rest && rest < lower) by (nonlinear_arith)
        requires
            whole == (upper * scale) / lower,
            rest == (upper * scale) % lower,
            0 < lower,
    ;
    assert(scale <= whole) by (nonlinear_arith)
        requires
            upper * scale == whole * lower + rest,
            rest < lower,
            lower <= upper,
            0 < lower,
            0 <= whole,
            0 < scale,
    ;
    assert(whole < 2 * scale) by (nonlinear_arith)
        requires
            upper * scale == whole * lower + rest,
            0 <= rest,
            upper < 2 * lower,
            0 < scale,
            0 < lower,
    ;
}

/// The mantissa of a fraction between one and two.
fn divide(number: &Vec<u8>, divisor: &Vec<u8>) -> (result: u64)
    requires
        are_digits(number@),
        are_digits(divisor@),
        0 < worth(divisor@) <= worth(number@) < 2 * worth(divisor@),
    ensures
        result == half_even(worth(number@) * pow2(52), worth(divisor@)),
{
    let ghost upper = worth(number@);
    let ghost lower = worth(divisor@);
    let mut rest: Vec<u8> = number.clone();
    assert(rest@ =~= number@);
    let mut quotient: u64 = 0;
    let mut step: u64 = 0;
    let ghost mut half: nat = 0;
    proof {
        vstd::arithmetic::power2::lemma2_to64();
        vstd::arithmetic::power2::lemma2_to64_rest();
        assert(upper * pow2(0) == upper) by (nonlinear_arith)
            requires
                pow2(0) == 1,
        ;
        assert(2 * (0 * lower) == 0) by (nonlinear_arith);
    }
    while step < 53
        invariant
            step <= 53,
            are_digits(rest@),
            are_digits(divisor@),
            upper == worth(number@),
            lower == worth(divisor@),
            0 < lower <= upper < 2 * lower,
            worth(rest@) < 2 * lower,
            upper * pow2(step as nat) == 2 * (quotient as nat * lower) + worth(rest@),
            quotient < pow2(step as nat),
            pow2(53) == 0x20_0000_0000_0000,
            step == 53 ==> {
                &&& worth(rest@) == 2 * half
                &&& upper * pow2(52) == quotient as nat * lower + half
                &&& half < lower
            },
        decreases 53 - step,
    {
        let ghost before = worth(rest@);
        let ghost earlier = quotient as nat;
        proof {
            lemma_pow2_unfold((step + 1) as nat);
            if step < 52 {
                vstd::arithmetic::power2::lemma_pow2_strictly_increases((step + 1) as nat, 53);
            }
            assert(upper * (2 * pow2(step as nat)) == 2 * (upper * pow2(step as nat)))
                by (nonlinear_arith);
        }
        match difference(&rest, divisor) {
            Some(less) => {
                rest = less;
                quotient = 2 * quotient + 1;
                assert((2 * earlier + 1) * lower == 2 * (earlier * lower) + lower)
                    by (nonlinear_arith);
            },
            None => {
                quotient = 2 * quotient;
                assert((2 * earlier) * lower == 2 * (earlier * lower)) by (nonlinear_arith);
            },
        }
        proof {
            half = worth(rest@);
        }
        rest = doubled(&rest);
        step = step + 1;
    }
    let ghost product = upper * pow2(52);
    proof {
        vstd::arithmetic::div_mod::lemma_fundamental_div_mod_converse(
            product as int,
            lower as int,
            quotient as int,
            half as int,
        );
        lemma_pow2_unfold(53);
        lemma_quotient_range(upper, lower, pow2(52));
    }
    match difference(&rest, divisor) {
        None => quotient,
        Some(excess) => {
            if is_naught(&excess) && quotient % 2 == 0 {
                quotient
            } else {
                quotient + 1
            }
        },
    }
}

proof fn lemma_naught(digits: Seq<u8>, at: int)
    requires
        0 <= at < digits.len(),
        digits[at] > 0,
    ensures
        worth(digits) > 0,
    decreases digits.len(),
{
    let place = ten_to((digits.len() - 1) as nat);
    if at == digits.len() - 1 {
        lemma_ten_to((digits.len() - 1) as nat);
        assert(digits.last() as nat * place > 0) by (nonlinear_arith)
            requires
                digits.last() as nat > 0,
                place > 0,
        ;
    } else {
        lemma_naught(digits.drop_last(), at);
    }
}

pub proof fn lemma_ten_to(power: nat)
    ensures
        ten_to(power) > 0,
    decreases power,
{
    if power > 0 {
        lemma_ten_to((power - 1) as nat);
    }
}

fn is_naught(digits: &Vec<u8>) -> (result: bool)
    ensures
        result == (worth(digits@) == 0),
{
    let mut at: usize = 0;
    while at < digits.len()
        invariant
            at <= digits@.len(),
            worth(digits@.take(at as int)) == 0,
        decreases digits@.len() - at,
    {
        if digits[at] > 0 {
            proof {
                lemma_naught(digits@, at as int);
            }
            return false;
        }
        proof {
            assert(digits@.take(at + 1).drop_last() =~= digits@.take(at as int));
            assert(0 * ten_to(at as nat) == 0) by (nonlinear_arith);
        }
        at = at + 1;
    }
    assert(digits@.take(at as int) =~= digits@);
    true
}

/// A double, or that its exponent lies beyond all that is looked at.
#[derive(Clone, Copy, PartialEq, Eq, Structural)]
pub enum Nearest {
    Naught,
    Tiny,
    Vast,
    Double { mantissa: u64, exponent: i64 },
}

/// The exponents beyond which a double is not worked out.
pub const LEAST_EXPONENT: i64 = -400;

pub const GREATEST_EXPONENT: i64 = 1_100;

/// The double nearest to the number that digits with a point behind some of
/// them spell.
pub fn nearest_double(whole: &[char], fraction: &[char]) -> (result: Nearest)
    requires
        text::all_digits(whole@),
        text::all_digits(fraction@),
        whole@.len() + fraction@.len() <= usize::MAX,
    ensures
        ({
            let number = text::number_of(whole@ + fraction@);
            let divisor = ten_to(fraction@.len());
            let wanted = nearest(number, divisor);
            match result {
                Nearest::Naught => number == 0,
                Nearest::Tiny => number > 0 && wanted.exponent < LEAST_EXPONENT - 52,
                Nearest::Vast => number > 0 && wanted.exponent > GREATEST_EXPONENT - 52,
                Nearest::Double { mantissa, exponent } => {
                    &&& number > 0
                    &&& wanted == (DoubleView {
                        mantissa: mantissa as nat,
                        exponent: exponent as int,
                    })
                    &&& LEAST_EXPONENT - 52 <= exponent <= GREATEST_EXPONENT - 52
                },
            }
        }),
{
    let mut characters: Vec<char> = Vec::new();
    characters.extend_from_slice(whole);
    characters.extend_from_slice(fraction);
    assert(characters@ =~= whole@ + fraction@);
    assert forall|i: int| 0 <= i < characters@.len() implies '0' <= #[trigger] characters@[i]
        <= '9' by {
        if i < whole@.len() {
            assert(characters@[i] == whole@[i]);
        } else {
            assert(characters@[i] == fraction@[i - whole@.len()]);
        }
    }
    let mut number = digits_of(characters.as_slice());
    let mut divisor = power_of_ten(fraction.len());
    let ghost first_number = worth(number@);
    let ghost first_divisor = worth(divisor@);
    proof {
        lemma_ten_to(fraction@.len());
    }
    if is_naught(&number) {
        return Nearest::Naught;
    }
    proof {
        lemma_raised(first_number, first_divisor);
        lemma_lowered(raised(first_number, first_divisor).0, first_divisor);
    }
    let mut exponent: i64 = 0;
    let mut small = true;
    while small
        invariant_except_break
            small,
        invariant
            are_digits(number@),
            are_digits(divisor@),
            worth(divisor@) == first_divisor,
            0 < worth(number@),
            0 < first_divisor,
            LEAST_EXPONENT <= exponent <= 0,
            raised(first_number, first_divisor).0 == raised(worth(number@), first_divisor).0,
            raised(first_number, first_divisor).1 == raised(worth(number@), first_divisor).1
                + exponent,
            small || worth(number@) >= first_divisor,
            exponent < 0 ==> worth(number@) < 2 * first_divisor,
            first_number > 0,
            first_number == text::number_of(whole@ + fraction@),
            first_divisor == ten_to(fraction@.len()),
            lowered(raised(first_number, first_divisor).0, first_divisor).1 >= 0,
            raised(first_number, first_divisor).0 >= first_divisor,
            first_number < first_divisor ==> raised(first_number, first_divisor).0 < 2
                * first_divisor,
            exponent < 0 ==> first_number < first_divisor,
            exponent == 0 ==> worth(number@) == first_number,
        ensures
            worth(number@) >= first_divisor,
        decreases exponent - LEAST_EXPONENT + 1,
    {
        match difference(&number, &divisor) {
            Some(_) => {
                break;
            },
            None => {
                if exponent == LEAST_EXPONENT {
                    proof {
                        lemma_raised(worth(number@), first_divisor);
                    }
                    return Nearest::Tiny;
                }
                number = doubled(&number);
                exponent = exponent - 1;
            },
        }
    }
    proof {
        lemma_raised(worth(number@), first_divisor);
    }
    let ghost upper = worth(number@);
    let ghost start = exponent as int;
    assert(raised(first_number, first_divisor) == (upper, start));
    let mut large = true;
    while large
        invariant_except_break
            large,
        invariant
            are_digits(number@),
            are_digits(divisor@),
            worth(number@) == upper,
            0 < worth(divisor@) <= upper,
            LEAST_EXPONENT <= start <= 0,
            start <= exponent <= GREATEST_EXPONENT,
            lowered(upper, first_divisor).0 == lowered(upper, worth(divisor@)).0,
            lowered(upper, first_divisor).1 == lowered(upper, worth(divisor@)).1 + exponent - start,
            raised(first_number, first_divisor) == (upper, start),
            first_number > 0,
            first_number == text::number_of(whole@ + fraction@),
            first_divisor == ten_to(fraction@.len()),
        ensures
            upper < 2 * worth(divisor@),
        decreases GREATEST_EXPONENT - exponent + 1,
    {
        let twice = doubled(&divisor);
        match difference(&number, &twice) {
            None => {
                break;
            },
            Some(_) => {
                if exponent >= GREATEST_EXPONENT {
                    proof {
                        lemma_lowered(upper, worth(twice@));
                    }
                    return Nearest::Vast;
                }
                divisor = twice;
                exponent = exponent + 1;
            },
        }
    }
    let mantissa: u64 = divide(&number, &divisor);
    Nearest::Double { mantissa, exponent: exponent - 52 }
}

} // verus!
