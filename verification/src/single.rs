//! Single-precision numbers, by whole-number arithmetic on their bits.

use crate::double;
use crate::text;
use vstd::arithmetic::power2::{
    lemma2_to64, lemma_pow2_adds, lemma_pow2_pos, lemma_pow2_strictly_increases, lemma_pow2_unfold, pow2,
};
use vstd::prelude::*;

verus! {

/// Two to the power of the digits that a single-precision number holds.
pub const PRECISION: u64 = 16_777_216;

/// The bits of the number one.
pub const ONE: u32 = 0x3F80_0000;

/// The bits of positive infinity. What lies above them is not a number.
pub const INFINITE: u32 = 0x7F80_0000;

/// The bit of the sign.
pub const SIGN: u32 = 0x8000_0000;

/// The bits of the least number that has no digits behind the point to round.
pub const WHOLE: u32 = 0x4B80_0000;

/// Whether the bits are those of no number.
pub open spec fn is_nan(bits: u32) -> bool {
    bits % SIGN > INFINITE
}

/// The place of a number among the others; both zeros have the same.
pub open spec fn place(bits: u32) -> int {
    if bits < SIGN {
        bits as int
    } else {
        SIGN - bits
    }
}

/// Whether one number is less than another. What is no number is neither less
/// nor greater.
pub open spec fn is_less(left: u32, right: u32) -> bool {
    !is_nan(left) && !is_nan(right) && place(left) < place(right)
}

pub fn less(left: u32, right: u32) -> (result: bool)
    ensures
        result == is_less(left, right),
{
    if left % SIGN > INFINITE || right % SIGN > INFINITE {
        false
    } else if left < SIGN {
        right < SIGN && left < right
    } else if right < SIGN {
        left > SIGN || right > 0
    } else {
        left > right
    }
}

/// The rank of any bits among all others: negative ones in front, the negative
/// zero before the positive one, and what is no number at both ends.
pub open spec fn total_rank(bits: u32) -> int {
    if bits < SIGN {
        bits as int
    } else {
        SIGN - 1 - bits
    }
}

/// Whether the first bits rank behind the second.
pub fn ranks_behind(left: u32, right: u32) -> (result: bool)
    ensures
        result == (total_rank(left) > total_rank(right)),
{
    if left < SIGN {
        right >= SIGN || left > right
    } else {
        right >= SIGN && left < right
    }
}

/// The digits of a number, read as a whole number.
pub open spec fn digits(bits: u32) -> nat {
    if bits < 0x80_0000 {
        bits as nat
    } else {
        (bits % 0x80_0000 + 0x80_0000) as nat
    }
}

/// How many binary places the digits of a number below `WHOLE` lie behind the
/// point.
pub open spec fn places(bits: u32) -> nat {
    if bits < 0x80_0000 {
        149
    } else {
        (150 - bits / 0x80_0000) as nat
    }
}

/// How far apart the single-precision numbers around a whole number lie, and 1
/// where every whole number is one.
pub open spec fn spacing(number: nat) -> nat
    decreases number,
{
    if number < PRECISION {
        1
    } else {
        2 * spacing(number / 2)
    }
}

/// A whole number rounded to the digits that a single-precision number holds,
/// a half to the even one.
pub open spec fn held(number: nat) -> nat {
    double::half_even(number, spacing(number)) * spacing(number)
}

/// A hundred times a number, as it is held, in units of its last place.
pub open spec fn hundredfold(bits: u32) -> nat {
    held(100 * digits(bits))
}

fn hold(number: u64) -> (result: u64)
    requires
        number < 0x8000_0000,
    ensures
        result == held(number as nat),
        result <= 2 * number,
{
    let mut shrunk: u64 = number;
    let mut step: u64 = 1;
    while shrunk >= PRECISION
        invariant
            spacing(number as nat) == step * spacing(shrunk as nat),
            1 <= step,
            shrunk * step <= number,
            number < 0x8000_0000,
        decreases shrunk,
    {
        proof {
            let half = shrunk / 2;
            assert(half * (2 * step) <= shrunk * step) by (nonlinear_arith)
                requires
                    half == shrunk / 2,
                    1 <= step,
            ;
            assert(step <= shrunk * step) by (nonlinear_arith)
                requires
                    1 <= shrunk,
                    1 <= step,
            ;
            assert(step * (2 * spacing(half as nat)) == (2 * step) * spacing(half as nat))
                by (nonlinear_arith);
        }
        shrunk = shrunk / 2;
        step = 2 * step;
    }
    proof {
        assert(step * spacing(shrunk as nat) == step) by (nonlinear_arith)
            requires
                spacing(shrunk as nat) == 1,
        ;
        if step > number {
            assert(shrunk == 0) by (nonlinear_arith)
                requires
                    shrunk * step <= number,
                    step > number,
                    0 <= shrunk,
                    0 <= number,
            ;
        }
        assert(spacing(number as nat) == step);
        lemma_spacing(number as nat);
    }
    let whole: u64 = number / step;
    let rounded: u64 = double::round_half_even(number as u128, step as u128) as u64;
    proof {
        assert(whole * step <= number) by (nonlinear_arith)
            requires
                whole == number / step,
                1 <= step,
        ;
        assert(whole <= number) by (nonlinear_arith)
            requires
                whole == number / step,
                1 <= step,
        ;
        assert(rounded * step <= whole * step + step) by (nonlinear_arith)
            requires
                rounded <= whole + 1,
                1 <= step,
        ;
        if step == 1 {
            assert(rounded * step == number) by (nonlinear_arith)
                requires
                    step == 1,
                    rounded == number,
            ;
        }
    }
    rounded * step
}

proof fn lemma_spacing(number: nat)
    ensures
        1 <= spacing(number),
        spacing(number) > 1 ==> spacing(number) <= number,
    decreases number,
{
    if number >= PRECISION {
        lemma_spacing(number / 2);
    }
}

fn power(exponent: u32) -> (result: u128)
    requires
        exponent < 64,
    ensures
        result == pow2(exponent as nat),
        0 < result <= 0x1_0000_0000_0000_0000,
{
    let mut result: u128 = 1;
    let mut at: u32 = 0;
    proof {
        lemma2_to64();
    }
    while at < exponent
        invariant
            at <= exponent < 64,
            result == pow2(at as nat),
            0 < result <= 0x1_0000_0000_0000_0000,
            pow2(64) == 0x1_0000_0000_0000_0000,
        decreases exponent - at,
    {
        proof {
            lemma_pow2_unfold((at + 1) as nat);
            if at + 1 < 64 {
                lemma_pow2_strictly_increases((at + 1) as nat, 64);
            }
        }
        result = 2 * result;
        at = at + 1;
    }
    result
}

/// A number without a sign in hundredths, halves rounded to the even one.
pub open spec fn even_percent(bits: u32) -> nat {
    if bits < WHOLE {
        double::half_even(hundredfold(bits), pow2(places(bits)))
    } else {
        hundredfold(bits) * pow2((bits / 0x80_0000 - 150) as nat)
    }
}

/// A number in hundredths as it is written without places behind the point: what
/// a single-precision number cannot hold is infinite.
pub open spec fn percent_digits(bits: u32) -> Seq<char> {
    let magnitude = bits % SIGN;
    if is_nan(bits) {
        "NaN"@
    } else {
        (if bits < SIGN {
            ""@
        } else {
            "-"@
        }) + if even_percent(magnitude) < pow2(128) {
            text::decimal(even_percent(magnitude))
        } else {
            "inf"@
        }
    }
}

/// A number that is at most one in hundredths, halves rounded up.
pub open spec fn upper_percent(bits: u32) -> nat {
    (2 * hundredfold(bits) + pow2(places(bits))) / (2 * pow2(places(bits)))
}

fn parts(bits: u32) -> (result: (u64, u32))
    requires
        bits < WHOLE,
    ensures
        result.0 == hundredfold(bits),
        result.0 <= 0x1_0000_0000,
        result.1 == places(bits),
        bits < ONE ==> result.1 >= 24,
        bits == ONE ==> result.1 == 23,
        result.1 <= 149,
        bits < ONE ==> result.0 <= 200 * 0x100_0000,
        bits == ONE ==> result.0 <= 200 * 0x80_0000,
{
    let (number, behind): (u32, u32) = if bits < 0x80_0000 {
        (bits, 149)
    } else {
        (bits % 0x80_0000 + 0x80_0000, 150 - bits / 0x80_0000)
    };
    (hold(100 * number as u64), behind)
}

proof fn lemma_far_behind(number: nat, behind: nat)
    requires
        number <= 0x1_0000_0000,
        64 <= behind,
    ensures
        double::half_even(number, pow2(behind)) == 0,
        (2 * number + pow2(behind)) / (2 * pow2(behind)) == 0,
{
    lemma2_to64();
    if 64 < behind {
        lemma_pow2_strictly_increases(64, behind);
    }
    let divisor = pow2(behind);
    assert(2 * number < divisor);
    assert(number / divisor == 0 && number % divisor == number) by (nonlinear_arith)
        requires
            0 <= number < divisor,
    ;
    assert((2 * number + divisor) / (2 * divisor) == 0) by (nonlinear_arith)
        requires
            0 <= 2 * number < divisor,
    ;
}

fn shifted(number: u64, count: u32) -> (result: Option<u128>)
    ensures
        match result {
            Some(value) => value == number * pow2(count as nat),
            None => number * pow2(count as nat) >= pow2(128),
        },
{
    let mut value: u128 = number as u128;
    let mut at: u32 = 0;
    proof {
        lemma2_to64();
        lemma_pow2_adds(64, 64);
        assert(number * pow2(0) == number) by (nonlinear_arith)
            requires
                pow2(0) == 1,
        ;
    }
    while at < count
        invariant
            at <= count,
            value == number * pow2(at as nat),
            pow2(128) == 0x1_0000_0000_0000_0000 * 0x1_0000_0000_0000_0000,
        decreases count - at,
    {
        proof {
            lemma_pow2_unfold((at + 1) as nat);
            assert(2 * value == number * pow2((at + 1) as nat)) by (nonlinear_arith)
                requires
                    value == number * pow2(at as nat),
                    pow2((at + 1) as nat) == 2 * pow2(at as nat),
            ;
            if at + 1 < count {
                lemma_pow2_strictly_increases((at + 1) as nat, count as nat);
            }
            assert(number * pow2((at + 1) as nat) <= number * pow2(count as nat))
                by (nonlinear_arith)
                requires
                    pow2((at + 1) as nat) <= pow2(count as nat),
                    0 <= number,
            ;
        }
        if value >= 0x8000_0000_0000_0000_0000_0000_0000_0000 {
            return None;
        }
        value = 2 * value;
        at = at + 1;
    }
    Some(value)
}

fn percent_to_even(bits: u32) -> (result: Option<u128>)
    requires
        bits < SIGN,
    ensures
        match result {
            Some(value) => value == even_percent(bits) && value < pow2(128),
            None => even_percent(bits) >= pow2(128),
        },
{
    proof {
        lemma2_to64();
        lemma_pow2_adds(64, 64);
    }
    if bits >= WHOLE {
        let number: u64 = hold(100 * (bits % 0x80_0000 + 0x80_0000) as u64);
        return shifted(number, bits / 0x80_0000 - 150);
    }
    let (number, behind) = parts(bits);
    if behind >= 64 {
        proof {
            lemma_far_behind(number as nat, behind as nat);
        }
        return Some(0);
    }
    let divisor: u128 = power(behind);
    Some(double::round_half_even(number as u128, divisor))
}

pub fn write_percent(bits: u32) -> (result: String)
    ensures
        result@ == percent_digits(bits),
{
    let magnitude: u32 = bits % SIGN;
    if magnitude > INFINITE {
        return "NaN".to_owned();
    }
    let number = match percent_to_even(magnitude) {
        Some(value) => text::wide_decimal_of(value),
        None => "inf".to_owned(),
    };
    if bits < SIGN {
        proof {
            reveal_strlit("");
            assert(""@ + number@ =~= number@);
        }
        number
    } else {
        text::cat2("-", number.as_str())
    }
}

pub fn percent_rounded_up(bits: u32) -> (result: u8)
    requires
        bits <= ONE,
    ensures
        result == upper_percent(bits),
{
    let (number, behind) = parts(bits);
    if behind >= 64 {
        proof {
            lemma_far_behind(number as nat, behind as nat);
        }
        return 0;
    }
    let divisor: u128 = power(behind);
    let rounded: u128 = (2 * number as u128 + divisor) / (2 * divisor);
    proof {
        lemma2_to64();
        if behind == 23 {
            assert(divisor == 0x80_0000);
        } else {
            if 24 < behind {
                lemma_pow2_strictly_increases(24, behind as nat);
            }
            assert(divisor >= 0x100_0000);
        }
        assert(rounded <= 200) by (nonlinear_arith)
            requires
                rounded == (2 * number + divisor) / (2 * divisor),
                number <= 200 * divisor,
                0 < divisor,
        ;
    }
    rounded as u8
}

/// How many times a number without a sign holds half of the least one.
pub open spec fn halves(bits: u32) -> nat {
    digits(bits) * pow2(
        if bits < 0x80_0000 {
            1
        } else {
            (bits / 0x80_0000) as nat
        },
    )
}

/// The greater of two numbers without a sign has the greater bits.
pub proof fn law_bits_order_numbers(left: u32, right: u32)
    requires
        left < right < INFINITE,
    ensures
        halves(left) < halves(right),
{
    let l = digits(left);
    let r = digits(right);
    let a = if left < 0x80_0000 {
        1nat
    } else {
        (left / 0x80_0000) as nat
    };
    let b = if right < 0x80_0000 {
        1nat
    } else {
        (right / 0x80_0000) as nat
    };
    lemma_pow2_pos(a);
    lemma_pow2_pos(b);
    if a == b {
        assert(l < r);
        assert(l * pow2(a) < r * pow2(b)) by (nonlinear_arith)
            requires
                l < r,
                0 < pow2(a),
                pow2(a) == pow2(b),
        ;
    } else {
        assert(a < b);
        lemma_doubles(a, b);
        assert(l < 0x100_0000 <= 2 * r);
        assert(l * pow2(a) < r * pow2(b)) by (nonlinear_arith)
            requires
                l < 2 * r,
                2 * pow2(a) <= pow2(b),
                0 < pow2(a),
                0 <= r,
        ;
    }
}

proof fn lemma_doubles(small: nat, large: nat)
    requires
        small < large,
    ensures
        2 * pow2(small) <= pow2(large),
{
    lemma_pow2_unfold(small + 1);
    if small + 1 < large {
        lemma_pow2_strictly_increases(small + 1, large);
    }
}

} // verus!
