//! What sizes and numbers read and are written as.

use crate::double;
use crate::model::Confidence;
use crate::single;
use crate::size;
use crate::size::SizeReading;
use crate::text;
use vstd::arithmetic::power2::{
    lemma2_to64, lemma2_to64_rest, lemma_pow2_adds, lemma_pow2_pos, lemma_pow2_strictly_increases,
    lemma_pow2_unfold, pow2,
};
use vstd::prelude::*;

verus! {

/// A number is written in the digits 0 to 9 without a needless 0 in front, and
/// reads back as itself; a digit more makes ten of what stands before it.
pub proof fn law_decimals_read_back(value: nat)
    ensures
        text::number_of(text::decimal(value)) == value,
        text::decimal(value).len() > 0,
        forall|i: int|
            0 <= i < text::decimal(value).len() ==> '0' <= #[trigger] text::decimal(value)[i]
                <= '9',
        value > 0 ==> text::decimal(value)[0] != '0',
        value < 10 ==> text::decimal(value).len() == 1 && text::decimal(value)[0] as u32 == 48
            + value,
        value >= 10 ==> text::decimal(value).drop_last() == text::decimal(value / 10)
            && text::decimal(value).last() as u32 == 48 + value % 10,
    decreases value,
{
    let all = text::decimal(value);
    if value < 10 {
        let one = seq![text::digit(value)];
        assert(one.drop_last() =~= Seq::<char>::empty());
        assert(text::number_of(Seq::<char>::empty()) == 0);
        assert(text::number_of(one) == 0 * 10 + text::digit_value(one.last()));
    } else {
        law_decimals_read_back(value / 10);
        let front = text::decimal(value / 10);
        assert(all == front.push(text::digit(value % 10)));
        assert(all.drop_last() =~= front);
        assert(value / 10 > 0);
        assert forall|i: int| 0 <= i < all.len() implies '0' <= #[trigger] all[i] <= '9' by {
            if i < front.len() {
                assert(all[i] == front[i]);
            }
        }
        assert(all[0] == front[0]);
    }
}

/// Halving as often as the ones of a whole power of two.
proof fn lemma_lowered_one(number: nat, power: nat) -> (k: nat)
    requires
        number >= pow2(power),
    ensures
        k >= power,
        pow2(k) <= number < pow2(k + 1),
        double::lowered(number, pow2(power)) == (pow2(k), k - power),
    decreases number - pow2(power),
{
    lemma_pow2_pos(power);
    lemma_pow2_unfold(power + 1);
    if number < 2 * pow2(power) {
        power
    } else {
        lemma_lowered_one(number, power + 1)
    }
}

proof fn lemma_spacing_power(number: nat, power: nat) -> (i: nat)
    requires
        number < 9_007_199_254_740_992 * pow2(power),
    ensures
        i <= power,
        double::spacing(number) == pow2(i),
    decreases power,
{
    lemma2_to64();
    if number < double::PRECISION {
        0
    } else if power == 0 {
        assert(9_007_199_254_740_992 * pow2(0) == 9_007_199_254_740_992) by {
            assert(pow2(0) == 1);
        }
        0
    } else {
        lemma_pow2_unfold(power);
        let half = pow2((power - 1) as nat);
        assert(number / 2 < 9_007_199_254_740_992 * half) by (nonlinear_arith)
            requires
                number < 9_007_199_254_740_992 * (2 * half),
        ;
        let i = lemma_spacing_power(number / 2, (power - 1) as nat);
        lemma_pow2_unfold(i + 1);
        i + 1
    }
}

proof fn lemma_exact(count: nat, step: nat)
    requires
        step > 0,
    ensures
        double::half_even(count * step, step) == count,
{
    assert((count * step) / step == count && (count * step) % step == 0) by (nonlinear_arith)
        requires
            step > 0,
    ;
}

/// A number of up to 53 binary digits, with naughts behind it, is a double.
proof fn lemma_whole_exact(number: nat, power: nat)
    requires
        number < 9_007_199_254_740_992,
    ensures
        double::whole_double(number * pow2(power)) == number * pow2(power),
{
    lemma_pow2_pos(power);
    let all = number * pow2(power);
    assert(all < 9_007_199_254_740_992 * pow2(power)) by (nonlinear_arith)
        requires
            number < 9_007_199_254_740_992,
            pow2(power) > 0,
            all == number * pow2(power),
    ;
    let i = lemma_spacing_power(all, power);
    let rest = (power - i) as nat;
    lemma_pow2_adds(i, rest);
    lemma_pow2_pos(i);
    let count = number * pow2(rest);
    assert(all == count * pow2(i)) by (nonlinear_arith)
        requires
            all == number * pow2(power),
            pow2(power) == pow2(i) * pow2(rest),
            count == number * pow2(rest),
    ;
    lemma_exact(count, pow2(i));
}

/// Whole numbers of units are read exactly as long as they have no more than
/// 53 binary digits.
proof fn lemma_scaled(number: nat, unit: nat)
    requires
        unit >= 1,
        number * unit < 9_007_199_254_740_992,
    ensures
        size::scaled_bytes(number, 1, unit) == Some(number * unit),
        !size::is_infinite(number, 1),
{
    lemma2_to64();
    lemma2_to64_rest();
    if number == 0 {
        assert(0 * unit == 0);
    } else {
        assert(number <= number * unit) by (nonlinear_arith)
            requires
                unit >= 1,
        ;
        let k = lemma_lowered_one(number, 0);
        assert(pow2(0) == 1);
        assert(k <= 52) by {
            if k > 52 {
                lemma_pow2_strictly_increases(52, k);
                lemma_pow2_unfold(53);
                if k > 53 {
                    lemma_pow2_strictly_increases(53, k);
                }
            }
        }
        let value = double::nearest(number, 1);
        let power = (52 - k) as nat;
        lemma_pow2_adds(k, power);
        lemma_pow2_pos(k);
        lemma_pow2_pos(power);
        let mantissa = number * pow2(power);
        assert(number * pow2(52) == mantissa * pow2(k)) by (nonlinear_arith)
            requires
                pow2(52) == pow2(k) * pow2(power),
                mantissa == number * pow2(power),
        ;
        lemma_exact(mantissa, pow2(k));
        assert(value.mantissa == mantissa);
        assert(value.exponent == k - 52);
        let bytes = number * unit;
        assert(mantissa * unit == bytes * pow2(power)) by (nonlinear_arith)
            requires
                mantissa == number * pow2(power),
                bytes == number * unit,
        ;
        lemma_whole_exact(bytes, power);
        let product = bytes * pow2(power);
        if value.exponent >= 0 {
            assert(power == 0);
            assert(product * pow2(0) == bytes) by {
                assert(bytes * 1 * 1 == bytes);
            }
        } else {
            let parts = pow2(power);
            assert(product / parts == bytes) by (nonlinear_arith)
                requires
                    product == bytes * parts,
                    parts > 0,
            ;
            assert(product <= pow2(64) * parts) by (nonlinear_arith)
                requires
                    product == bytes * parts,
                    bytes <= pow2(64),
                    parts > 0,
            ;
        }
    }
}

/// How many bytes a unit stands for: with `i` powers of 1024, without it
/// powers of 1000, and without a unit single bytes.
pub open spec fn unit_stands_for(unit: Seq<char>, bytes: nat) -> bool {
    ||| unit == ""@ && bytes == 1
    ||| unit == "b"@ && bytes == 1
    ||| unit == "kb"@ && bytes == 1000
    ||| unit == "mb"@ && bytes == 1000 * 1000
    ||| unit == "gb"@ && bytes == 1000 * 1000 * 1000
    ||| unit == "tb"@ && bytes == 1000 * 1000 * 1000 * 1000
    ||| unit == "kib"@ && bytes == 1024
    ||| unit == "mib"@ && bytes == 1024 * 1024
    ||| unit == "gib"@ && bytes == 1024 * 1024 * 1024
    ||| unit == "tib"@ && bytes == 1024 * 1024 * 1024 * 1024
}

proof fn lemma_unit(unit: Seq<char>, bytes: nat)
    requires
        unit_stands_for(unit, bytes),
    ensures
        size::multiplier(unit) == Some(bytes),
        bytes >= 1,
        text::lowered(unit) == unit,
        text::trimmed(unit) == unit,
        unit.len() > 0 ==> !('0' <= unit[0] <= '9') && unit[0] != '.' && !text::is_blank(
            unit[0],
        ) && !text::is_blank(unit.last()),
{
    reveal_strlit("");
    reveal_strlit("b");
    reveal_strlit("kb");
    reveal_strlit("mb");
    reveal_strlit("gb");
    reveal_strlit("tb");
    reveal_strlit("kib");
    reveal_strlit("mib");
    reveal_strlit("gib");
    reveal_strlit("tib");
    assert(""@.len() == 0);
    assert("b"@[0] == 'b' && "b"@.len() == 1);
    assert("kb"@[0] == 'k' && "kb"@[1] == 'b' && "kb"@.len() == 2);
    assert("mb"@[0] == 'm' && "mb"@[1] == 'b' && "mb"@.len() == 2);
    assert("gb"@[0] == 'g' && "gb"@[1] == 'b' && "gb"@.len() == 2);
    assert("tb"@[0] == 't' && "tb"@[1] == 'b' && "tb"@.len() == 2);
    assert("kib"@[0] == 'k' && "kib"@[1] == 'i' && "kib"@[2] == 'b' && "kib"@.len() == 3);
    assert("mib"@[0] == 'm' && "mib"@[1] == 'i' && "mib"@[2] == 'b' && "mib"@.len() == 3);
    assert("gib"@[0] == 'g' && "gib"@[1] == 'i' && "gib"@[2] == 'b' && "gib"@.len() == 3);
    assert("tib"@[0] == 't' && "tib"@[1] == 'i' && "tib"@[2] == 'b' && "tib"@.len() == 3);
    assert(text::lowered(unit) =~= unit);
    if unit.len() == 0 {
        assert(text::trimmed(unit) =~= unit);
    }
}

proof fn lemma_number_length(front: Seq<char>, rest: Seq<char>)
    requires
        forall|i: int| 0 <= i < front.len() ==> '0' <= #[trigger] front[i] <= '9',
        rest.len() > 0 ==> !('0' <= rest[0] <= '9') && rest[0] != '.',
    ensures
        size::number_length(front + rest) == front.len(),
    decreases front.len(),
{
    let all = front + rest;
    if front.len() == 0 {
        assert(all =~= rest);
    } else {
        assert(all[0] == front[0]);
        assert('0' <= front[0] <= '9');
        let shorter = front.drop_first();
        assert forall|i: int| 0 <= i < shorter.len() implies '0' <= #[trigger] shorter[i]
            <= '9' by {
            assert(shorter[i] == front[i + 1]);
        }
        assert(all.drop_first() =~= shorter + rest);
        lemma_number_length(shorter, rest);
    }
}

proof fn lemma_split_none(number: Seq<char>)
    requires
        forall|i: int| 0 <= i < number.len() ==> '0' <= #[trigger] number[i] <= '9',
    ensures
        text::split(number, '.') == seq![number],
    decreases number.len(),
{
    if number.len() == 0 {
        assert(number =~= Seq::<char>::empty());
    } else {
        let shorter = number.drop_last();
        assert forall|i: int| 0 <= i < shorter.len() implies '0' <= #[trigger] shorter[i]
            <= '9' by {
            assert(shorter[i] == number[i]);
        }
        lemma_split_none(shorter);
        assert('0' <= number[number.len() - 1] <= '9');
        assert(seq![shorter].update(0, shorter.push(number.last())) =~= seq![number]) by {
            assert(shorter.push(number.last()) =~= number);
        }
    }
}

/// A whole number with a unit behind it, in small letters or capitals, is read
/// as so many times the unit, as long as that has no more than 53 binary
/// digits.
pub proof fn law_sizes_are_read_in_their_units(number: nat, unit: Seq<char>, bytes: nat, given: Seq<char>)
    requires
        unit_stands_for(unit, bytes),
        number * bytes < 9_007_199_254_740_992,
        text::lowered(text::trimmed(given)) == text::decimal(number) + unit,
    ensures
        size::size_result(given) == Ok::<nat, Seq<char>>(number * bytes),
{
    let digits = text::decimal(number);
    let all = digits + unit;
    law_decimals_read_back(number);
    lemma_unit(unit, bytes);
    lemma_number_length(digits, unit);
    assert(all.take(digits.len() as int) =~= digits);
    assert(all.skip(digits.len() as int) =~= unit);
    lemma_split_none(digits);
    let none = Seq::<char>::empty();
    assert(digits + none =~= digits);
    assert(double::ten_to(0) == 1);
    lemma_scaled(number, bytes);
    assert(size::size_reading(given) == SizeReading::Bytes(number * bytes));
}

/// What no number begins is no size, and a number with something behind it
/// that is no unit is refused for that.
pub proof fn law_what_is_no_size_is_refused(
    number: nat,
    rest: Seq<char>,
    given: Seq<char>,
    other: Seq<char>,
)
    requires
        number < 9_007_199_254_740_992,
        text::lowered(text::trimmed(given)) == text::decimal(number) + rest,
        rest.len() > 0,
        !('0' <= rest[0] <= '9'),
        rest[0] != '.',
        forall|bytes: nat| !(#[trigger] unit_stands_for(text::trimmed(rest), bytes)),
        ({
            let plain = text::lowered(text::trimmed(other));
            plain.len() == 0 || (!('0' <= plain[0] <= '9') && plain[0] != '.')
        }),
    ensures
        size::size_result(given) == Err::<nat, Seq<char>>("unknown size suffix in: "@ + given),
        size::size_result(other) == Err::<nat, Seq<char>>("invalid size: "@ + other),
{
    let digits = text::decimal(number);
    let all = digits + rest;
    law_decimals_read_back(number);
    lemma_number_length(digits, rest);
    assert(all.take(digits.len() as int) =~= digits);
    assert(all.skip(digits.len() as int) =~= rest);
    lemma_split_none(digits);
    let none = Seq::<char>::empty();
    assert(digits + none =~= digits);
    assert(double::ten_to(0) == 1);
    assert(number * 1 == number);
    lemma_scaled(number, 1);
    let unit = text::trimmed(rest);
    if size::multiplier(unit) is Some {
        assert(unit_stands_for(unit, size::multiplier(unit)->Some_0));
    }
    let plain = text::lowered(text::trimmed(other));
    assert(size::number_length(plain) == 0);
    assert(plain.take(0) =~= none);
    assert(text::split(none, '.') =~= seq![none]);
}

/// The unit in which so many bytes are written: the largest that is no more
/// than they are.
pub open spec fn is_unit_of(bytes: nat, unit: nat, name: Seq<char>) -> bool {
    ||| 1024 <= bytes < 1024 * 1024 && unit == 1024 && name == "KiB"@
    ||| 1024 * 1024 <= bytes < 1024 * 1024 * 1024 && unit == 1024 * 1024 && name == "MiB"@
    ||| 1024 * 1024 * 1024 <= bytes < 1024 * 1024 * 1024 * 1024 && unit == 1024 * 1024 * 1024
        && name == "GiB"@
    ||| 1024 * 1024 * 1024 * 1024 <= bytes && unit == 1024 * 1024 * 1024 * 1024 && name == "TiB"@
}

/// Bytes are written in single ones below 1024, and else in the nearest tenth
/// of the largest unit that they fill, as long as they have no more than 53
/// binary digits.
pub proof fn law_bytes_are_written_in_their_largest_unit(bytes: nat, unit: nat, name: Seq<char>)
    requires
        bytes < 9_007_199_254_740_992,
    ensures
        bytes < 1024 ==> size::bytes_text(bytes) == text::decimal(bytes) + " B"@,
        is_unit_of(bytes, unit, name) ==> exists|tenths: nat|
            {
                &&& size::bytes_text(bytes) == #[trigger] text::decimal(tenths / 10) + "."@
                    + text::decimal(tenths % 10) + " "@ + name
                &&& 2 * (10 * bytes - tenths * unit) <= unit
                &&& 2 * (tenths * unit - 10 * bytes) <= unit
            },
{
    lemma2_to64();
    lemma_whole_exact(bytes, 0);
    assert(bytes * pow2(0) == bytes) by {
        assert(pow2(0) == 1);
        assert(bytes * 1 == bytes);
    }
    if is_unit_of(bytes, unit, name) {
        let tenths = double::half_even(10 * bytes, unit);
        let whole = (10 * bytes) / unit;
        let rest = (10 * bytes) % unit;
        assert(10 * bytes == whole * unit + rest && 0 <= rest < unit) by (nonlinear_arith)
            requires
                unit > 0,
                whole == (10 * bytes) / unit,
                rest == (10 * bytes) % unit,
        ;
        assert((whole + 1) * unit == whole * unit + unit) by (nonlinear_arith);
        assert(size::unit_bytes(size::unit_power(bytes)) == unit);
        assert(size::bytes_text(bytes) == text::decimal(tenths / 10) + "."@ + text::decimal(
            tenths % 10,
        ) + " "@ + name);
    }
}

/// The age of a moment is told in whole minutes up to an hour, in whole hours
/// up to a day, and else in whole days; under a minute it is just now.
pub proof fn law_ages_are_told_in_whole_units(moment: nat, now: nat, count: nat)
    ensures
        now < moment + 60 ==> size::age_text(moment, now) == "just now"@,
        1 <= count < 60 && moment + 60 * count <= now < moment + 60 * (count + 1)
            ==> size::age_text(moment, now) == text::decimal(count) + " minutes ago"@,
        1 <= count < 24 && moment + 3600 * count <= now < moment + 3600 * (count + 1)
            ==> size::age_text(moment, now) == text::decimal(count) + " hours ago"@,
        1 <= count && moment + 86400 * count <= now < moment + 86400 * (count + 1)
            ==> size::age_text(moment, now) == text::decimal(count) + " days ago"@,
{
}

proof fn lemma_spelled(number: nat)
    ensures
        text::spelled_number(text::decimal(number)) == Some(number),
{
    law_decimals_read_back(number);
    let digits = text::decimal(number);
    assert(digits[0] != '+');
}

/// The evidence of a large item and of a directory is told with its bytes
/// written for reading.
pub proof fn law_evidence_is_told_with_readable_sizes(bytes: nat)
    requires
        bytes <= u64::MAX,
    ensures
        size::humanized(
            "Item is at least "@ + text::decimal(bytes)
                + " bytes, the configured large-item threshold"@,
        ) == "Larger than the configured "@ + size::bytes_text(bytes) + " threshold"@,
        size::humanized("Directory occupies "@ + text::decimal(bytes) + " bytes"@)
            == "Folder contains "@ + size::bytes_text(bytes) + " of data"@,
{
    let digits = text::decimal(bytes);
    lemma_spelled(bytes);
    lemma_between("Item is at least "@, digits, " bytes, the configured large-item threshold"@);
    lemma_between("Directory occupies "@, digits, " bytes"@);
    let front = "Item is at least "@;
    let line = "Directory occupies "@ + digits + " bytes"@;
    reveal_strlit("Item is at least ");
    reveal_strlit("Directory occupies ");
    assert(!text::starts(line, front)) by {
        if text::starts(line, front) {
            assert(line.take(front.len() as int)[0] == front[0]);
            assert(line[0] == "Directory occupies "@[0]);
        }
    }
}

proof fn lemma_between(front: Seq<char>, middle: Seq<char>, back: Seq<char>)
    ensures
        ({
            let all = front + middle + back;
            &&& text::starts(all, front)
            &&& text::ends(all.skip(front.len() as int), back)
            &&& all.subrange(front.len() as int, all.len() - back.len()) == middle
        }),
{
    let all = front + middle + back;
    assert(all.take(front.len() as int) =~= front);
    let rest = all.skip(front.len() as int);
    assert(rest =~= middle + back);
    assert(rest.skip(rest.len() - back.len()) =~= back);
    assert(all.subrange(front.len() as int, all.len() - back.len()) =~= middle);
}

/// How far two numbers lie apart.
pub open spec fn apart(left: int, right: int) -> int {
    if left < right {
        right - left
    } else {
        left - right
    }
}

proof fn lemma_half_even(number: nat, unit: nat)
    requires
        0 < unit,
    ensures
        2 * apart((double::half_even(number, unit) * unit) as int, number as int) <= unit,
{
    let whole = number / unit;
    let left = number % unit;
    vstd::arithmetic::div_mod::lemma_fundamental_div_mod(number as int, unit as int);
    assert(whole * unit + left == number) by (nonlinear_arith)
        requires
            number == unit * whole + left,
    ;
    assert((whole + 1) * unit == whole * unit + unit) by (nonlinear_arith);
}

proof fn lemma_spacing(number: nat)
    ensures
        0 < single::spacing(number),
    decreases number,
{
    if number >= single::PRECISION {
        lemma_spacing(number / 2);
    }
}

/// A degree of confidence from none to full is told in the percent that lies nearest
/// to it, but for what the hundredfold of it loses in its last place: neither what is
/// told nor what a model is given lies further from it than half a percent and half
/// that place.
pub proof fn law_confidence_is_told_in_the_nearest_percent(confidence: Confidence)
    requires
        confidence.bits <= 0x3F80_0000,
    ensures
        ({
            let bits = confidence.bits;
            let one = pow2(single::places(bits)) as int;
            let hundred = 100 * single::digits(bits) as int;
            let lost = single::spacing((100 * single::digits(bits)) as nat) as int;
            &&& exists|percent: nat|
                {
                    &&& confidence.spec_percent() == #[trigger] text::decimal(percent)
                    &&& 2 * apart(percent * one, hundred) <= one + lost
                }
            &&& 2 * apart(confidence.spec_rounded_percent() * one, hundred) <= one + lost
        }),
{
    let bits = confidence.bits;
    let one = pow2(single::places(bits));
    let hundred = (100 * single::digits(bits)) as nat;
    let lost = single::spacing(hundred);
    let kept = single::held(hundred);
    lemma_pow2_pos(single::places(bits));
    lemma_spacing(hundred);
    lemma_half_even(hundred, lost);
    lemma_half_even(kept, one);
    let percent = single::even_percent(bits);
    assert(bits % single::SIGN == bits);
    lemma_pow2_pos(128);
    assert(percent == double::half_even(kept, one));
    lemma_percent_is_small(bits);
    assert(confidence.spec_percent() =~= text::decimal(percent)) by {
        reveal_strlit("");
    }
    let upper = confidence.spec_rounded_percent();
    assert(confidence.bounded() == bits);
    assert(upper == (2 * kept + one) / (2 * one));
    vstd::arithmetic::div_mod::lemma_fundamental_div_mod((2 * kept + one) as int, (2 * one) as int);
    let rest = (2 * kept + one) % (2 * one);
    assert(2 * (upper * one) + rest == 2 * kept + one) by (nonlinear_arith)
        requires
            2 * kept + one == (2 * one) * upper + rest,
    ;
    assert(0 <= rest < 2 * one);
}

proof fn lemma_percent_is_small(bits: u32)
    requires
        bits <= 0x3F80_0000,
    ensures
        single::even_percent(bits) < pow2(128),
{
    let one = pow2(single::places(bits));
    let hundred = (100 * single::digits(bits)) as nat;
    let lost = single::spacing(hundred);
    let kept = single::held(hundred);
    lemma_pow2_pos(single::places(bits));
    lemma_spacing(hundred);
    lemma_spacing_is_small(hundred);
    lemma_half_even(hundred, lost);
    assert(kept <= 2 * hundred + 2);
    assert(hundred < 100 * 0x100_0000);
    assert(double::half_even(kept, one) <= kept + 1) by {
        lemma_half_even(kept, one);
        let percent = double::half_even(kept, one);
        assert(percent <= kept / one + 1);
        assert(kept / one <= kept) by (nonlinear_arith)
            requires
                0 < one,
                0 <= kept,
        ;
    }
    lemma2_to64();
    lemma_pow2_strictly_increases(64, 128);
}

proof fn lemma_spacing_is_small(number: nat)
    ensures
        single::spacing(number) <= number + 1,
{
    if number >= single::PRECISION {
        lemma_spacing_is_less(number);
    }
}

proof fn lemma_spacing_is_less(number: nat)
    requires
        number >= single::PRECISION,
    ensures
        single::spacing(number) <= number,
    decreases number,
{
    reveal_with_fuel(single::spacing, 2);
    if number / 2 >= single::PRECISION {
        lemma_spacing_is_less(number / 2);
    }
}

} // verus!
