//! Counts and sizes as they are written and read.

use crate::double;
use crate::double::Nearest;
use crate::text;
use vstd::arithmetic::power2::{
    lemma2_to64, lemma_pow2_adds, lemma_pow2_pos, lemma_pow2_strictly_increases, pow2,
};
use vstd::prelude::*;

verus! {

/// A count with a comma before every three digits from the right.
pub open spec fn count_text(value: nat) -> Seq<char>
    decreases value,
{
    if value < 1_000 {
        text::decimal(value)
    } else {
        count_text(value / 1_000) + ","@ + three_digits(value % 1_000)
    }
}

/// A number below a thousand in three digits.
pub open spec fn three_digits(value: nat) -> Seq<char> {
    seq![text::digit(value / 100), text::digit(value / 10 % 10), text::digit(value % 10)]
}

fn digit_char(value: u64) -> (result: char)
    requires
        value <= 9,
    ensures
        result == text::digit(value as nat),
{
    (48 + value as u8) as char
}

pub fn format_count(value: u64) -> (result: String)
    ensures
        result@ == count_text(value as nat),
    decreases value,
{
    if value < 1_000 {
        text::decimal_of(value)
    } else {
        let mut result = format_count(value / 1_000);
        let rest: u64 = value % 1_000;
        result.push(',');
        result.push(digit_char(rest / 100));
        result.push(digit_char(rest / 10 % 10));
        result.push(digit_char(rest % 10));
        proof {
            reveal_strlit(",");
            assert(result@ =~= count_text((value / 1_000) as nat) + ","@ + three_digits(
                rest as nat,
            ));
        }
        result
    }
}

/// The largest unit that a size reaches: its power of 1024, at most 4.
pub open spec fn unit_power(bytes: nat) -> nat {
    if bytes < 1_024 {
        0
    } else if bytes < 1_048_576 {
        1
    } else if bytes < 1_073_741_824 {
        2
    } else if bytes < 1_099_511_627_776 {
        3
    } else {
        4
    }
}

pub open spec fn unit_bytes(power: nat) -> nat {
    if power == 0 {
        1
    } else if power == 1 {
        1_024
    } else if power == 2 {
        1_048_576
    } else if power == 3 {
        1_073_741_824
    } else {
        1_099_511_627_776
    }
}

pub open spec fn unit_name(power: nat) -> Seq<char> {
    if power == 0 {
        "B"@
    } else if power == 1 {
        "KiB"@
    } else if power == 2 {
        "MiB"@
    } else if power == 3 {
        "GiB"@
    } else {
        "TiB"@
    }
}

/// A size in the largest unit it reaches, with one decimal place from
/// kibibytes on. The size is held as a double, and a half of a tenth is
/// rounded to the even one.
pub open spec fn bytes_text(bytes: nat) -> Seq<char> {
    let held = double::whole_double(bytes);
    let power = unit_power(held);
    if power == 0 {
        text::decimal(bytes) + " B"@
    } else {
        let tenths = double::half_even(10 * held, unit_bytes(power));
        text::decimal(tenths / 10) + "."@ + text::decimal(tenths % 10) + " "@ + unit_name(power)
    }
}

pub fn format_bytes(bytes: u64) -> (result: String)
    ensures
        result@ == bytes_text(bytes as nat),
{
    let held: u128 = double::round_whole(bytes as u128);
    if held < 1_024 {
        return text::cat2(text::decimal_of(bytes).as_str(), " B");
    }
    let (unit, name): (u128, &'static str) = if held < 1_048_576 {
        (1_024, "KiB")
    } else if held < 1_073_741_824 {
        (1_048_576, "MiB")
    } else if held < 1_099_511_627_776 {
        (1_073_741_824, "GiB")
    } else {
        (1_099_511_627_776, "TiB")
    };
    let tenths: u128 = double::round_half_even(10 * held, unit);
    proof {
        assert(10 * held / (unit as int) <= 10 * held / 1_024) by (nonlinear_arith)
            requires
                1_024 <= unit,
                0 <= held,
        ;
    }
    let small: u64 = tenths as u64;
    text::cat5(
        text::decimal_of(small / 10).as_str(),
        ".",
        text::decimal_of(small % 10).as_str(),
        " ",
        name,
    )
}

/// How many characters from the front on are digits or points.
pub open spec fn number_length(characters: Seq<char>) -> nat
    decreases characters.len(),
{
    if characters.len() > 0 && ('0' <= characters[0] <= '9' || characters[0] == '.') {
        1 + number_length(characters.drop_first())
    } else {
        0
    }
}

fn number_end(characters: &[char]) -> (result: usize)
    ensures
        result == number_length(characters@),
        result <= characters@.len(),
        forall|i: int|
            0 <= i < result ==> '0' <= #[trigger] characters@[i] <= '9' || characters@[i] == '.',
{
    let mut at: usize = 0;
    assert(characters@.skip(0) =~= characters@);
    while at < characters.len() && ((characters[at] >= '0' && characters[at] <= '9')
        || characters[at] == '.')
        invariant
            at <= characters@.len(),
            number_length(characters@) == at + number_length(characters@.skip(at as int)),
            forall|i: int|
                0 <= i < at ==> '0' <= #[trigger] characters@[i] <= '9' || characters@[i] == '.',
        decreases characters@.len() - at,
    {
        assert(characters@.skip(at as int).drop_first() =~= characters@.skip(at + 1));
        at = at + 1;
    }
    at
}

/// The digits before and behind the point of a number, where it has at most
/// one point and at least one digit.
pub open spec fn decimal_parts(number: Seq<char>) -> Option<(Seq<char>, Seq<char>)> {
    let pieces = text::split(number, '.');
    if pieces.len() == 1 && pieces[0].len() > 0 {
        Some((pieces[0], Seq::empty()))
    } else if pieces.len() == 2 && pieces[0].len() + pieces[1].len() > 0 {
        Some((pieces[0], pieces[1]))
    } else {
        None
    }
}

/// How many bytes the unit of a size stands for.
pub open spec fn multiplier(suffix: Seq<char>) -> Option<nat> {
    if suffix == ""@ || suffix == "b"@ {
        Some(1)
    } else if suffix == "kb"@ {
        Some(1_000)
    } else if suffix == "mb"@ {
        Some(1_000_000)
    } else if suffix == "gb"@ {
        Some(1_000_000_000)
    } else if suffix == "tb"@ {
        Some(1_000_000_000_000)
    } else if suffix == "kib"@ {
        Some(1_024)
    } else if suffix == "mib"@ {
        Some(1_048_576)
    } else if suffix == "gib"@ {
        Some(1_073_741_824)
    } else if suffix == "tib"@ {
        Some(1_099_511_627_776)
    } else {
        None
    }
}

fn multiplier_of(suffix: &str) -> (result: Option<u64>)
    ensures
        match result {
            Some(value) => multiplier(suffix@) == Some(value as nat) && 1 <= value
                <= 1_099_511_627_776,
            None => multiplier(suffix@) is None,
        },
{
    if text::same_text(suffix, "") || text::same_text(suffix, "b") {
        Some(1)
    } else if text::same_text(suffix, "kb") {
        Some(1_000)
    } else if text::same_text(suffix, "mb") {
        Some(1_000_000)
    } else if text::same_text(suffix, "gb") {
        Some(1_000_000_000)
    } else if text::same_text(suffix, "tb") {
        Some(1_000_000_000_000)
    } else if text::same_text(suffix, "kib") {
        Some(1_024)
    } else if text::same_text(suffix, "mib") {
        Some(1_048_576)
    } else if text::same_text(suffix, "gib") {
        Some(1_073_741_824)
    } else if text::same_text(suffix, "tib") {
        Some(1_099_511_627_776)
    } else {
        None
    }
}

/// Whether a double lies beyond all finite ones.
pub open spec fn is_infinite(number: nat, divisor: nat) -> bool {
    let value = double::nearest(number, divisor);
    number > 0 && (value.exponent > 971 || (value.exponent == 971 && value.mantissa == pow2(53)))
}

/// A fraction times a unit in bytes, worked out in doubles, the part of a byte
/// cut off. Nothing where that is more than two to the power of 64, and the
/// largest size where it is just that.
pub open spec fn scaled_bytes(number: nat, divisor: nat, unit: nat) -> Option<nat> {
    if number == 0 {
        Some(0)
    } else {
        let value = double::nearest(number, divisor);
        let product = double::whole_double(value.mantissa * unit);
        if value.exponent >= 0 {
            let bytes = product * pow2(value.exponent as nat);
            if bytes > pow2(64) {
                None
            } else {
                Some(at_most_largest(bytes))
            }
        } else {
            let parts = pow2((-value.exponent) as nat);
            if product > pow2(64) * parts {
                None
            } else {
                Some(at_most_largest(product / parts))
            }
        }
    }
}

pub open spec fn at_most_largest(bytes: nat) -> nat {
    if bytes > u64::MAX {
        u64::MAX as nat
    } else {
        bytes
    }
}

/// What became of reading a size.
pub enum SizeReading {
    Invalid,
    UnknownSuffix,
    TooLarge,
    Bytes(nat),
}

/// The size that a text spells: a number, and a unit behind it.
pub open spec fn size_reading(input: Seq<char>) -> SizeReading {
    let normalized = text::lowered(text::trimmed(input));
    let length = number_length(normalized) as int;
    match decimal_parts(normalized.take(length)) {
        None => SizeReading::Invalid,
        Some((whole, fraction)) => {
            let number = text::number_of(whole + fraction);
            let divisor = double::ten_to(fraction.len());
            if is_infinite(number, divisor) {
                SizeReading::Invalid
            } else {
                match multiplier(text::trimmed(normalized.skip(length))) {
                    None => SizeReading::UnknownSuffix,
                    Some(unit) => match scaled_bytes(number, divisor, unit) {
                        None => SizeReading::TooLarge,
                        Some(bytes) => SizeReading::Bytes(bytes),
                    },
                }
            }
        },
    }
}

/// What a reading is reported as.
pub open spec fn size_result(input: Seq<char>) -> Result<nat, Seq<char>> {
    match size_reading(input) {
        SizeReading::Invalid => Err("invalid size: "@ + input),
        SizeReading::UnknownSuffix => Err("unknown size suffix in: "@ + input),
        SizeReading::TooLarge => Err("size is too large: "@ + input),
        SizeReading::Bytes(bytes) => Ok(bytes),
    }
}

proof fn lemma_pieces_are_digits(number: Seq<char>)
    requires
        forall|i: int|
            0 <= i < number.len() ==> '0' <= #[trigger] number[i] <= '9' || number[i] == '.',
    ensures
        forall|k: int|
            0 <= k < text::split(number, '.').len() ==> text::all_digits(
                #[trigger] text::split(number, '.')[k],
            ),
        forall|k: int|
            0 <= k < text::split(number, '.').len() ==> (#[trigger] text::split(
                number,
                '.',
            )[k]).len() <= number.len(),
    decreases number.len(),
{
    text::lemma_split_nonempty(number, '.');
    if number.len() > 0 {
        let shorter = number.drop_last();
        assert forall|i: int| 0 <= i < shorter.len() implies '0' <= #[trigger] shorter[i] <= '9'
            || shorter[i] == '.' by {
            assert(shorter[i] == number[i]);
        }
        lemma_pieces_are_digits(shorter);
        text::lemma_split_nonempty(shorter, '.');
        let before = text::split(shorter, '.');
        let after = text::split(number, '.');
        assert forall|k: int| 0 <= k < after.len() implies text::all_digits(#[trigger] after[k])
            && after[k].len() <= number.len() by {
            if number.last() == '.' {
                if k < before.len() {
                    assert(after[k] == before[k]);
                }
            } else if k == before.len() - 1 {
                assert(text::all_digits(before[k]));
                assert(after[k] == before[k].push(number.last()));
                assert(number[number.len() - 1] == number.last());
            } else {
                assert(after[k] == before[k]);
            }
        }
    }
}

/// Two to a power that is not large.
fn power_of_two(power: u32) -> (result: u128)
    requires
        power <= 126,
    ensures
        result == pow2(power as nat),
{
    let mut result: u128 = 1;
    let mut at: u32 = 0;
    proof {
        lemma2_to64();
    }
    while at < power
        invariant
            at <= power <= 126,
            result == pow2(at as nat),
        decreases power - at,
    {
        proof {
            lemma_pow2_adds(at as nat, 1);
            lemma2_to64();
            lemma_pow2_strictly_increases(at as nat, 126);
            assert(pow2(126) == 0x4000_0000_0000_0000_0000_0000_0000_0000) by {
                vstd::arithmetic::power2::lemma2_to64_rest();
                lemma_pow2_adds(63, 63);
            }
        }
        result = 2 * result;
        at = at + 1;
    }
    result
}

/// A mantissa of full precision times two to the power of an exponent, in
/// bytes of a unit.
fn scale_double(mantissa: u64, exponent: i64, unit: u64) -> (result: Option<u64>)
    requires
        pow2(52) <= mantissa <= pow2(53),
        -452 <= exponent <= 1_048,
        1 <= unit <= 1_099_511_627_776,
    ensures
        ({
            let product = double::whole_double(mantissa as nat * unit as nat);
            if exponent >= 0 {
                let bytes = product * pow2(exponent as nat);
                match result {
                    Some(value) => bytes <= pow2(64) && value == at_most_largest(bytes),
                    None => bytes > pow2(64),
                }
            } else {
                let parts = pow2((-exponent) as nat);
                match result {
                    Some(value) => product <= pow2(64) * parts && value == at_most_largest(
                        product / parts,
                    ),
                    None => product > pow2(64) * parts,
                }
            }
        }),
{
    proof {
        vstd::arithmetic::power2::lemma2_to64();
        vstd::arithmetic::power2::lemma2_to64_rest();
        assert(mantissa * unit <= 0x20_0000_0000_0000 * 0x100_0000_0000) by (nonlinear_arith)
            requires
                mantissa <= 0x20_0000_0000_0000,
                1 <= unit <= 0x100_0000_0000,
        ;
        assert(0x10_0000_0000_0000 <= mantissa * unit) by (nonlinear_arith)
            requires
                0x10_0000_0000_0000 <= mantissa,
                1 <= unit,
        ;
    }
    let exact: u128 = mantissa as u128 * unit as u128;
    let product: u128 = double::round_whole(exact);
    proof {
        double::lemma_whole_double_least(exact as nat);
    }
    let limit: u128 = 0x1_0000_0000_0000_0000;
    if exponent >= 0 {
        if exponent > 12 {
            proof {
                let scale = pow2(exponent as nat);
                lemma_pow2_strictly_increases(12, exponent as nat);
                assert(product * scale > 0x10_0000_0000_0000 * 0x1000) by (nonlinear_arith)
                    requires
                        product >= 0x10_0000_0000_0000,
                        scale > 0x1000,
                ;
            }
            return None;
        }
        let scale: u128 = power_of_two(exponent as u32);
        proof {
            if exponent < 12 {
                lemma_pow2_strictly_increases(exponent as nat, 12);
            }
            assert(product * scale <= 0x40_0000_0000_0000_0000_0000_0000 * 0x1000)
                by (nonlinear_arith)
                requires
                    product <= 0x40_0000_0000_0000_0000_0000_0000,
                    scale <= 0x1000,
            ;
        }
        let bytes: u128 = product * scale;
        if bytes > limit {
            None
        } else if bytes == limit {
            Some(u64::MAX)
        } else {
            Some(bytes as u64)
        }
    } else {
        let power: i64 = -exponent;
        if power > 120 {
            proof {
                let parts = pow2(power as nat);
                lemma_pow2_strictly_increases(120, power as nat);
                assert(pow2(120) == 0x100_0000_0000_0000_0000_0000_0000_0000) by {
                    lemma_pow2_adds(60, 60);
                }
                assert((product as nat) / parts == 0) by (nonlinear_arith)
                    requires
                        (product as nat) < parts,
                ;
                assert(0x1_0000_0000_0000_0000 * parts >= parts) by (nonlinear_arith);
            }
            return Some(0);
        }
        let parts: u128 = power_of_two(power as u32);
        proof {
            lemma_pow2_pos(power as nat);
        }
        let whole: u128 = product / parts;
        let rest: u128 = product % parts;
        proof {
            assert(product == whole * parts + rest) by (nonlinear_arith)
                requires
                    whole == product / parts,
                    rest == product % parts,
                    0 < parts,
            ;
            assert(whole > limit ==> product > limit * parts) by (nonlinear_arith)
                requires
                    product == whole * parts + rest,
                    0 <= rest,
                    0 < parts,
            ;
            assert(whole < limit ==> product <= limit * parts) by (nonlinear_arith)
                requires
                    product == whole * parts + rest,
                    rest < parts,
                    0 < parts,
            ;
        }
        if whole > limit || (whole == limit && rest > 0) {
            None
        } else if whole == limit {
            Some(u64::MAX)
        } else {
            Some(whole as u64)
        }
    }
}

/// Reads a size such as `100MB` or `1.5GiB`.
pub fn parse_size(input: &str) -> (result: Result<u64, String>)
    ensures
        match result {
            Ok(bytes) => size_result(input@) == Ok::<nat, Seq<char>>(bytes as nat),
            Err(message) => size_result(input@) == Err::<nat, Seq<char>>(message@),
        },
{
    let normalized = text::lower(text::trim(input).as_str());
    let characters = text::chars_of(normalized.as_str());
    let length: usize = number_end(characters.as_slice());
    let number = text::string_between(characters.as_slice(), 0, length);
    let number_chars = text::chars_of(number.as_str());
    let suffix = text::string_between(characters.as_slice(), length, characters.len());
    assert(number_chars@ =~= characters@.take(length as int));
    assert(suffix@ =~= characters@.skip(length as int));
    let pieces = text::split_chars(number_chars.as_slice(), '.');
    let ghost all = text::split(number_chars@, '.');
    proof {
        lemma_pieces_are_digits(number_chars@);
        assert(all == crate::order::views(pieces@));
        if pieces@.len() > 0 {
            assert(all[0] == pieces@[0]@);
        }
        if pieces@.len() > 1 {
            assert(all[1] == pieces@[1]@);
        }
    }
    let empty: Vec<char> = Vec::new();
    let one = pieces.len() == 1 && pieces[0].len() > 0;
    let two = pieces.len() == 2 && (pieces[0].len() > 0 || pieces[1].len() > 0);
    if !one && !two {
        return Err(text::cat2("invalid size: ", input));
    }
    let whole = &pieces[0];
    let fraction = if one {
        &empty
    } else {
        &pieces[1]
    };
    proof {
        if one {
            assert(fraction@ =~= Seq::<char>::empty());
        } else {
            lemma_two_pieces(number_chars@);
        }
    }
    let ghost value = text::number_of(whole@ + fraction@);
    let ghost divisor = double::ten_to(fraction@.len());
    let nearest = double::nearest_double(whole.as_slice(), fraction.as_slice());
    proof {
        double::lemma_ten_to(fraction@.len());
        if value > 0 {
            double::lemma_mantissa(value, divisor);
        }
        lemma2_to64();
        vstd::arithmetic::power2::lemma2_to64_rest();
    }
    let infinite = match nearest {
        Nearest::Naught => false,
        Nearest::Tiny => false,
        Nearest::Vast => true,
        Nearest::Double { mantissa, exponent } => exponent > 971 || (exponent == 971 && mantissa
            == 0x20_0000_0000_0000),
    };
    if infinite {
        return Err(text::cat2("invalid size: ", input));
    }
    let unit: u64 = match multiplier_of(text::trim(suffix.as_str()).as_str()) {
        Some(unit) => unit,
        None => {
            return Err(text::cat2("unknown size suffix in: ", input));
        },
    };
    let bytes: Option<u64> = match nearest {
        Nearest::Naught => Some(0),
        Nearest::Double { mantissa, exponent } => scale_double(mantissa, exponent, unit),
        _ => {
            proof {
                lemma_tiny(value, divisor, unit as nat);
            }
            Some(0)
        },
    };
    match bytes {
        Some(bytes) => Ok(bytes),
        None => Err(text::cat2("size is too large: ", input)),
    }
}

proof fn lemma_two_pieces(number: Seq<char>)
    requires
        text::split(number, '.').len() == 2,
    ensures
        text::split(number, '.')[0].len() + text::split(number, '.')[1].len() <= number.len(),
    decreases number.len(),
{
    let shorter = number.drop_last();
    text::lemma_split_nonempty(shorter, '.');
    if number.last() == '.' {
        lemma_one_piece(shorter);
    } else {
        lemma_two_pieces(shorter);
    }
}

proof fn lemma_one_piece(number: Seq<char>)
    requires
        text::split(number, '.').len() == 1,
    ensures
        text::split(number, '.')[0].len() <= number.len(),
    decreases number.len(),
{
    if number.len() > 0 {
        let shorter = number.drop_last();
        text::lemma_split_nonempty(shorter, '.');
        lemma_one_piece(shorter);
    }
}

proof fn lemma_tiny(number: nat, divisor: nat, unit: nat)
    requires
        number > 0,
        divisor > 0,
        double::nearest(number, divisor).exponent < double::LEAST_EXPONENT - 52,
        1 <= unit <= 1_099_511_627_776,
    ensures
        scaled_bytes(number, divisor, unit) == Some(0nat),
{
    let value = double::nearest(number, divisor);
    double::lemma_mantissa(number, divisor);
    let exact = value.mantissa * unit;
    lemma2_to64();
    vstd::arithmetic::power2::lemma2_to64_rest();
    assert(exact <= 0x20_0000_0000_0000 * 0x100_0000_0000) by (nonlinear_arith)
        requires
            exact == value.mantissa * unit,
            value.mantissa <= 0x20_0000_0000_0000,
            unit <= 0x100_0000_0000,
    ;
    double::lemma_whole_double_most(exact);
    let product = double::whole_double(exact);
    let power = (-value.exponent) as nat;
    let parts = pow2(power);
    lemma_pow2_strictly_increases(120, power);
    assert(pow2(120) == 0x100_0000_0000_0000_0000_0000_0000_0000) by {
        lemma_pow2_adds(60, 60);
    }
    assert(product / parts == 0) by (nonlinear_arith)
        requires
            product < parts,
    ;
    assert(pow2(64) * parts >= parts) by (nonlinear_arith)
        requires
            pow2(64) >= 1,
    ;
}

/// What is told of a piece of evidence: sizes in it are written for reading.
pub open spec fn humanized(evidence: Seq<char>) -> Seq<char> {
    match bytes_between(
        evidence,
        "Item is at least "@,
        " bytes, the configured large-item threshold"@,
    ) {
        Some(bytes) => "Larger than the configured "@ + bytes_text(bytes) + " threshold"@,
        None => match bytes_between(evidence, "Directory occupies "@, " bytes"@) {
            Some(bytes) => "Folder contains "@ + bytes_text(bytes) + " of data"@,
            None => evidence,
        },
    }
}

/// The number that stands between a text's beginning and its end.
pub open spec fn bytes_between(evidence: Seq<char>, front: Seq<char>, back: Seq<char>) -> Option<
    nat,
> {
    if text::starts(evidence, front) && text::ends(evidence.skip(front.len() as int), back) {
        match text::spelled_number(
            evidence.subrange(front.len() as int, evidence.len() - back.len()),
        ) {
            Some(number) => if number <= u64::MAX {
                Some(number)
            } else {
                None
            },
            None => None,
        }
    } else {
        None
    }
}

fn find_bytes(evidence: &str, front: &str, back: &str) -> (result: Option<u64>)
    ensures
        match result {
            Some(bytes) => bytes_between(evidence@, front@, back@) == Some(bytes as nat),
            None => bytes_between(evidence@, front@, back@) is None,
        },
{
    let characters = text::chars_of(evidence);
    let front_chars = text::chars_of(front);
    let back_chars = text::chars_of(back);
    if !text::chars_start_with(characters.as_slice(), front_chars.as_slice()) {
        return None;
    }
    let rest = text::string_between(characters.as_slice(), front_chars.len(), characters.len());
    assert(rest@ =~= evidence@.skip(front@.len() as int));
    let rest_chars = text::chars_of(rest.as_str());
    if !text::chars_end_with(rest_chars.as_slice(), back_chars.as_slice()) {
        return None;
    }
    let middle = text::string_between(
        rest_chars.as_slice(),
        0,
        rest_chars.len() - back_chars.len(),
    );
    assert(middle@ =~= evidence@.subrange(front@.len() as int, evidence@.len() - back@.len()));
    text::parse_number(middle.as_str(), u64::MAX)
}

pub fn humanize_evidence(evidence: &str) -> (result: String)
    ensures
        result@ == humanized(evidence@),
{
    if let Some(bytes) = find_bytes(
        evidence,
        "Item is at least ",
        " bytes, the configured large-item threshold",
    ) {
        return text::cat3(
            "Larger than the configured ",
            format_bytes(bytes).as_str(),
            " threshold",
        );
    }
    if let Some(bytes) = find_bytes(evidence, "Directory occupies ", " bytes") {
        return text::cat3("Folder contains ", format_bytes(bytes).as_str(), " of data");
    }
    evidence.to_owned()
}

/// How long ago a moment was.
pub open spec fn age_text(epoch_seconds: nat, now: nat) -> Seq<char> {
    let elapsed = if now > epoch_seconds {
        (now - epoch_seconds) as nat
    } else {
        0
    };
    if elapsed < 60 {
        "just now"@
    } else if elapsed < 3_600 {
        text::decimal(elapsed / 60) + " minutes ago"@
    } else if elapsed < 86_400 {
        text::decimal(elapsed / 3_600) + " hours ago"@
    } else {
        text::decimal(elapsed / 86_400) + " days ago"@
    }
}

pub fn format_age(epoch_seconds: u64, now: u64) -> (result: String)
    ensures
        result@ == age_text(epoch_seconds as nat, now as nat),
{
    let elapsed: u64 = now.saturating_sub(epoch_seconds);
    if elapsed < 60 {
        "just now".to_owned()
    } else if elapsed < 3_600 {
        text::cat2(text::decimal_of(elapsed / 60).as_str(), " minutes ago")
    } else if elapsed < 86_400 {
        text::cat2(text::decimal_of(elapsed / 3_600).as_str(), " hours ago")
    } else {
        text::cat2(text::decimal_of(elapsed / 86_400).as_str(), " days ago")
    }
}

/// A text without its commas.
pub open spec fn without_commas(characters: Seq<char>) -> Seq<char>
    decreases characters.len(),
{
    if characters.len() == 0 {
        Seq::empty()
    } else if characters.last() == ',' {
        without_commas(characters.drop_last())
    } else {
        without_commas(characters.drop_last()).push(characters.last())
    }
}

proof fn lemma_plain_digits(characters: Seq<char>)
    requires
        text::all_digits(characters),
    ensures
        without_commas(characters) == characters,
    decreases characters.len(),
{
    if characters.len() > 0 {
        let shorter = characters.drop_last();
        assert forall|i: int| 0 <= i < shorter.len() implies '0' <= #[trigger] shorter[i]
            <= '9' by {
            assert(shorter[i] == characters[i]);
        }
        lemma_plain_digits(shorter);
        assert('0' <= characters[characters.len() - 1] <= '9');
        assert(shorter.push(characters.last()) =~= characters);
    } else {
        assert(without_commas(characters) =~= characters);
    }
}

proof fn lemma_decimal_is_digits(value: nat)
    ensures
        text::all_digits(text::decimal(value)),
    decreases value,
{
    reveal_with_fuel(text::decimal, 2);
    if value >= 10 {
        lemma_decimal_is_digits(value / 10);
    }
}

/// The last three digits of a number stand behind those of its thousands.
#[verifier::spinoff_prover]
proof fn lemma_thousands(value: nat)
    requires
        value >= 1_000,
    ensures
        ({
            let digits = three_digits(value % 1_000);
            text::decimal(value) == text::decimal(value / 1_000).push(digits[0]).push(
                digits[1],
            ).push(digits[2])
        }),
{
    let rest = value % 1_000;
    reveal_with_fuel(text::decimal, 4);
    assert(value / 10 / 10 / 10 == value / 1_000);
    assert(value / 10 / 10 % 10 == rest / 100);
    assert(value / 10 % 10 == rest / 10 % 10);
    assert(value % 10 == rest % 10);
}

proof fn lemma_commas_behind(front: Seq<char>, character: char)
    ensures
        without_commas(front.push(character)) == if character == ',' {
            without_commas(front)
        } else {
            without_commas(front).push(character)
        },
{
    assert(front.push(character).drop_last() =~= front);
}

/// Commas are all that a count has beside its digits.
pub proof fn law_counts_keep_their_digits(value: nat)
    ensures
        without_commas(count_text(value)) == text::decimal(value),
    decreases value,
{
    if value < 1_000 {
        lemma_decimal_is_digits(value);
        lemma_plain_digits(text::decimal(value));
    } else {
        let front = count_text(value / 1_000);
        let digits = three_digits(value % 1_000);
        law_counts_keep_their_digits(value / 1_000);
        reveal_strlit(",");
        let first = front.push(',');
        let second = first.push(digits[0]);
        let third = second.push(digits[1]);
        lemma_commas_behind(front, ',');
        lemma_commas_behind(first, digits[0]);
        lemma_commas_behind(second, digits[1]);
        lemma_commas_behind(third, digits[2]);
        assert(front + ","@ + digits =~= third.push(digits[2]));
        lemma_thousands(value);
    }
}

} // verus!
