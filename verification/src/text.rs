//! Text as sequences of characters, and the helpers that build and take apart
//! strings.

use vstd::prelude::*;

verus! {

/// `String::push` appends one character.
pub assume_specification[ std::string::String::push ](string: &mut std::string::String, ch: char)
    ensures
        final(string)@ == old(string)@.push(ch),
;

/// What `String::from_utf8_lossy` makes of some bytes.
pub uninterp spec fn lossy_text(bytes: Seq<u8>) -> Seq<char>;

/// `String::from_utf8_lossy`: bytes that are not UTF-8 are replaced, and valid
/// UTF-8 is decoded as it is.
#[verifier::external_body]
pub(crate) fn decode_lossy(bytes: &[u8]) -> (result: String)
    ensures
        result@ == lossy_text(bytes@),
        vstd::utf8::valid_utf8(bytes@) ==> result@ == vstd::utf8::decode_utf8(bytes@),
{
    String::from_utf8_lossy(bytes).into_owned()
}

/// `str::from_utf8`: the text of valid UTF-8, and nothing for other bytes.
#[verifier::external_body]
pub(crate) fn decode_strict(bytes: &[u8]) -> (result: Option<String>)
    ensures
        result is Some <==> vstd::utf8::valid_utf8(bytes@),
        result matches Some(text) ==> text@ == vstd::utf8::decode_utf8(bytes@),
{
    std::str::from_utf8(bytes).ok().map(str::to_owned)
}

/// The bytes of some text in UTF-8.
pub open spec fn bytes_of(characters: Seq<char>) -> Seq<u8> {
    vstd::utf8::encode_utf8(characters)
}

/// The characters of a string.
pub fn chars_of(text: &str) -> (result: Vec<char>)
    ensures
        result@ == text@,
{
    let mut result: Vec<char> = Vec::new();
    for character in it: text.chars()
        invariant
            it.seq() == text@,
            result@ == text@.take(it.index()),
    {
        assert(text@.take(it.index() + 1) =~= text@.take(it.index()).push(text@[it.index()]));
        result.push(character);
    }
    assert(text@.take(text@.len() as int) =~= text@);
    result
}

/// The string of some characters.
pub fn string_of(characters: &[char]) -> (result: String)
    ensures
        result@ == characters@,
{
    string_between(characters, 0, characters.len())
}

/// The string of the characters from one index up to another.
pub fn string_between(characters: &[char], from: usize, to: usize) -> (result: String)
    requires
        from <= to <= characters@.len(),
    ensures
        result@ == characters@.subrange(from as int, to as int),
{
    let mut result = String::new();
    let mut at: usize = from;
    while at < to
        invariant
            from <= at <= to <= characters@.len(),
            result@ == characters@.subrange(from as int, at as int),
        decreases to - at,
    {
        assert(characters@.subrange(from as int, at + 1) =~= characters@.subrange(
            from as int,
            at as int,
        ).push(characters@[at as int]));
        result.push(characters[at]);
        at = at + 1;
    }
    assert(characters@.subrange(0, characters@.len() as int) =~= characters@);
    result
}

/// Whether two strings hold the same characters.
pub fn same_text(left: &str, right: &str) -> (result: bool)
    ensures
        result == (left@ == right@),
{
    proof {
        vstd::utf8::encode_utf8_decode_utf8(left@);
        vstd::utf8::encode_utf8_decode_utf8(right@);
    }
    crate::order::same_bytes(left.as_bytes(), right.as_bytes())
}

pub fn cat2(first: &str, second: &str) -> (result: String)
    ensures
        result@ == first@ + second@,
{
    let mut result = first.to_owned();
    result.append(second);
    result
}

pub fn cat3(first: &str, second: &str, third: &str) -> (result: String)
    ensures
        result@ == first@ + second@ + third@,
{
    let mut result = cat2(first, second);
    result.append(third);
    result
}

pub fn cat4(first: &str, second: &str, third: &str, fourth: &str) -> (result: String)
    ensures
        result@ == first@ + second@ + third@ + fourth@,
{
    let mut result = cat3(first, second, third);
    result.append(fourth);
    result
}

pub fn cat5(first: &str, second: &str, third: &str, fourth: &str, fifth: &str) -> (result: String)
    ensures
        result@ == first@ + second@ + third@ + fourth@ + fifth@,
{
    let mut result = cat4(first, second, third, fourth);
    result.append(fifth);
    result
}

pub fn cat6(
    first: &str,
    second: &str,
    third: &str,
    fourth: &str,
    fifth: &str,
    sixth: &str,
) -> (result: String)
    ensures
        result@ == first@ + second@ + third@ + fourth@ + fifth@ + sixth@,
{
    let mut result = cat5(first, second, third, fourth, fifth);
    result.append(sixth);
    result
}

pub fn cat7(
    first: &str,
    second: &str,
    third: &str,
    fourth: &str,
    fifth: &str,
    sixth: &str,
    seventh: &str,
) -> (result: String)
    ensures
        result@ == first@ + second@ + third@ + fourth@ + fifth@ + sixth@ + seventh@,
{
    let mut result = cat6(first, second, third, fourth, fifth, sixth);
    result.append(seventh);
    result
}

pub fn cat8(
    first: &str,
    second: &str,
    third: &str,
    fourth: &str,
    fifth: &str,
    sixth: &str,
    seventh: &str,
    eighth: &str,
) -> (result: String)
    ensures
        result@ == first@ + second@ + third@ + fourth@ + fifth@ + sixth@ + seventh@ + eighth@,
{
    let mut result = cat7(first, second, third, fourth, fifth, sixth, seventh);
    result.append(eighth);
    result
}

/// One character repeated.
pub open spec fn repeated(character: char, count: nat) -> Seq<char> {
    Seq::new(count, |i: int| character)
}

pub fn repeat(character: char, count: usize) -> (result: String)
    ensures
        result@ == repeated(character, count as nat),
{
    let mut result = String::new();
    let mut done: usize = 0;
    while done < count
        invariant
            done <= count,
            result@ == repeated(character, done as nat),
        decreases count - done,
    {
        result.push(character);
        done = done + 1;
        assert(repeated(character, done as nat) =~= repeated(character, (done - 1) as nat).push(
            character,
        ));
    }
    assert(result@ =~= repeated(character, count as nat));
    result
}

/// Blanks behind `text` up to `width` characters.
pub open spec fn padded_end(text: Seq<char>, width: nat) -> Seq<char> {
    if text.len() < width {
        text + repeated(' ', (width - text.len()) as nat)
    } else {
        text
    }
}

/// Blanks in front of `text` up to `width` characters.
pub open spec fn padded_start(text: Seq<char>, width: nat) -> Seq<char> {
    if text.len() < width {
        repeated(' ', (width - text.len()) as nat) + text
    } else {
        text
    }
}

pub fn pad_end(text: &str, width: usize) -> (result: String)
    ensures
        result@ == padded_end(text@, width as nat),
{
    let length: usize = chars_of(text).len();
    if length < width {
        cat2(text, repeat(' ', width - length).as_str())
    } else {
        text.to_owned()
    }
}

pub fn pad_start(text: &str, width: usize) -> (result: String)
    ensures
        result@ == padded_start(text@, width as nat),
{
    let length: usize = chars_of(text).len();
    if length < width {
        cat2(repeat(' ', width - length).as_str(), text)
    } else {
        text.to_owned()
    }
}

pub open spec fn digit(value: nat) -> char {
    (('0' as u32) + value) as char
}

/// A number in decimal digits.
pub open spec fn decimal(value: nat) -> Seq<char>
    decreases value,
{
    if value < 10 {
        seq![digit(value)]
    } else {
        decimal(value / 10).push(digit(value % 10))
    }
}

pub(crate) fn digit_of(value: u64) -> (result: char)
    requires
        value < 10,
    ensures
        result == digit(value as nat),
{
    match value {
        0 => '0',
        1 => '1',
        2 => '2',
        3 => '3',
        4 => '4',
        5 => '5',
        6 => '6',
        7 => '7',
        8 => '8',
        _ => '9',
    }
}

pub fn decimal_of(value: u64) -> (result: String)
    ensures
        result@ == decimal(value as nat),
    decreases value,
{
    if value < 10 {
        let mut result = String::new();
        result.push(digit_of(value));
        assert(result@ =~= seq![digit(value as nat)]);
        result
    } else {
        let mut result = decimal_of(value / 10);
        result.push(digit_of(value % 10));
        result
    }
}

pub fn wide_decimal_of(value: u128) -> (result: String)
    ensures
        result@ == decimal(value as nat),
    decreases value,
{
    if value <= u64::MAX as u128 {
        decimal_of(value as u64)
    } else {
        let mut result = wide_decimal_of(value / 10);
        result.push(digit_of((value % 10) as u64));
        result
    }
}

/// The characters with the Unicode property `White_Space`.
pub open spec fn is_blank(character: char) -> bool {
    let code = character as u32;
    ||| 0x09 <= code <= 0x0d
    ||| code == 0x20
    ||| code == 0x85
    ||| code == 0xa0
    ||| code == 0x1680
    ||| 0x2000 <= code <= 0x200a
    ||| code == 0x2028
    ||| code == 0x2029
    ||| code == 0x202f
    ||| code == 0x205f
    ||| code == 0x3000
}

pub fn blank(character: char) -> (result: bool)
    ensures
        result == is_blank(character),
{
    let code: u32 = character as u32;
    (0x09 <= code && code <= 0x0d) || code == 0x20 || code == 0x85 || code == 0xa0 || code == 0x1680
        || (0x2000 <= code && code <= 0x200a) || code == 0x2028 || code == 0x2029 || code == 0x202f
        || code == 0x205f || code == 0x3000
}

/// The characters of the Unicode category of control characters.
pub open spec fn is_control(character: char) -> bool {
    let code = character as u32;
    code <= 0x1f || 0x7f <= code <= 0x9f
}

pub fn control(character: char) -> (result: bool)
    ensures
        result == is_control(character),
{
    let code: u32 = character as u32;
    code <= 0x1f || (0x7f <= code && code <= 0x9f)
}

pub open spec fn trimmed_end(text: Seq<char>) -> Seq<char>
    decreases text.len(),
{
    if text.len() > 0 && is_blank(text.last()) {
        trimmed_end(text.drop_last())
    } else {
        text
    }
}

pub open spec fn trimmed_start(text: Seq<char>) -> Seq<char>
    decreases text.len(),
{
    if text.len() > 0 && is_blank(text[0]) {
        trimmed_start(text.drop_first())
    } else {
        text
    }
}

/// The text without the blanks around it.
pub open spec fn trimmed(text: Seq<char>) -> Seq<char> {
    trimmed_end(trimmed_start(text))
}

pub fn trim(text: &str) -> (result: String)
    ensures
        result@ == trimmed(text@),
{
    let characters = chars_of(text);
    let mut from: usize = 0;
    assert(characters@.skip(0) =~= characters@);
    while from < characters.len() && blank(characters[from])
        invariant
            from <= characters.len(),
            trimmed_start(characters@) == trimmed_start(characters@.skip(from as int)),
        decreases characters.len() - from,
    {
        assert(characters@.skip(from as int).drop_first() =~= characters@.skip(from + 1));
        from = from + 1;
    }
    let ghost rest = characters@.skip(from as int);
    assert(trimmed_start(characters@) == rest);
    let mut to: usize = characters.len();
    assert(characters@.subrange(from as int, to as int) =~= rest);
    while from < to && blank(characters[to - 1])
        invariant
            from <= to <= characters.len(),
            trimmed_end(rest) == trimmed_end(characters@.subrange(from as int, to as int)),
        decreases to - from,
    {
        assert(characters@.subrange(from as int, to as int).drop_last() =~= characters@.subrange(
            from as int,
            to - 1,
        ));
        to = to - 1;
    }
    string_between(characters.as_slice(), from, to)
}

/// An ASCII capital letter as its small letter; any other character as it is.
pub open spec fn lower_char(character: char) -> char {
    if 'A' <= character <= 'Z' {
        (character as u32 + 32) as char
    } else {
        character
    }
}

/// The text with its ASCII capital letters made small.
pub open spec fn lowered(text: Seq<char>) -> Seq<char> {
    Seq::new(text.len(), |i: int| lower_char(text[i]))
}

pub fn lower(value: &str) -> (result: String)
    ensures
        result@ == lowered(value@),
{
    let characters = chars_of(value);
    let mut result = String::new();
    let mut at: usize = 0;
    while at < characters.len()
        invariant
            at <= characters.len(),
            result@ == lowered(characters@).take(at as int),
        decreases characters.len() - at,
    {
        let character: char = characters[at];
        let small: char = lower_one(character);
        result.push(small);
        assert(lowered(characters@).take(at + 1) =~= lowered(characters@).take(at as int).push(
            small,
        ));
        at = at + 1;
    }
    assert(result@ =~= lowered(characters@));
    result
}

fn lower_one(character: char) -> (result: char)
    ensures
        result == lower_char(character),
{
    match character {
        'A' => 'a',
        'B' => 'b',
        'C' => 'c',
        'D' => 'd',
        'E' => 'e',
        'F' => 'f',
        'G' => 'g',
        'H' => 'h',
        'I' => 'i',
        'J' => 'j',
        'K' => 'k',
        'L' => 'l',
        'M' => 'm',
        'N' => 'n',
        'O' => 'o',
        'P' => 'p',
        'Q' => 'q',
        'R' => 'r',
        'S' => 's',
        'T' => 't',
        'U' => 'u',
        'V' => 'v',
        'W' => 'w',
        'X' => 'x',
        'Y' => 'y',
        'Z' => 'z',
        other => other,
    }
}

/// The pieces between the occurrences of a separator.
pub open spec fn split<A>(items: Seq<A>, separator: A) -> Seq<Seq<A>>
    decreases items.len(),
{
    if items.len() == 0 {
        seq![Seq::<A>::empty()]
    } else {
        let before = split(items.drop_last(), separator);
        if items.last() == separator {
            before.push(Seq::<A>::empty())
        } else {
            before.update(before.len() - 1, before.last().push(items.last()))
        }
    }
}

pub proof fn lemma_split_nonempty<A>(items: Seq<A>, separator: A)
    ensures
        split(items, separator).len() > 0,
    decreases items.len(),
{
    if items.len() > 0 {
        lemma_split_nonempty(items.drop_last(), separator);
    }
}

/// The pieces of some bytes between the occurrences of a separator.
pub fn split_bytes(bytes: &[u8], separator: u8) -> (result: Vec<Vec<u8>>)
    ensures
        crate::order::views(result@) == split(bytes@, separator),
{
    let mut result: Vec<Vec<u8>> = Vec::new();
    let mut piece: Vec<u8> = Vec::new();
    let mut at: usize = 0;
    let ghost pieces = split(bytes@.take(0), separator);
    assert(pieces =~= seq![Seq::<u8>::empty()]);
    assert(crate::order::views(result@).push(piece@) =~= pieces);
    while at < bytes.len()
        invariant
            at <= bytes.len(),
            crate::order::views(result@).push(piece@) == split(bytes@.take(at as int), separator),
        decreases bytes.len() - at,
    {
        let ghost before = split(bytes@.take(at as int), separator);
        let ghost done = result@;
        assert(bytes@.take(at + 1).drop_last() =~= bytes@.take(at as int));
        assert(before.last() == piece@);
        if bytes[at] == separator {
            proof {
                crate::order::lemma_views_push(done, piece);
            }
            result.push(piece);
            piece = Vec::new();
            assert(piece@ =~= Seq::<u8>::empty());
        } else {
            let ghost old_piece = piece@;
            piece.push(bytes[at]);
            assert(crate::order::views(done).push(piece@) =~= before.update(
                before.len() - 1,
                old_piece.push(bytes@[at as int]),
            ));
        }
        at = at + 1;
    }
    assert(bytes@.take(at as int) =~= bytes@);
    proof {
        crate::order::lemma_views_push(result@, piece);
    }
    result.push(piece);
    result
}

pub open spec fn starts<A>(whole: Seq<A>, part: Seq<A>) -> bool {
    part.len() <= whole.len() && whole.take(part.len() as int) == part
}

pub open spec fn ends<A>(whole: Seq<A>, part: Seq<A>) -> bool {
    part.len() <= whole.len() && whole.skip(whole.len() - part.len()) == part
}

/// A copy of some bytes.
pub fn copy_bytes(bytes: &[u8]) -> (result: Vec<u8>)
    ensures
        result@ == bytes@,
{
    bytes_between(bytes, 0, bytes.len())
}

pub fn bytes_between(bytes: &[u8], from: usize, to: usize) -> (result: Vec<u8>)
    requires
        from <= to <= bytes@.len(),
    ensures
        result@ == bytes@.subrange(from as int, to as int),
{
    let mut result: Vec<u8> = Vec::new();
    let mut at: usize = from;
    while at < to
        invariant
            from <= at <= to <= bytes@.len(),
            result@ == bytes@.subrange(from as int, at as int),
        decreases to - at,
    {
        assert(bytes@.subrange(from as int, at + 1) =~= bytes@.subrange(from as int, at as int).push(
            bytes@[at as int],
        ));
        result.push(bytes[at]);
        at = at + 1;
    }
    assert(bytes@.subrange(0, bytes@.len() as int) =~= bytes@);
    result
}

/// Whether some characters end with a text.
pub fn chars_end_with(whole: &[char], part: &[char]) -> (result: bool)
    ensures
        result == ends(whole@, part@),
{
    if part.len() > whole.len() {
        return false;
    }
    let offset: usize = whole.len() - part.len();
    let ghost tail = whole@.skip(offset as int);
    let mut at: usize = 0;
    while at < part.len()
        invariant
            at <= part.len(),
            offset + part.len() == whole.len(),
            tail == whole@.skip(offset as int),
            forall|i: int| 0 <= i < at ==> tail[i] == part@[i],
        decreases part.len() - at,
    {
        if whole[offset + at] != part[at] {
            assert(tail[at as int] != part@[at as int]);
            return false;
        }
        at = at + 1;
    }
    assert(tail =~= part@);
    true
}

/// Whether some characters start with a text.
pub fn chars_start_with(whole: &[char], part: &[char]) -> (result: bool)
    ensures
        result == starts(whole@, part@),
{
    if part.len() > whole.len() {
        return false;
    }
    let mut at: usize = 0;
    while at < part.len()
        invariant
            at <= part.len() <= whole.len(),
            forall|i: int| 0 <= i < at ==> whole@[i] == part@[i],
        decreases part.len() - at,
    {
        if whole[at] != part[at] {
            assert(whole@.take(part@.len() as int)[at as int] != part@[at as int]);
            return false;
        }
        at = at + 1;
    }
    assert(whole@.take(part@.len() as int) =~= part@);
    true
}

/// The pieces of some characters between the occurrences of a separator.
pub fn split_chars(characters: &[char], separator: char) -> (result: Vec<Vec<char>>)
    ensures
        crate::order::views(result@) == split(characters@, separator),
{
    let mut result: Vec<Vec<char>> = Vec::new();
    let mut piece: Vec<char> = Vec::new();
    let mut at: usize = 0;
    let ghost pieces = split(characters@.take(0), separator);
    assert(pieces =~= seq![Seq::<char>::empty()]);
    assert(crate::order::views(result@).push(piece@) =~= pieces);
    while at < characters.len()
        invariant
            at <= characters.len(),
            crate::order::views(result@).push(piece@) == split(
                characters@.take(at as int),
                separator,
            ),
        decreases characters.len() - at,
    {
        let ghost before = split(characters@.take(at as int), separator);
        let ghost done = result@;
        assert(characters@.take(at + 1).drop_last() =~= characters@.take(at as int));
        assert(before.last() == piece@);
        if characters[at] == separator {
            proof {
                crate::order::lemma_views_push(done, piece);
            }
            result.push(piece);
            piece = Vec::new();
            assert(piece@ =~= Seq::<char>::empty());
        } else {
            let ghost old_piece = piece@;
            piece.push(characters[at]);
            assert(crate::order::views(done).push(piece@) =~= before.update(
                before.len() - 1,
                old_piece.push(characters@[at as int]),
            ));
        }
        at = at + 1;
    }
    assert(characters@.take(at as int) =~= characters@);
    proof {
        crate::order::lemma_views_push(result@, piece);
    }
    result.push(piece);
    result
}

/// Texts with a separator between them.
pub open spec fn joined(parts: Seq<Seq<char>>, separator: Seq<char>) -> Seq<char>
    decreases parts.len(),
{
    if parts.len() == 0 {
        Seq::empty()
    } else if parts.len() == 1 {
        parts[0]
    } else {
        joined(parts.drop_last(), separator) + separator + parts.last()
    }
}

pub fn join(parts: &[String], separator: &str) -> (result: String)
    ensures
        result@ == joined(crate::order::views(parts@), separator@),
{
    let ghost all = crate::order::views(parts@);
    let mut result = String::new();
    assert(result@ =~= joined(all.take(0), separator@));
    let mut at: usize = 0;
    while at < parts.len()
        invariant
            at <= parts.len(),
            all == crate::order::views(parts@),
            result@ == joined(all.take(at as int), separator@),
        decreases parts.len() - at,
    {
        assert(all.take(at + 1).drop_last() =~= all.take(at as int));
        if at > 0 {
            result.append(separator);
        }
        let ghost before = result@;
        result.append(parts[at].as_str());
        if at == 0 {
            assert(result@ =~= all.take(1)[0]);
        }
        at = at + 1;
    }
    assert(all.take(at as int) =~= all);
    result
}

/// The value of a character as a decimal digit.
pub open spec fn digit_value(character: char) -> nat {
    (character as u32 - '0' as u32) as nat
}

/// The number that some decimal digits spell.
pub open spec fn number_of(digits: Seq<char>) -> nat
    decreases digits.len(),
{
    if digits.len() == 0 {
        0
    } else {
        number_of(digits.drop_last()) * 10 + digit_value(digits.last())
    }
}

pub open spec fn all_digits(characters: Seq<char>) -> bool {
    forall|i: int| 0 <= i < characters.len() ==> '0' <= #[trigger] characters[i] <= '9'
}

/// What is left of a number behind its sign.
pub open spec fn unsigned(characters: Seq<char>) -> Seq<char> {
    if characters.len() > 0 && characters[0] == '+' {
        characters.drop_first()
    } else {
        characters
    }
}

/// The number that a text spells: digits, with or without a plus in front.
pub open spec fn spelled_number(characters: Seq<char>) -> Option<nat> {
    let digits = unsigned(characters);
    if digits.len() > 0 && all_digits(digits) {
        Some(number_of(digits))
    } else {
        None
    }
}

/// Reads a number that is no larger than a limit.
pub fn parse_number(value: &str, limit: u64) -> (result: Option<u64>)
    ensures
        match result {
            Some(number) => spelled_number(value@) == Some(number as nat) && number <= limit,
            None => match spelled_number(value@) {
                Some(number) => number > limit,
                None => true,
            },
        },
{
    let characters = chars_of(value);
    let from: usize = if characters.len() > 0 && characters[0] == '+' {
        1
    } else {
        0
    };
    let ghost digits = unsigned(value@);
    assert(digits =~= characters@.skip(from as int));
    if from == characters.len() {
        return None;
    }
    let mut number: u64 = 0;
    let mut at: usize = from;
    let mut small = true;
    while at < characters.len()
        invariant
            from <= at <= characters@.len(),
            characters@ == value@,
            digits == characters@.skip(from as int),
            digits == unsigned(value@),
            forall|i: int| 0 <= i < at - from ==> '0' <= #[trigger] digits[i] <= '9',
            small ==> number == number_of(digits.take(at - from)),
            !small ==> number_of(digits.take(at - from)) > u64::MAX,
        decreases characters@.len() - at,
    {
        let character: char = characters[at];
        assert(digits[at - from] == character);
        if character < '0' || character > '9' {
            assert(!all_digits(digits));
            return None;
        }
        let digit: u64 = character as u64 - '0' as u64;
        proof {
            assert(digits.take(at - from + 1).drop_last() =~= digits.take(at - from));
            assert(digit == digit_value(character));
        }
        if small {
            match number.checked_mul(10) {
                Some(tens) => match tens.checked_add(digit) {
                    Some(sum) => {
                        number = sum;
                    },
                    None => {
                        small = false;
                    },
                },
                None => {
                    small = false;
                },
            }
        }
        at = at + 1;
    }
    assert(digits.take(at - from) =~= digits);
    if small && number <= limit {
        Some(number)
    } else {
        None
    }
}

/// Texts by their bytes.
pub open spec fn text_at_most(left: Seq<char>, right: Seq<char>) -> bool {
    crate::order::bytes_at_most(bytes_of(left), bytes_of(right))
}

pub open spec fn text_order() -> spec_fn(Seq<char>, Seq<char>) -> bool {
    |left: Seq<char>, right: Seq<char>| text_at_most(left, right)
}

/// Texts by their bytes.
pub struct TextOrder;

pub proof fn lemma_text_order()
    ensures
        crate::order::is_ranking(text_order()),
{
    let le = text_order();
    let bytes = crate::order::byte_order();
    assert(crate::order::is_total_order(bytes));
    assert forall|a: Seq<char>, b: Seq<char>| #[trigger] le(a, b) || le(b, a) by {
        crate::order::lemma_lexicographic_total(bytes_of(a), bytes_of(b), bytes);
    }
    assert forall|a: Seq<char>, b: Seq<char>, c: Seq<char>| #[trigger] le(a, b) && #[trigger] le(
        b,
        c,
    ) implies le(a, c) by {
        crate::order::lemma_lexicographic_transitive(bytes_of(a), bytes_of(b), bytes_of(c), bytes);
    }
}

impl crate::order::Ranking<String> for TextOrder {
    open spec fn at_most(&self, left: Seq<char>, right: Seq<char>) -> bool {
        text_at_most(left, right)
    }

    proof fn ranks(&self) {
        lemma_text_order();
        assert(text_order() =~= |left: Seq<char>, right: Seq<char>| self.at_most(left, right));
    }

    fn not_after(&self, left: &String, right: &String) -> (result: bool) {
        crate::order::bytes_not_after(left.as_str().as_bytes(), right.as_str().as_bytes())
    }
}

/// A list without the texts that repeat the one in front of them.
pub open spec fn deduplicated(lines: Seq<Seq<char>>) -> Seq<Seq<char>>
    decreases lines.len(),
{
    if lines.len() == 0 {
        Seq::empty()
    } else {
        let kept = deduplicated(lines.drop_last());
        if kept.len() > 0 && kept.last() == lines.last() {
            kept
        } else {
            kept.push(lines.last())
        }
    }
}

pub fn deduplicate(lines: Vec<String>) -> (result: Vec<String>)
    ensures
        crate::order::views(result@) == deduplicated(crate::order::views(lines@)),
{
    let ghost all = crate::order::views(lines@);
    let ghost source = lines@;
    let mut kept: Vec<String> = Vec::new();
    assert(crate::order::views(kept@) =~= deduplicated(all.take(0)));
    for line in it: lines
        invariant
            it.seq() == source,
            all == crate::order::views(source),
            crate::order::views(kept@) == deduplicated(all.take(it.index())),
    {
        proof {
            assert(all.take(it.index() + 1).drop_last() =~= all.take(it.index()));
            assert(all[it.index()] == line@);
            crate::order::lemma_views_push(kept@, line);
        }
        let repeats = kept.len() > 0 && same_text(kept[kept.len() - 1].as_str(), line.as_str());
        if !repeats {
            kept.push(line);
        }
    }
    assert(all.take(all.len() as int) =~= all);
    kept
}

/// Copies of some texts.
pub fn copy_lines(lines: &[String]) -> (result: Vec<String>)
    ensures
        crate::order::views(result@) == crate::order::views(lines@),
{
    let ghost all = crate::order::views(lines@);
    let mut result: Vec<String> = Vec::new();
    let mut at: usize = 0;
    assert(crate::order::views(result@) =~= all.take(0));
    while at < lines.len()
        invariant
            at <= lines.len(),
            all == crate::order::views(lines@),
            crate::order::views(result@) == all.take(at as int),
        decreases lines.len() - at,
    {
        let line = lines[at].clone();
        proof {
            crate::order::lemma_views_push(result@, line);
            assert(all.take(at + 1) =~= all.take(at as int).push(all[at as int]));
        }
        result.push(line);
        at = at + 1;
    }
    assert(all.take(at as int) =~= all);
    result
}

proof fn lemma_trimmed_end_part(text: Seq<char>) -> (end: int)
    ensures
        0 <= end <= text.len(),
        trimmed_end(text) == text.take(end),
        forall|i: int| end <= i < text.len() ==> is_blank(#[trigger] text[i]),
        end > 0 ==> !is_blank(text[end - 1]),
    decreases text.len(),
{
    if text.len() > 0 && is_blank(text.last()) {
        let front = text.drop_last();
        let end = lemma_trimmed_end_part(front);
        assert(front.take(end) =~= text.take(end));
        assert forall|i: int| end <= i < text.len() implies is_blank(#[trigger] text[i]) by {
            if i < front.len() {
                assert(is_blank(front[i]));
            }
        }
        end
    } else {
        assert(text.take(text.len() as int) =~= text);
        text.len() as int
    }
}

proof fn lemma_trimmed_start_part(text: Seq<char>) -> (start: int)
    ensures
        0 <= start <= text.len(),
        trimmed_start(text) == text.skip(start),
        forall|i: int| 0 <= i < start ==> is_blank(#[trigger] text[i]),
        start < text.len() ==> !is_blank(text[start]),
    decreases text.len(),
{
    if text.len() > 0 && is_blank(text[0]) {
        let rest = text.drop_first();
        let start = lemma_trimmed_start_part(rest);
        assert(rest.skip(start) =~= text.skip(start + 1));
        assert forall|i: int| 0 <= i < start + 1 implies is_blank(#[trigger] text[i]) by {
            if i > 0 {
                assert(is_blank(rest[i - 1]));
            }
        }
        if start < rest.len() {
            assert(rest[start] == text[start + 1]);
        }
        start + 1
    } else {
        assert(text.skip(0) =~= text);
        0
    }
}

/// Trimming takes the blanks from both ends of a text and nothing else.
pub proof fn law_trimming_takes_blanks_from_the_ends(text: Seq<char>)
    ensures
        exists|start: int, end: int|
            {
                &&& 0 <= start <= end <= text.len()
                &&& trimmed(text) == #[trigger] text.subrange(start, end)
                &&& forall|i: int| 0 <= i < start ==> is_blank(#[trigger] text[i])
                &&& forall|i: int| end <= i < text.len() ==> is_blank(#[trigger] text[i])
                &&& start < end ==> !is_blank(text[start]) && !is_blank(text[end - 1])
            },
{
    let start = lemma_trimmed_start_part(text);
    let rest = text.skip(start);
    let end = lemma_trimmed_end_part(rest);
    assert(rest.take(end) =~= text.subrange(start, start + end));
    assert forall|i: int| start + end <= i < text.len() implies is_blank(#[trigger] text[i]) by {
        assert(rest[i - start] == text[i]);
    }
    if end > 0 {
        assert(rest[end - 1] == text[start + end - 1]);
    }
}

/// Small letters for the capitals A to Z, and every other character as it is.
pub proof fn law_lowering_changes_capitals_alone(text: Seq<char>)
    ensures
        lowered(text).len() == text.len(),
        forall|i: int|
            0 <= i < text.len() ==> if 'A' <= #[trigger] text[i] <= 'Z' {
                lowered(text)[i] as u32 == text[i] as u32 + 32
            } else {
                lowered(text)[i] == text[i]
            },
        lowered(lowered(text)) == lowered(text),
{
    assert(lowered(lowered(text)) =~= lowered(text));
}

} // verus!
