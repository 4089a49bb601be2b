//! Text as it fills the columns of a terminal.

use crate::order;
use crate::text;
use unicode_width::{UnicodeWidthChar, UnicodeWidthStr};
use vstd::prelude::*;

verus! {

/// How many columns `unicode_width` gives a text.
pub uninterp spec fn str_width(text: Seq<char>) -> usize;

/// How many columns `unicode_width` gives a character, and none a control
/// character.
pub uninterp spec fn char_width(character: char) -> Option<usize>;

/// Whether a character is printable ASCII or an ellipsis.
pub open spec fn is_plain(character: char) -> bool {
    ' ' <= character <= '~' || character == '…'
}

pub open spec fn all_plain(text: Seq<char>) -> bool {
    forall|i: int| 0 <= i < text.len() ==> is_plain(#[trigger] text[i])
}

/// `UnicodeWidthStr::width` on a text. Printable ASCII characters and
/// ellipses take one column each where they stand among themselves.
#[verifier::external_body]
fn text_width(text: &str) -> (result: usize)
    ensures
        result == str_width(text@),
        all_plain(text@) ==> result == text@.len(),
{
    UnicodeWidthStr::width(text)
}

/// How many columns a text takes.
pub fn display_width(text: &str) -> (result: usize)
    ensures
        result == str_width(text@),
        all_plain(text@) ==> result == text@.len(),
{
    text_width(text)
}

/// `UnicodeWidthChar::width` on a character. Printable ASCII characters and
/// the ellipsis take one column.
#[verifier::external_body]
fn character_width(character: char) -> (result: Option<usize>)
    ensures
        result == char_width(character),
        is_plain(character) ==> result == Some(1usize),
{
    UnicodeWidthChar::width(character)
}

/// How many columns a character takes.
pub open spec fn columns(character: char) -> nat {
    match char_width(character) {
        Some(width) => width as nat,
        None => 0,
    }
}

fn columns_of(character: char) -> (result: usize)
    ensures
        result == columns(character),
        is_plain(character) ==> result == 1,
{
    match character_width(character) {
        Some(width) => width,
        None => 0,
    }
}

/// How many characters from the front on fit into some columns.
pub open spec fn fitting(characters: Seq<char>, room: nat) -> nat
    decreases characters.len(),
{
    if characters.len() == 0 || columns(characters[0]) > room {
        0
    } else {
        1 + fitting(characters.drop_first(), (room - columns(characters[0])) as nat)
    }
}

/// How many characters from the end on fit into some columns.
pub open spec fn fitting_end(characters: Seq<char>, room: nat) -> nat
    decreases characters.len(),
{
    if characters.len() == 0 || columns(characters.last()) > room {
        0
    } else {
        1 + fitting_end(characters.drop_last(), (room - columns(characters.last())) as nat)
    }
}

/// What is left of some columns beside an ellipsis.
pub open spec fn room_beside_ellipsis(width: nat) -> nat {
    if width > str_width("…"@) {
        (width - str_width("…"@)) as nat
    } else {
        0
    }
}

/// A text cut at its end so as to fit into some columns.
pub open spec fn truncated_end(text: Seq<char>, width: nat) -> Seq<char> {
    if str_width(text) <= width {
        text
    } else if width == 0 {
        ""@
    } else {
        text.take(fitting(text, room_beside_ellipsis(width)) as int) + "…"@
    }
}

/// A text cut at its beginning so as to fit into some columns.
pub open spec fn truncated_start(text: Seq<char>, width: nat) -> Seq<char> {
    if str_width(text) <= width {
        text
    } else if width == 0 {
        ""@
    } else {
        "…"@ + text.skip(text.len() - fitting_end(text, room_beside_ellipsis(width)))
    }
}

/// Cuts a text at its end. What is left of a plain text is plain and no wider
/// than asked for.
pub fn truncate_end(text: &str, width: usize) -> (result: String)
    ensures
        result@ == truncated_end(text@, width as nat),
        all_plain(text@) ==> all_plain(result@) && result@.len() <= width,
{
    proof {
        reveal_strlit("…");
        reveal_strlit("");
    }
    if display_width(text) <= width {
        return text.to_owned();
    }
    if width == 0 {
        return "".to_owned();
    }
    let characters = text::chars_of(text);
    let mut room: usize = width.saturating_sub(display_width("…"));
    let ghost start = room_beside_ellipsis(width as nat);
    assert(room == start && room == width - 1);
    let mut at: usize = 0;
    assert(characters@.skip(0) =~= characters@);
    while at < characters.len()
        invariant_except_break
            fitting(characters@, start) == at + fitting(characters@.skip(at as int), room as nat),
        invariant
            at <= characters@.len(),
            characters@ == text@,
            all_plain(text@) ==> room + at == width - 1,
        ensures
            fitting(characters@, start) == at,
        decreases characters@.len() - at,
    {
        let needed: usize = columns_of(characters[at]);
        if needed > room {
            break;
        }
        assert(characters@.skip(at as int).drop_first() =~= characters@.skip(at + 1));
        room = room - needed;
        at = at + 1;
    }
    let visible = text::string_between(characters.as_slice(), 0, at);
    assert(visible@ =~= text@.take(at as int));
    text::cat2(visible.as_str(), "…")
}

/// Cuts a text at its beginning. What is left of a plain text is plain and no
/// wider than asked for.
pub fn truncate_start(text: &str, width: usize) -> (result: String)
    ensures
        result@ == truncated_start(text@, width as nat),
        all_plain(text@) ==> all_plain(result@) && result@.len() <= width,
{
    proof {
        reveal_strlit("…");
        reveal_strlit("");
    }
    if display_width(text) <= width {
        return text.to_owned();
    }
    if width == 0 {
        return "".to_owned();
    }
    let characters = text::chars_of(text);
    let mut room: usize = width.saturating_sub(display_width("…"));
    let ghost start = room_beside_ellipsis(width as nat);
    assert(room == start && room == width - 1);
    let mut left: usize = characters.len();
    assert(characters@.take(left as int) =~= characters@);
    while left > 0
        invariant_except_break
            fitting_end(characters@, start) == characters@.len() - left + fitting_end(
                characters@.take(left as int),
                room as nat,
            ),
        invariant
            left <= characters@.len(),
            characters@ == text@,
            all_plain(text@) ==> room + (characters@.len() - left) == width - 1,
        ensures
            fitting_end(characters@, start) == characters@.len() - left,
        decreases left,
    {
        let needed: usize = columns_of(characters[left - 1]);
        if needed > room {
            break;
        }
        assert(characters@.take(left as int).drop_last() =~= characters@.take(left - 1));
        room = room - needed;
        left = left - 1;
    }
    let visible = text::string_between(characters.as_slice(), left, characters.len());
    assert(visible@ =~= text@.skip(left as int));
    text::cat2("…", visible.as_str())
}

/// A text cut or filled up with blanks so as to take some columns.
pub open spec fn padded(text: Seq<char>, width: nat) -> Seq<char> {
    let cut = truncated_end(text, width);
    cut + text::repeated(' ', less(width, str_width(cut) as nat))
}

/// A number less another, and never below naught.
pub open spec fn less(from: nat, subtracted: nat) -> nat {
    if from > subtracted {
        (from - subtracted) as nat
    } else {
        0
    }
}

/// A number brought between two others.
pub open spec fn bounded(value: nat, low: nat, high: nat) -> nat {
    if value < low {
        low
    } else if value > high {
        high
    } else {
        value
    }
}

pub fn bound(value: usize, low: usize, high: usize) -> (result: usize)
    ensures
        result == bounded(value as nat, low as nat, high as nat),
{
    if value < low {
        low
    } else if value > high {
        high
    } else {
        value
    }
}

/// Cuts a text or fills it up. A plain text then takes just the columns asked
/// for.
pub fn pad_right(text: &str, width: usize) -> (result: String)
    ensures
        result@ == padded(text@, width as nat),
        all_plain(text@) ==> all_plain(result@) && result@.len() == width,
{
    let cut = truncate_end(text, width);
    let missing: usize = width.saturating_sub(display_width(cut.as_str()));
    text::cat2(cut.as_str(), text::repeat(' ', missing).as_str())
}

/// Words in the making: those that are complete, and the one begun.
pub struct WordState {
    pub words: Seq<Seq<char>>,
    pub begun: Seq<char>,
}

pub open spec fn word_state(text: Seq<char>) -> WordState
    decreases text.len(),
{
    if text.len() == 0 {
        WordState { words: Seq::empty(), begun: Seq::empty() }
    } else {
        let before = word_state(text.drop_last());
        if !text::is_blank(text.last()) {
            WordState { words: before.words, begun: before.begun.push(text.last()) }
        } else if before.begun.len() > 0 {
            WordState { words: before.words.push(before.begun), begun: Seq::empty() }
        } else {
            before
        }
    }
}

/// The words of a text: what stands between its blanks.
pub open spec fn words(text: Seq<char>) -> Seq<Seq<char>> {
    let state = word_state(text);
    if state.begun.len() > 0 {
        state.words.push(state.begun)
    } else {
        state.words
    }
}

pub open spec fn all_lines_plain(lines: Seq<String>) -> bool {
    forall|i: int| 0 <= i < lines.len() ==> all_plain((#[trigger] lines[i])@)
}

/// Whether no line is longer than some columns.
pub open spec fn all_lines_fit(lines: Seq<String>, width: nat) -> bool {
    forall|i: int| 0 <= i < lines.len() ==> (#[trigger] lines[i])@.len() <= width
}

fn split_words(text: &str) -> (result: Vec<String>)
    ensures
        order::views(result@) == words(text@),
        all_plain(text@) ==> all_lines_plain(result@),
{
    let characters = text::chars_of(text);
    let mut result: Vec<String> = Vec::new();
    let mut begun: Vec<char> = Vec::new();
    let mut at: usize = 0;
    assert(characters@.take(0) =~= Seq::<char>::empty());
    assert(order::views(result@) =~= Seq::<Seq<char>>::empty());
    while at < characters.len()
        invariant
            at <= characters@.len(),
            order::views(result@) == word_state(characters@.take(at as int)).words,
            begun@ == word_state(characters@.take(at as int)).begun,
            characters@ == text@,
            all_plain(text@) ==> all_lines_plain(result@) && all_plain(begun@),
        decreases characters@.len() - at,
    {
        assert(characters@.take(at + 1).drop_last() =~= characters@.take(at as int));
        let character: char = characters[at];
        if !text::blank(character) {
            begun.push(character);
        } else if begun.len() > 0 {
            let word = text::string_of(begun.as_slice());
            proof {
                order::lemma_views_push(result@, word);
            }
            result.push(word);
            begun = Vec::new();
        }
        at = at + 1;
    }
    assert(characters@.take(at as int) =~= text@);
    if begun.len() > 0 {
        let word = text::string_of(begun.as_slice());
        proof {
            order::lemma_views_push(result@, word);
        }
        result.push(word);
    }
    result
}

/// A word in the making of its pieces: those that are complete, the one begun,
/// and the columns it takes.
pub struct ChunkState {
    pub chunks: Seq<Seq<char>>,
    pub begun: Seq<char>,
    pub width: nat,
}

pub open spec fn chunk_state(word: Seq<char>, width: nat) -> ChunkState
    decreases word.len(),
{
    if word.len() == 0 {
        ChunkState { chunks: Seq::empty(), begun: Seq::empty(), width: 0 }
    } else {
        let before = chunk_state(word.drop_last(), width);
        let needed = columns(word.last());
        if before.begun.len() > 0 && before.width + needed > width {
            ChunkState {
                chunks: before.chunks.push(before.begun),
                begun: seq![word.last()],
                width: needed,
            }
        } else {
            ChunkState {
                chunks: before.chunks,
                begun: before.begun.push(word.last()),
                width: before.width + needed,
            }
        }
    }
}

/// The pieces of a word that is cut wherever the columns run out.
pub open spec fn chunks(word: Seq<char>, width: nat) -> Seq<Seq<char>> {
    let state = chunk_state(word, width);
    if state.begun.len() > 0 {
        state.chunks.push(state.begun)
    } else {
        state.chunks
    }
}

pub fn split_by_display_width(word: &str, width: usize) -> (result: Vec<String>)
    ensures
        order::views(result@) == chunks(word@, width as nat),
        all_plain(word@) && width > 0 ==> all_lines_plain(result@) && all_lines_fit(
            result@,
            width as nat,
        ),
{
    let characters = text::chars_of(word);
    let mut result: Vec<String> = Vec::new();
    let mut begun: Vec<char> = Vec::new();
    let mut used: u128 = 0;
    let mut at: usize = 0;
    assert(characters@.take(0) =~= Seq::<char>::empty());
    assert(order::views(result@) =~= Seq::<Seq<char>>::empty());
    while at < characters.len()
        invariant
            at <= characters@.len(),
            order::views(result@) == chunk_state(
                characters@.take(at as int),
                width as nat,
            ).chunks,
            begun@ == chunk_state(characters@.take(at as int), width as nat).begun,
            used == chunk_state(characters@.take(at as int), width as nat).width,
            used <= at * usize::MAX,
            characters@ == word@,
            all_plain(word@) && width > 0 ==> {
                &&& all_lines_plain(result@)
                &&& all_lines_fit(result@, width as nat)
                &&& all_plain(begun@)
                &&& used == begun@.len()
                &&& used <= width
            },
        decreases characters@.len() - at,
    {
        assert(characters@.take(at + 1).drop_last() =~= characters@.take(at as int));
        let character: char = characters[at];
        let needed: u128 = columns_of(character) as u128;
        proof {
            assert((at + 1) * usize::MAX <= u128::MAX) by (nonlinear_arith)
                requires
                    at + 1 <= usize::MAX,
                    usize::MAX <= 0xffff_ffff_ffff_ffff,
            ;
            assert((at + 1) * usize::MAX == at * usize::MAX + usize::MAX) by (nonlinear_arith);
            assert(0 <= at * usize::MAX) by (nonlinear_arith)
                requires
                    0 <= at,
            ;
        }
        if begun.len() > 0 && used + needed > width as u128 {
            let chunk = text::string_of(begun.as_slice());
            proof {
                order::lemma_views_push(result@, chunk);
            }
            result.push(chunk);
            begun = Vec::new();
            begun.push(character);
            assert(begun@ =~= seq![character]);
            used = needed;
        } else {
            begun.push(character);
            used = used + needed;
        }
        at = at + 1;
    }
    assert(characters@.take(at as int) =~= word@);
    if begun.len() > 0 {
        let chunk = text::string_of(begun.as_slice());
        proof {
            order::lemma_views_push(result@, chunk);
        }
        result.push(chunk);
    }
    result
}

/// Lines in the making: those that are complete, and the one begun.
pub struct LineState {
    pub lines: Seq<Seq<char>>,
    pub begun: Seq<char>,
}

/// The lines after one more word.
pub open spec fn with_word(state: LineState, word: Seq<char>, width: nat) -> LineState {
    if str_width(word) > width {
        let lines = if state.begun.len() > 0 {
            state.lines.push(state.begun)
        } else {
            state.lines
        };
        LineState { lines: lines + chunks(word, width), begun: Seq::empty() }
    } else {
        let separator: nat = if state.begun.len() > 0 {
            1
        } else {
            0
        };
        if str_width(state.begun) + separator + str_width(word) > width {
            LineState { lines: state.lines.push(state.begun), begun: word }
        } else if state.begun.len() > 0 {
            LineState { lines: state.lines, begun: state.begun + " "@ + word }
        } else {
            LineState { lines: state.lines, begun: word }
        }
    }
}

pub open spec fn line_state(words: Seq<Seq<char>>, width: nat) -> LineState
    decreases words.len(),
{
    if words.len() == 0 {
        LineState { lines: Seq::empty(), begun: Seq::empty() }
    } else {
        with_word(line_state(words.drop_last(), width), words.last(), width)
    }
}

/// A text broken between its words, and within words that are too long, into
/// lines of some columns.
pub open spec fn wrapped(text: Seq<char>, width: nat) -> Seq<Seq<char>> {
    if text.len() == 0 {
        seq![Seq::<char>::empty()]
    } else {
        let state = line_state(
            words(text),
            if width == 0 {
                1
            } else {
                width
            },
        );
        if state.begun.len() > 0 {
            state.lines.push(state.begun)
        } else {
            state.lines
        }
    }
}

fn add_word(lines: &mut Vec<String>, begun: String, word: &str, width: usize) -> (result: String)
    ensures
        with_word(
            LineState { lines: order::views(old(lines)@), begun: begun@ },
            word@,
            width as nat,
        ) == (LineState { lines: order::views(final(lines)@), begun: result@ }),
        ({
            &&& all_plain(word@)
            &&& all_plain(begun@)
            &&& begun@.len() <= width
            &&& width > 0
            &&& all_lines_plain(old(lines)@)
            &&& all_lines_fit(old(lines)@, width as nat)
        }) ==> {
            &&& all_plain(result@)
            &&& result@.len() <= width
            &&& all_lines_plain(final(lines)@)
            &&& all_lines_fit(final(lines)@, width as nat)
        },
{
    proof {
        reveal_strlit(" ");
    }
    let word_width: usize = display_width(word);
    let length: usize = text::chars_of(begun.as_str()).len();
    if word_width > width {
        if length > 0 {
            proof {
                order::lemma_views_push(lines@, begun);
            }
            lines.push(begun);
        }
        let mut pieces = split_by_display_width(word, width);
        let ghost before = lines@;
        let ghost added = pieces@;
        lines.append(&mut pieces);
        assert(order::views(lines@) =~= order::views(before) + order::views(added));
        let empty = String::new();
        assert(empty@ =~= Seq::<char>::empty());
        return empty;
    }
    let separator: u128 = if length > 0 {
        1
    } else {
        0
    };
    if display_width(begun.as_str()) as u128 + separator + word_width as u128 > width as u128 {
        proof {
            order::lemma_views_push(lines@, begun);
        }
        lines.push(begun);
        word.to_owned()
    } else if length > 0 {
        text::cat3(begun.as_str(), " ", word)
    } else {
        word.to_owned()
    }
}

/// Breaks a text into lines. Those of a plain text are plain and no wider than
/// asked for.
pub fn wrap_text(text: &str, width: usize) -> (result: Vec<String>)
    ensures
        order::views(result@) == wrapped(text@, width as nat),
        all_plain(text@) && width > 0 ==> all_lines_plain(result@) && all_lines_fit(
            result@,
            width as nat,
        ),
{
    let length: usize = text::chars_of(text).len();
    if length == 0 {
        let empty = String::new();
        assert(empty@ =~= Seq::<char>::empty());
        let result = vec![empty];
        assert(order::views(result@) =~= seq![Seq::<char>::empty()]);
        return result;
    }
    let used: usize = if width == 0 {
        1
    } else {
        width
    };
    let parts = split_words(text);
    let ghost all = order::views(parts@);
    let mut lines: Vec<String> = Vec::new();
    let mut begun = String::new();
    let mut at: usize = 0;
    assert(all.take(0) =~= Seq::<Seq<char>>::empty());
    assert(order::views(lines@) =~= Seq::<Seq<char>>::empty());
    assert(begun@ =~= Seq::<char>::empty());
    while at < parts.len()
        invariant
            at <= parts@.len(),
            all == order::views(parts@),
            line_state(all.take(at as int), used as nat) == (LineState {
                lines: order::views(lines@),
                begun: begun@,
            }),
            used == (if width == 0 {
                1
            } else {
                width
            }),
            all_plain(text@) ==> {
                &&& all_lines_plain(parts@)
                &&& all_lines_plain(lines@)
                &&& all_lines_fit(lines@, used as nat)
                &&& all_plain(begun@)
                &&& begun@.len() <= used
            },
        decreases parts@.len() - at,
    {
        assert(all.take(at + 1).drop_last() =~= all.take(at as int));
        begun = add_word(&mut lines, begun, parts[at].as_str(), used);
        at = at + 1;
    }
    assert(all.take(at as int) =~= all);
    if text::chars_of(begun.as_str()).len() > 0 {
        proof {
            order::lemma_views_push(lines@, begun);
        }
        lines.push(begun);
    }
    lines
}

proof fn lemma_fitting_end(characters: Seq<char>, room: nat)
    ensures
        fitting_end(characters, room) <= characters.len(),
    decreases characters.len(),
{
    if characters.len() > 0 && columns(characters.last()) <= room {
        lemma_fitting_end(
            characters.drop_last(),
            (room - columns(characters.last())) as nat,
        );
    }
}

/// A text that is cut at its beginning keeps its end.
pub proof fn law_cutting_the_start_keeps_the_end(text: Seq<char>, width: nat)
    requires
        width > 0,
    ensures
        truncated_start(text, width) == text || exists|from: int|
            0 <= from <= text.len() && truncated_start(text, width) == "…"@
                + #[trigger] text.skip(from),
{
    if str_width(text) > width {
        let room = room_beside_ellipsis(width);
        lemma_fitting_end(text, room);
        assert(truncated_start(text, width) == "…"@ + text.skip(
            text.len() - fitting_end(text, room),
        ));
    }
}

/// The characters of a text that are not blanks.
pub open spec fn ink(text: Seq<char>) -> Seq<char>
    decreases text.len(),
{
    if text.len() == 0 {
        Seq::empty()
    } else if text::is_blank(text.last()) {
        ink(text.drop_last())
    } else {
        ink(text.drop_last()).push(text.last())
    }
}

/// The characters of some lines that are not blanks, line after line.
pub open spec fn ink_of(lines: Seq<Seq<char>>) -> Seq<char>
    decreases lines.len(),
{
    if lines.len() == 0 {
        Seq::empty()
    } else {
        ink_of(lines.drop_last()) + ink(lines.last())
    }
}

proof fn lemma_ink_join(front: Seq<char>, back: Seq<char>)
    ensures
        ink(front + back) == ink(front) + ink(back),
    decreases back.len(),
{
    if back.len() == 0 {
        assert(front + back =~= front);
        assert(ink(front) + ink(back) =~= ink(front));
    } else {
        lemma_ink_join(front, back.drop_last());
        assert((front + back).drop_last() =~= front + back.drop_last());
        assert(ink(front + back) =~= ink(front) + ink(back));
    }
}

proof fn lemma_ink_push(lines: Seq<Seq<char>>, line: Seq<char>)
    ensures
        ink_of(lines.push(line)) == ink_of(lines) + ink(line),
{
    assert(lines.push(line).drop_last() =~= lines);
}

proof fn lemma_ink_extend(lines: Seq<Seq<char>>, more: Seq<Seq<char>>)
    ensures
        ink_of(lines + more) == ink_of(lines) + ink_of(more),
    decreases more.len(),
{
    if more.len() == 0 {
        assert(lines + more =~= lines);
        assert(ink_of(lines) + ink_of(more) =~= ink_of(lines));
    } else {
        lemma_ink_extend(lines, more.drop_last());
        assert((lines + more).drop_last() =~= lines + more.drop_last());
        assert(ink_of(lines + more) =~= ink_of(lines) + ink_of(more));
    }
}

proof fn lemma_ink_of_words(text: Seq<char>)
    ensures
        ink_of(word_state(text).words) + ink(word_state(text).begun) == ink(text),
    decreases text.len(),
{
    if text.len() > 0 {
        lemma_ink_of_words(text.drop_last());
        let before = word_state(text.drop_last());
        if !text::is_blank(text.last()) {
            assert(before.begun.push(text.last()).drop_last() =~= before.begun);
            assert(ink_of(before.words) + ink(before.begun).push(text.last()) =~= (ink_of(
                before.words,
            ) + ink(before.begun)).push(text.last()));
        } else if before.begun.len() > 0 {
            lemma_ink_push(before.words, before.begun);
            assert(ink_of(before.words.push(before.begun)) + ink(Seq::<char>::empty()) =~= ink_of(
                before.words,
            ) + ink(before.begun));
        }
    } else {
        assert(ink_of(word_state(text).words) + ink(word_state(text).begun) =~= ink(text));
    }
}

proof fn lemma_ink_of_chunks(word: Seq<char>, width: nat)
    ensures
        ink_of(chunk_state(word, width).chunks) + ink(chunk_state(word, width).begun) == ink(word),
    decreases word.len(),
{
    if word.len() > 0 {
        let before = chunk_state(word.drop_last(), width);
        let last = word.last();
        lemma_ink_of_chunks(word.drop_last(), width);
        if before.begun.len() > 0 && before.width + columns(last) > width {
            lemma_ink_push(before.chunks, before.begun);
            reveal_with_fuel(ink, 2);
            assert(seq![last].drop_last() =~= Seq::<char>::empty());
            assert(ink(seq![last]) =~= if text::is_blank(last) {
                Seq::empty()
            } else {
                seq![last]
            });
            assert(ink_of(before.chunks.push(before.begun)) + ink(seq![last]) =~= ink(word));
        } else {
            assert(before.begun.push(last).drop_last() =~= before.begun);
            assert(ink_of(before.chunks) + ink(before.begun.push(last)) =~= ink(word));
        }
    } else {
        assert(ink_of(chunk_state(word, width).chunks) + ink(chunk_state(word, width).begun)
            =~= ink(word));
    }
}

proof fn lemma_ink_of_lines(words: Seq<Seq<char>>, width: nat)
    ensures
        ink_of(line_state(words, width).lines) + ink(line_state(words, width).begun) == ink_of(
            words,
        ),
    decreases words.len(),
{
    if words.len() > 0 {
        let state = line_state(words.drop_last(), width);
        let word = words.last();
        let next = line_state(words, width);
        lemma_ink_of_lines(words.drop_last(), width);
        lemma_ink_push(state.lines, state.begun);
        reveal_strlit(" ");
        if str_width(word) > width {
            lemma_ink_of_chunks(word, width);
            let pieces = chunks(word, width);
            let made = chunk_state(word, width);
            lemma_ink_push(made.chunks, made.begun);
            assert(ink(Seq::<char>::empty()) =~= Seq::<char>::empty());
            if made.begun.len() == 0 {
                assert(made.begun =~= Seq::<char>::empty());
            }
            assert(ink_of(pieces) =~= ink(word));
            let lines = if state.begun.len() > 0 {
                state.lines.push(state.begun)
            } else {
                state.lines
            };
            if state.begun.len() == 0 {
                assert(state.begun =~= Seq::<char>::empty());
            }
            assert(ink_of(lines) =~= ink_of(words.drop_last()));
            lemma_ink_extend(lines, pieces);
            assert(ink_of(next.lines) + ink(next.begun) =~= ink_of(words));
        } else if next.lines == state.lines.push(state.begun) && next.begun == word {
            assert(ink_of(next.lines) + ink(next.begun) =~= ink_of(words));
        } else if state.begun.len() > 0 {
            lemma_ink_join(state.begun, " "@);
            lemma_ink_join(state.begun + " "@, word);
            reveal_with_fuel(ink, 2);
            assert(" "@.drop_last() =~= Seq::<char>::empty());
            assert(ink(" "@) =~= Seq::<char>::empty());
            assert(ink_of(next.lines) + ink(next.begun) =~= ink_of(words));
        } else {
            assert(state.begun =~= Seq::<char>::empty());
            assert(ink(Seq::<char>::empty()) =~= Seq::<char>::empty());
            assert(ink_of(next.lines) + ink(next.begun) =~= ink_of(words));
        }
    } else {
        assert(ink_of(line_state(words, width).lines) + ink(line_state(words, width).begun)
            =~= ink_of(words));
    }
}

/// Breaking a text into lines loses no character but blanks.
pub proof fn law_wrapping_loses_nothing(text: Seq<char>, width: nat)
    ensures
        ink_of(wrapped(text, width)) == ink(text),
{
    let used = if width == 0 {
        1
    } else {
        width
    };
    if text.len() == 0 {
        let lines = seq![Seq::<char>::empty()];
        reveal_with_fuel(ink_of, 2);
        assert(lines.drop_last() =~= Seq::<Seq<char>>::empty());
        assert(ink_of(lines) =~= ink(text));
    } else {
        lemma_ink_of_words(text);
        let state = word_state(text);
        lemma_ink_push(state.words, state.begun);
        if state.begun.len() == 0 {
            assert(state.begun =~= Seq::<char>::empty());
        }
        assert(ink_of(words(text)) =~= ink(text));
        lemma_ink_of_lines(words(text), used);
        let made = line_state(words(text), used);
        lemma_ink_push(made.lines, made.begun);
        if made.begun.len() == 0 {
            assert(made.begun =~= Seq::<char>::empty());
        }
        assert(ink_of(wrapped(text, width)) =~= ink(text));
    }
}

} // verus!
