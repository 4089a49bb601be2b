//! File names as the rules and relationships read them.

use crate::order;
use crate::path;
use crate::path::{FilePath, PartView};
use crate::text;
use vstd::prelude::*;

verus! {

/// A path's file name in small letters, as it is shown; empty where there is
/// none.
pub open spec fn lower_name(given: Seq<PartView>) -> Seq<char> {
    match path::file_name(given) {
        Some(name) => text::lowered(text::lossy_text(name)),
        None => Seq::empty(),
    }
}

pub fn lowercase_name(given: &FilePath) -> (result: String)
    ensures
        result@ == lower_name(given@),
{
    match given.file_name() {
        Some(name) => text::lower(text::decode_lossy(name.as_slice()).as_str()),
        None => {
            let result = String::new();
            assert(result@ =~= Seq::<char>::empty());
            result
        },
    }
}

/// A path's file name in small letters where it is text; empty otherwise.
pub open spec fn strict_lower_name(given: Seq<PartView>) -> Seq<char> {
    match path::file_name(given) {
        Some(name) => if vstd::utf8::valid_utf8(name) {
            text::lowered(vstd::utf8::decode_utf8(name))
        } else {
            Seq::empty()
        },
        None => Seq::empty(),
    }
}

pub fn strict_lowercase_name(given: &FilePath) -> (result: String)
    ensures
        result@ == strict_lower_name(given@),
{
    let empty = String::new();
    assert(empty@ =~= Seq::<char>::empty());
    match given.file_name() {
        Some(name) => match text::decode_strict(name.as_slice()) {
            Some(shown) => text::lower(shown.as_str()),
            None => empty,
        },
        None => empty,
    }
}

/// Whether a name ends with one of some suffixes.
pub open spec fn has_suffix(name: Seq<char>, suffixes: Seq<Seq<char>>) -> bool {
    exists|i: int| 0 <= i < suffixes.len() && text::ends(name, #[trigger] suffixes[i])
}

/// What stands in front of the first suffix, from a position on, that the
/// name ends with.
pub open spec fn without_suffix(name: Seq<char>, suffixes: Seq<Seq<char>>, from: int) -> Option<
    Seq<char>,
>
    decreases suffixes.len() - from,
{
    if from < 0 || from >= suffixes.len() {
        None
    } else if text::ends(name, suffixes[from]) {
        Some(name.take(name.len() - suffixes[from].len()))
    } else {
        without_suffix(name, suffixes, from + 1)
    }
}

/// The name without the first of some suffixes that it ends with, where
/// anything is left of it.
pub open spec fn base_name(name: Seq<char>, suffixes: Seq<Seq<char>>) -> Option<Seq<char>> {
    match without_suffix(name, suffixes, 0) {
        Some(base) => if base.len() > 0 {
            Some(base)
        } else {
            None
        },
        None => None,
    }
}

pub fn any_suffix(name: &str, suffixes: &Vec<&'static str>) -> (result: bool)
    ensures
        result == has_suffix(name@, order::views(suffixes@)),
{
    let characters = text::chars_of(name);
    let ghost all = order::views(suffixes@);
    let mut at: usize = 0;
    while at < suffixes.len()
        invariant
            at <= suffixes.len(),
            characters@ == name@,
            all == order::views(suffixes@),
            forall|i: int| 0 <= i < at ==> !text::ends(name@, #[trigger] all[i]),
        decreases suffixes.len() - at,
    {
        let suffix = text::chars_of(suffixes[at]);
        assert(suffix@ == all[at as int]);
        if text::chars_end_with(characters.as_slice(), suffix.as_slice()) {
            return true;
        }
        at = at + 1;
    }
    false
}

pub fn strip_suffix(name: &str, suffixes: &Vec<&'static str>) -> (result: Option<String>)
    ensures
        crate::model::optional(result) == base_name(name@, order::views(suffixes@)),
{
    let characters = text::chars_of(name);
    let ghost all = order::views(suffixes@);
    let mut at: usize = 0;
    while at < suffixes.len()
        invariant
            at <= suffixes.len(),
            characters@ == name@,
            all == order::views(suffixes@),
            without_suffix(name@, all, 0) == without_suffix(name@, all, at as int),
        decreases suffixes.len() - at,
    {
        let suffix = text::chars_of(suffixes[at]);
        assert(suffix@ == all[at as int]);
        if text::chars_end_with(characters.as_slice(), suffix.as_slice()) {
            let length: usize = characters.len() - suffix.len();
            let base = text::string_between(characters.as_slice(), 0, length);
            assert(base@ =~= name@.take(length as int));
            if length == 0 {
                return None;
            }
            return Some(base);
        }
        at = at + 1;
    }
    None
}

/// Whether a word says nothing about which product a name is of.
pub open spec fn is_ignored_token(token: Seq<char>) -> bool {
    ||| token == "amd64"@
    ||| token == "x86"@
    ||| token == "x64"@
    ||| token == "x86_64"@
    ||| token == "arm64"@
    ||| token == "aarch64"@
    ||| token == "linux"@
    ||| token == "windows"@
    ||| token == "win"@
    ||| token == "macos"@
    ||| token == "setup"@
    ||| token == "installer"@
}

fn ignored_token(token: &str) -> (result: bool)
    ensures
        result == is_ignored_token(token@),
{
    text::same_text(token, "amd64") || text::same_text(token, "x86") || text::same_text(token, "x64")
        || text::same_text(token, "x86_64") || text::same_text(token, "arm64") || text::same_text(
        token,
        "aarch64",
    ) || text::same_text(token, "linux") || text::same_text(token, "windows") || text::same_text(
        token,
        "win",
    ) || text::same_text(token, "macos") || text::same_text(token, "setup") || text::same_text(
        token,
        "installer",
    )
}

/// The text with underscores and blanks made dashes.
pub open spec fn dashed(name: Seq<char>) -> Seq<char> {
    Seq::new(
        name.len(),
        |i: int|
            if name[i] == '_' || name[i] == ' ' {
                '-'
            } else {
                name[i]
            },
    )
}

/// The words of a product name: those in front of the first that starts with a
/// digit, without the ones that say nothing.
pub open spec fn product_words(tokens: Seq<Seq<char>>) -> Seq<Seq<char>>
    decreases tokens.len(),
{
    if tokens.len() == 0 || (tokens[0].len() > 0 && '0' <= tokens[0][0] <= '9') {
        Seq::empty()
    } else if tokens[0].len() == 0 || is_ignored_token(tokens[0]) {
        product_words(tokens.drop_first())
    } else {
        seq![tokens[0]] + product_words(tokens.drop_first())
    }
}

/// The name of a product without its version, platform and the like.
pub open spec fn product_name(name: Seq<char>) -> Seq<char> {
    text::joined(product_words(text::split(dashed(text::lowered(name)), '-')), "-"@)
}

pub fn normalized_product_name(name: &str) -> (result: String)
    ensures
        result@ == product_name(name@),
{
    let characters = text::chars_of(text::lower(name).as_str());
    let mut plain: Vec<char> = Vec::new();
    let mut at: usize = 0;
    while at < characters.len()
        invariant
            at <= characters.len(),
            plain@ == dashed(characters@).take(at as int),
        decreases characters.len() - at,
    {
        let character: char = if characters[at] == '_' || characters[at] == ' ' {
            '-'
        } else {
            characters[at]
        };
        plain.push(character);
        assert(dashed(characters@).take(at + 1) =~= dashed(characters@).take(at as int).push(
            character,
        ));
        at = at + 1;
    }
    assert(plain@ =~= dashed(characters@));
    let tokens = text::split_chars(plain.as_slice(), '-');
    let ghost all = order::views(tokens@);
    let mut words: Vec<String> = Vec::new();
    let mut next: usize = 0;
    let mut open = true;
    assert(all.skip(0) =~= all);
    assert(order::views(words@) + product_words(all) =~= product_words(all));
    while open && next < tokens.len()
        invariant
            next <= tokens.len(),
            all == order::views(tokens@),
            open ==> order::views(words@) + product_words(all.skip(next as int)) == product_words(
                all,
            ),
            !open ==> order::views(words@) == product_words(all),
        decreases
            tokens.len() - next,
            if open {
                1int
            } else {
                0int
            },
    {
        let token = &tokens[next];
        let ghost rest = all.skip(next as int);
        assert(rest[0] == token@);
        assert(rest.drop_first() =~= all.skip(next + 1));
        if token.len() > 0 && '0' <= token[0] && token[0] <= '9' {
            open = false;
            assert(order::views(words@) =~= product_words(all));
        } else {
            if token.len() > 0 {
                let word = text::string_of(token.as_slice());
                if !ignored_token(word.as_str()) {
                    let ghost before = order::views(words@);
                    proof {
                        order::lemma_views_push(words@, word);
                        assert(before.push(word@) + product_words(rest.drop_first()) =~= before
                            + product_words(rest));
                    }
                    words.push(word);
                }
            }
            next = next + 1;
        }
    }
    proof {
        if open {
            assert(all.skip(next as int).len() == 0);
            assert(order::views(words@) =~= product_words(all));
        }
    }
    text::join(words.as_slice(), "-")
}

} // verus!
