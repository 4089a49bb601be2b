//! What names say of products.

use vstd::prelude::*;

use crate::names;
use crate::text;

verus! {

/// Whether some text is one word in small letters, without dashes, underscores and
/// blanks.
pub open spec fn is_word(word: Seq<char>) -> bool {
    forall|i: int|
        0 <= i < word.len() ==> word[i] != '-' && word[i] != '_' && word[i] != ' ' && !('A'
            <= #[trigger] word[i] <= 'Z')
}

/// Whether a word tells a machine, a system or a way to install, and not a product.
pub open spec fn says_nothing(word: Seq<char>) -> bool {
    ||| word == "amd64"@
    ||| word == "x86"@
    ||| word == "x64"@
    ||| word == "arm64"@
    ||| word == "aarch64"@
    ||| word == "linux"@
    ||| word == "windows"@
    ||| word == "win"@
    ||| word == "macos"@
    ||| word == "setup"@
    ||| word == "installer"@
}

/// Whether a word begins with a digit, as a version does.
pub open spec fn begins_a_version(word: Seq<char>) -> bool {
    word.len() > 0 && '0' <= word[0] <= '9'
}

proof fn lemma_tokens(word: Seq<char>)
    requires
        is_word(word),
    ensures
        names::is_ignored_token(word) == says_nothing(word),
{
    reveal_strlit("x86_64");
    assert("x86_64"@[3] == '_');
}

proof fn lemma_split_word(word: Seq<char>)
    requires
        is_word(word),
    ensures
        text::split(word, '-') == seq![word],
    decreases word.len(),
{
    if word.len() > 0 {
        let front = word.drop_last();
        assert forall|i: int| 0 <= i < front.len() implies front[i] != '-' && front[i] != '_'
            && front[i] != ' ' && !('A' <= #[trigger] front[i] <= 'Z') by {
            assert(front[i] == word[i]);
        }
        lemma_split_word(front);
        assert(word[word.len() - 1] != '-');
        assert(front.push(word.last()) =~= word);
        assert(text::split(word, '-') =~= seq![word]);
    } else {
        assert(word =~= Seq::empty());
        assert(text::split(word, '-') =~= seq![word]);
    }
}

proof fn lemma_split_first(word: Seq<char>, rest: Seq<char>)
    requires
        is_word(word),
    ensures
        text::split(word.push('-') + rest, '-') == seq![word] + text::split(rest, '-'),
    decreases rest.len(),
{
    let whole = word.push('-') + rest;
    text::lemma_split_nonempty(rest, '-');
    if rest.len() == 0 {
        lemma_split_word(word);
        assert(whole =~= word.push('-'));
        assert(whole.drop_last() =~= word);
        assert(text::split(whole, '-') =~= seq![word] + text::split(rest, '-'));
    } else {
        let shorter = rest.drop_last();
        lemma_split_first(word, shorter);
        text::lemma_split_nonempty(shorter, '-');
        assert(whole.drop_last() =~= word.push('-') + shorter);
        assert(whole.last() == rest.last());
        assert(text::split(whole, '-') =~= seq![word] + text::split(rest, '-'));
    }
}

proof fn lemma_joined_first(word: Seq<char>, more: Seq<Seq<char>>)
    ensures
        more.len() == 0 ==> text::joined(seq![word] + more, "-"@) == word,
        more.len() > 0 ==> text::joined(seq![word] + more, "-"@) == word + "-"@ + text::joined(
            more,
            "-"@,
        ),
    decreases more.len(),
{
    let all = seq![word] + more;
    reveal_with_fuel(text::joined, 3);
    if more.len() == 1 {
        assert(all.drop_last() =~= seq![word]);
        assert(text::joined(all, "-"@) =~= word + "-"@ + more[0]);
    } else if more.len() > 1 {
        lemma_joined_first(word, more.drop_last());
        assert(all.drop_last() =~= seq![word] + more.drop_last());
        assert(text::joined(all, "-"@) =~= word + "-"@ + text::joined(more, "-"@));
    }
}

proof fn lemma_words_show(tokens: Seq<Seq<char>>)
    ensures
        names::product_words(tokens).len() > 0 ==> text::joined(
            names::product_words(tokens),
            "-"@,
        ).len() > 0,
    decreases tokens.len(),
{
    let words = names::product_words(tokens);
    if words.len() > 0 {
        if tokens[0].len() == 0 || names::is_ignored_token(tokens[0]) {
            lemma_words_show(tokens.drop_first());
        } else {
            lemma_joined_first(tokens[0], names::product_words(tokens.drop_first()));
        }
    }
}

proof fn lemma_small(word: Seq<char>)
    requires
        is_word(word),
    ensures
        names::dashed(text::lowered(word)) == word,
{
    assert(text::lowered(word) =~= word) by {
        assert forall|i: int| 0 <= i < word.len() implies text::lower_char(word[i])
            == word[i] by {
            assert(!('A' <= word[i] <= 'Z'));
        }
    }
    assert(names::dashed(word) =~= word);
}

/// The product that a name of one word speaks of is that word, and none where the
/// word begins a version or says nothing.
pub proof fn law_a_word_names_a_product(word: Seq<char>)
    requires
        is_word(word),
    ensures
        names::product_name(word) == if begins_a_version(word) || says_nothing(word) {
            Seq::<char>::empty()
        } else {
            word
        },
{
    lemma_small(word);
    lemma_split_word(word);
    lemma_tokens(word);
    let tokens = seq![word];
    reveal_with_fuel(names::product_words, 2);
    assert(tokens.drop_first() =~= Seq::<Seq<char>>::empty());
    lemma_joined_first(word, Seq::empty());
    assert(seq![word] + Seq::<Seq<char>>::empty() =~= seq![word]);
    if begins_a_version(word) || says_nothing(word) {
        assert(names::product_words(tokens) =~= Seq::<Seq<char>>::empty());
    } else if word.len() == 0 {
        assert(names::product_words(tokens) =~= Seq::<Seq<char>>::empty());
        assert(names::product_name(word) =~= word);
    }
}

/// A product is named by the words in front of a version, with a dash between them,
/// whether a dash, an underscore or a blank stood there. A word that says nothing is
/// passed over, and so is an empty one; with a word that begins a version the name is
/// at its end.
pub proof fn law_products_are_named_word_by_word(word: Seq<char>, between: char, rest: Seq<char>)
    requires
        is_word(word),
        between == '-' || between == '_' || between == ' ',
    ensures
        ({
            let whole = names::product_name(word + seq![between] + rest);
            let behind = names::product_name(rest);
            &&& begins_a_version(word) ==> whole.len() == 0
            &&& word.len() == 0 || says_nothing(word) ==> whole == behind
            &&& word.len() > 0 && !begins_a_version(word) && !says_nothing(word) ==> whole
                == if behind.len() == 0 {
                word
            } else {
                word + "-"@ + behind
            }
        }),
{
    let plain = names::dashed(text::lowered(rest));
    let whole = word + seq![between] + rest;
    lemma_small(word);
    assert(names::dashed(text::lowered(whole)) =~= word.push('-') + plain) by {
        assert forall|i: int| 0 <= i < whole.len() implies names::dashed(
            text::lowered(whole),
        )[i] == (word.push('-') + plain)[i] by {
            if i < word.len() {
                assert(names::dashed(text::lowered(word))[i] == word[i]);
                assert(whole[i] == word[i]);
            } else if i > word.len() {
                assert(whole[i] == rest[i - word.len() - 1]);
            }
        }
    }
    lemma_split_first(word, plain);
    lemma_tokens(word);
    let tokens = text::split(plain, '-');
    let all = seq![word] + tokens;
    assert(all[0] == word);
    assert(all.drop_first() =~= tokens);
    lemma_words_show(tokens);
    lemma_joined_first(word, names::product_words(tokens));
    if says_nothing(word) {
        reveal_strlit("amd64");
        reveal_strlit("x86");
        reveal_strlit("x64");
        reveal_strlit("arm64");
        reveal_strlit("aarch64");
        reveal_strlit("linux");
        reveal_strlit("windows");
        reveal_strlit("win");
        reveal_strlit("macos");
        reveal_strlit("setup");
        reveal_strlit("installer");
        assert(!begins_a_version(word));
    }
}

/// Capitals do not tell products apart.
pub proof fn law_products_are_named_in_small_letters(name: Seq<char>)
    ensures
        names::product_name(text::lowered(name)) == names::product_name(name),
{
    assert(text::lowered(text::lowered(name)) =~= text::lowered(name));
}

} // verus!
