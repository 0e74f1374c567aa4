//! Words for lexical search.

use vstd::prelude::*;
use vstd::string::*;

verus! {

/// Whether a character is alphabetic or numeric in Unicode, as
/// `char::is_alphanumeric` tells.
pub uninterp spec fn alphanumeric(c: char) -> bool;

/// The lowercase mapping of a character in Unicode, as `char::to_lowercase`
/// gives it.
pub uninterp spec fn lowercase(c: char) -> Seq<char>;

/// Whether a character is one of the first 128.
pub open spec fn ascii(c: char) -> bool {
    c <= '\u{7f}'
}

/// The letters and digits of ASCII.
pub open spec fn ascii_alphanumeric(c: char) -> bool {
    ||| 'a' <= c <= 'z'
    ||| 'A' <= c <= 'Z'
    ||| '0' <= c <= '9'
}

/// The lowercase letter of an ASCII letter; other characters are kept.
pub open spec fn ascii_lowercase(c: char) -> char {
    if 'A' <= c <= 'Z' {
        (c as u32 + 32) as char
    } else {
        c
    }
}

/// `char::is_alphanumeric` of the standard library. The result is named by
/// [`alphanumeric`]; for ASCII it is true of letters and digits only.
pub assume_specification[ char::is_alphanumeric ](c: char) -> (b: bool)
    ensures
        b == alphanumeric(c),
        ascii(c) ==> b == ascii_alphanumeric(c),
;

/// `char::to_lowercase` of the standard library. The characters that the
/// mapping yields are named by [`lowercase`]; there is at least one, and for
/// ASCII it is exactly the lowercase letter, or the character itself.
#[verifier::external_body]
fn to_lowercase(c: char) -> (mapped: Vec<char>)
    ensures
        mapped@ == lowercase(c),
        mapped@.len() >= 1,
        ascii(c) ==> mapped@ == seq![ascii_lowercase(c)],
{
    c.to_lowercase().collect()
}

/// Whether a character belongs to words.
pub open spec fn word_char(c: char) -> bool {
    alphanumeric(c) || c == '_'
}

/// How many characters at the start of `text` belong to a word.
pub open spec fn word_length(text: Seq<char>) -> nat
    decreases text.len(),
{
    if text.len() == 0 || !word_char(text.first()) {
        0
    } else {
        1 + word_length(text.drop_first())
    }
}

/// The lowercase mappings of characters, joined.
pub open spec fn lowered(text: Seq<char>) -> Seq<char>
    decreases text.len(),
{
    if text.len() == 0 {
        Seq::empty()
    } else {
        lowered(text.drop_last()) + lowercase(text.last())
    }
}

/// The words of `text`, in lowercase: its longest runs of word characters.
pub open spec fn words(text: Seq<char>) -> Seq<Seq<char>>
    decreases text.len(),
{
    if text.len() == 0 {
        Seq::empty()
    } else if !word_char(text.first()) {
        words(text.drop_first())
    } else {
        let length = word_length(text) as int;
        proof {
            lemma_word_length(text);
        }
        seq![lowered(text.take(length))] + words(text.skip(length))
    }
}

/// Strings as character sequences.
pub open spec fn texts(strings: Seq<String>) -> Seq<Seq<char>> {
    Seq::new(strings.len(), |i: int| strings[i]@)
}

pub proof fn lemma_word_length(text: Seq<char>)
    ensures
        word_length(text) <= text.len(),
        forall|i: int| 0 <= i < word_length(text) ==> word_char(#[trigger] text[i]),
        word_length(text) < text.len() ==> !word_char(text[word_length(text) as int]),
        text.len() > 0 && word_char(text.first()) ==> word_length(text) > 0,
    decreases text.len(),
{
    if text.len() > 0 && word_char(text.first()) {
        let rest = text.drop_first();
        lemma_word_length(rest);
        assert forall|i: int| 0 <= i < word_length(text) implies word_char(#[trigger] text[i]) by {
            if i > 0 {
                assert(text[i] == rest[i - 1]);
            }
        }
    }
}

proof fn lemma_word_length_is(text: Seq<char>, length: int)
    requires
        0 <= length <= text.len(),
        forall|i: int| 0 <= i < length ==> word_char(#[trigger] text[i]),
        length < text.len() ==> !word_char(text[length]),
    ensures
        word_length(text) == length,
    decreases text.len(),
{
    if length > 0 {
        let rest = text.drop_first();
        assert forall|i: int| 0 <= i < length - 1 implies word_char(#[trigger] rest[i]) by {
            assert(rest[i] == text[i + 1]);
        }
        lemma_word_length_is(rest, length - 1);
    }
}

/// A run of word characters before a separator is the first word.
proof fn lemma_words_split(run: Seq<char>, separator: char, rest: Seq<char>)
    requires
        forall|i: int| 0 <= i < run.len() ==> word_char(#[trigger] run[i]),
        !word_char(separator),
    ensures
        words(run + seq![separator] + rest) == (if run.len() == 0 {
            Seq::empty()
        } else {
            seq![lowered(run)]
        }) + words(rest),
{
    let text = run + seq![separator] + rest;
    let tail = seq![separator] + rest;
    assert(tail.drop_first() =~= rest);
    if run.len() == 0 {
        assert(text =~= tail);
        assert(!word_char(text.first()));
        assert(text.drop_first() =~= rest);
        assert(Seq::<Seq<char>>::empty() + words(rest) =~= words(rest));
    } else {
        assert(!word_char(tail.first()));
        assert(words(tail) == words(rest));
        assert forall|i: int| 0 <= i < run.len() implies word_char(#[trigger] text[i]) by {
            assert(text[i] == run[i]);
        }
        assert(text[run.len() as int] == separator);
        lemma_word_length_is(text, run.len() as int);
        assert(text.take(run.len() as int) =~= run);
        assert(text.skip(run.len() as int) =~= tail);
        assert(text.first() == run[0]);
    }
}

proof fn lemma_words_of_run(run: Seq<char>)
    requires
        forall|i: int| 0 <= i < run.len() ==> word_char(#[trigger] run[i]),
    ensures
        words(run) == if run.len() == 0 {
            Seq::<Seq<char>>::empty()
        } else {
            seq![lowered(run)]
        },
{
    if run.len() > 0 {
        lemma_word_length_is(run, run.len() as int);
        assert(run.take(run.len() as int) =~= run);
        assert(run.skip(run.len() as int) =~= Seq::empty());
        assert(words(run.skip(run.len() as int)) =~= Seq::empty());
        assert(words(run) =~= seq![lowered(run)]);
    }
}

proof fn lemma_lowered_push(run: Seq<char>, c: char)
    ensures
        lowered(run.push(c)) == lowered(run) + lowercase(c),
{
    assert(run.push(c).drop_last() =~= run);
}

/// Splits `text` into its words, in lowercase. No word is empty.
pub fn tokenize_for_search(text: &str) -> (terms: Vec<String>)
    ensures
        texts(terms@) == words(text@),
        forall|i: int| 0 <= i < terms@.len() ==> (#[trigger] terms@[i])@.len() > 0,
{
    let ghost chars = text@;
    let mut terms: Vec<String> = Vec::new();
    let mut term: String = String::new();
    let ghost mut start: int = 0;
    proof {
        assert(chars.skip(0) =~= chars);
        assert(texts(terms@) + words(chars) =~= words(chars));
        assert(chars.subrange(0, 0) =~= Seq::empty());
    }
    for character in iter: text.chars()
        invariant
            iter.seq() == chars,
            chars == text@,
            0 <= start <= iter.index(),
            forall|i: int| start <= i < iter.index() ==> word_char(#[trigger] chars[i]),
            term@ == lowered(chars.subrange(start, iter.index())),
            term@.len() >= iter.index() - start,
            texts(terms@) + words(chars.skip(start)) == words(chars),
            forall|i: int| 0 <= i < terms@.len() ==> (#[trigger] terms@[i])@.len() > 0,
    {
        let ghost index = iter.index();
        let ghost run = chars.subrange(start, index);
        if character.is_alphanumeric() || character == '_' {
            let mapped = to_lowercase(character);
            let ghost before = term@;
            for position in 0..mapped.len()
                invariant
                    term@ == before + mapped@.take(position as int),
            {
                term.push(mapped[position]);
                assert(mapped@.take(position + 1) =~= mapped@.take(position as int).push(
                    mapped@[position as int],
                ));
                assert(term@ =~= before + mapped@.take(position + 1));
            }
            proof {
                assert(mapped@.take(mapped@.len() as int) =~= mapped@);
                assert(chars.subrange(start, index + 1) =~= run.push(character));
                lemma_lowered_push(run, character);
            }
        } else {
            proof {
                assert(chars.skip(start) =~= run + seq![character] + chars.skip(index + 1));
                lemma_words_split(run, character, chars.skip(index + 1));
                assert(chars.subrange(index + 1, index + 1) =~= Seq::empty());
            }
            let ghost before = texts(terms@);
            if !term.as_str().is_empty() {
                assert(run.len() > 0) by {
                    if run.len() == 0 {
                        assert(run =~= Seq::empty());
                    }
                }
                terms.push(term);
                term = String::new();
                assert(texts(terms@) =~= before.push(lowered(run)));
                assert(texts(terms@) + words(chars.skip(index + 1)) =~= before + (seq![
                    lowered(run),
                ] + words(chars.skip(index + 1))));
            } else {
                assert(before + words(chars.skip(index + 1)) =~= before + (Seq::empty() + words(
                    chars.skip(index + 1),
                )));
            }
            proof {
                start = index + 1;
            }
        }
    }
    let ghost run = chars.skip(start);
    proof {
        assert(chars.subrange(start, chars.len() as int) =~= run);
        assert forall|i: int| 0 <= i < run.len() implies word_char(#[trigger] run[i]) by {
            assert(run[i] == chars[start + i]);
        }
        lemma_words_of_run(run);
    }
    let ghost before = texts(terms@);
    if !term.as_str().is_empty() {
        assert(run.len() > 0) by {
            if run.len() == 0 {
                assert(run =~= Seq::empty());
            }
        }
        terms.push(term);
        assert(texts(terms@) =~= before + words(run));
    } else {
        assert(before + words(run) =~= before);
    }
    terms
}

/// A separator ends a word: the words of two texts with one between them are
/// the words of the first, then those of the second.
pub proof fn law_words_separated(left: Seq<char>, separator: char, right: Seq<char>)
    requires
        !word_char(separator),
    ensures
        words(left + seq![separator] + right) == words(left) + words(right),
    decreases left.len(),
{
    let text = left + seq![separator] + right;
    if left.len() == 0 {
        assert(text =~= seq![separator] + right);
        assert(text.drop_first() =~= right);
        assert(words(left) + words(right) =~= words(right));
    } else if !word_char(left.first()) {
        law_words_separated(left.drop_first(), separator, right);
        assert(text.drop_first() =~= left.drop_first() + seq![separator] + right);
        assert(text.first() == left.first());
    } else {
        let length = word_length(left) as int;
        lemma_word_length(left);
        let run = left.take(length);
        let rest = left.skip(length);
        assert forall|i: int| 0 <= i < length implies word_char(#[trigger] text[i]) by {
            assert(text[i] == left[i]);
        }
        if length < left.len() {
            assert(text[length] == left[length]);
        } else {
            assert(text[length] == separator);
        }
        lemma_word_length_is(text, length);
        assert(text.take(length) =~= run);
        assert(text.skip(length) =~= rest + seq![separator] + right);
        assert(text.first() == left.first());
        law_words_separated(rest, separator, right);
        assert(words(text) =~= words(left) + words(right));
    }
}

/// A run of characters of words, with no other character in it, is one word:
/// its lowercase form.
pub proof fn law_words_of_run(run: Seq<char>)
    requires
        run.len() > 0,
        forall|i: int| 0 <= i < run.len() ==> word_char(#[trigger] run[i]),
    ensures
        words(run) == seq![lowered(run)],
{
    lemma_words_of_run(run);
}

/// The lowercase form of a text is that of its characters, one after another.
pub proof fn law_lowered(left: Seq<char>, right: Seq<char>)
    ensures
        lowered(left + right) == lowered(left) + lowered(right),
        forall|c: char| #[trigger] lowered(seq![c]) == lowercase(c),
        lowered(Seq::empty()) == Seq::<char>::empty(),
    decreases right.len(),
{
    assert forall|c: char| #[trigger] lowered(seq![c]) == lowercase(c) by {
        assert(Seq::<char>::empty().push(c) =~= seq![c]);
        lemma_lowered_push(Seq::empty(), c);
        assert(Seq::<char>::empty() + lowercase(c) =~= lowercase(c));
    }
    if right.len() == 0 {
        assert(left + right =~= left);
        assert(lowered(left) + lowered(right) =~= lowered(left));
    } else {
        law_lowered(left, right.drop_last());
        assert((left + right).drop_last() =~= left + right.drop_last());
        assert(lowered(left + right) =~= lowered(left) + lowered(right));
    }
}

/// The characters of words are the letters and digits of Unicode, and the
/// underscore.
pub proof fn law_word_char(c: char)
    ensures
        word_char(c) <==> alphanumeric(c) || c == '_',
{
}

/// A text without a character of words has no words.
pub proof fn law_no_words(text: Seq<char>)
    requires
        forall|i: int| 0 <= i < text.len() ==> !word_char(#[trigger] text[i]),
    ensures
        words(text).len() == 0,
    decreases text.len(),
{
    if text.len() > 0 {
        let rest = text.drop_first();
        assert forall|i: int| 0 <= i < rest.len() implies !word_char(#[trigger] rest[i]) by {
            assert(rest[i] == text[i + 1]);
        }
        law_no_words(rest);
        assert(!word_char(text[0]));
    }
}

} // verus!
