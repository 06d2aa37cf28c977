//! Questions about the characters of a string.

use vstd::prelude::*;

verus! {

/// `word` stands in `text` with its first character at index `at`.
pub open spec fn occurs_at(text: Seq<char>, word: Seq<char>, at: int) -> bool {
    &&& 0 <= at
    &&& at + word.len() <= text.len()
    &&& text.subrange(at, at + word.len()) == word
}

/// `word` stands somewhere in `text`.
pub open spec fn contains_text(text: Seq<char>, word: Seq<char>) -> bool {
    exists|at: int| occurs_at(text, word, at)
}

/// The characters of `text`, in order.
pub fn chars_of(text: &str) -> (chars: Vec<char>)
    ensures
        chars@ == text@,
{
    let mut chars: Vec<char> = Vec::new();
    for c in it: text.chars()
        invariant
            it.seq() == text@,
            chars@ == text@.take(it.index()),
    {
        chars.push(c);
    }
    assert(text@.take(text@.len() as int) == text@);
    chars
}

/// Whether `word` stands in `text` at index `at`.
fn word_at(text: &Vec<char>, word: &Vec<char>, at: usize) -> (found: bool)
    requires
        at + word.len() <= text.len(),
    ensures
        found == occurs_at(text@, word@, at as int),
{
    let mut i: usize = 0;
    while i < word.len()
        invariant
            i <= word.len(),
            at + word.len() <= text.len(),
            forall|k: int| 0 <= k < i ==> text@[at + k] == word@[k],
        decreases word.len() - i,
    {
        if text[at + i] != word[i] {
            assert(text@.subrange(at as int, at + word@.len())[i as int] != word@[i as int]);
            return false;
        }
        i += 1;
    }
    assert(text@.subrange(at as int, at + word@.len()) =~= word@);
    true
}

/// Whether `word` stands somewhere in `text`.
pub fn contains(text: &str, word: &str) -> (found: bool)
    ensures
        found == contains_text(text@, word@),
{
    let text_chars = chars_of(text);
    let word_chars = chars_of(word);
    if word_chars.len() > text_chars.len() {
        return false;
    }
    let last: usize = text_chars.len() - word_chars.len();
    let mut at: usize = 0;
    while at <= last
        invariant
            text_chars@ == text@,
            word_chars@ == word@,
            last == text_chars.len() - word_chars.len(),
            at <= last + 1,
            forall|k: int| 0 <= k < at ==> !occurs_at(text@, word@, k),
        decreases last + 1 - at,
    {
        if word_at(&text_chars, &word_chars, at) {
            return true;
        }
        if at == last {
            return false;
        }
        at += 1;
    }
    false
}

/// A word stands in a text if and only if the text is the word with something, or
/// nothing, in front of it and behind it.
pub proof fn law_contains_finds_the_word(
    text: &str,
    word: &str,
    found: bool,
    front: Seq<char>,
    back: Seq<char>,
)
    requires
        call_ensures(contains, (text, word), found),
    ensures
        text@ == front + word@ + back ==> found,
        found ==> exists|at: int|
            0 <= at <= text@.len() - word@.len() && #[trigger] text@.take(at) + word@ + text@.skip(
                at + word@.len(),
            ) == text@,
{
    if text@ == front + word@ + back {
        let at = front.len() as int;
        assert(text@.subrange(at, at + word@.len()) =~= word@);
        assert(occurs_at(text@, word@, at));
    }
    if found {
        let at = choose|at: int| occurs_at(text@, word@, at);
        assert(text@.take(at) + word@ + text@.skip(at + word@.len()) =~= text@) by {
            let part = text@.subrange(at, at + word@.len());
            assert(part == word@);
            assert forall|i: int| at <= i < at + word@.len() implies text@[i] == word@[i - at] by {
                assert(part[i - at] == text@[i]);
            }
        }
    }
}

} // verus!
