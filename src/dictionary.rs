//! Reading one line of the word list: `word;frequency`.
use vstd::prelude::*;
use vstd::string::{StrSliceExecFns, StringExecFns};
use crate::feedback::letters_of;

verus! {

/// The ASCII transliteration that deunicode gives of a text.
pub uninterp spec fn transliteration(s: Seq<char>) -> Seq<char>;

/// Whether a character has Unicode's `Alphabetic` property.
pub uninterp spec fn alphabetic(c: char) -> bool;

/// Relies on `deunicode::deunicode`: the ASCII transliteration of a text, which depends on the
/// text alone.
#[verifier::external_body]
fn transliterate(s: &str) -> (r: String)
    ensures
        r@ == transliteration(s@),
{
    deunicode::deunicode(s)
}

/// Relies on `char::is_alphabetic`: whether the character has the `Alphabetic` property.
#[verifier::external_body]
fn is_alphabetic(c: char) -> (r: bool)
    ensures
        r == alphabetic(c),
{
    c.is_alphabetic()
}

/// `k` is the position of the first `;` of `line`.
pub open spec fn first_separator(line: Seq<char>, k: int) -> bool {
    &&& 0 <= k < line.len()
    &&& line[k] == ';'
    &&& forall|j: int| 0 <= j < k ==> line[j] != ';'
}

/// `word` is made of letters, has `word_length` of them, and its transliteration starts with the
/// first character of `first_char` unless that is empty.
pub open spec fn word_selected(word: Seq<char>, word_length: nat, first_char: Seq<char>) -> bool {
    &&& forall|i: int| 0 <= i < word.len() ==> #[trigger] alphabetic(word[i])
    &&& word.len() == word_length
    &&& first_char.len() == 0 || (transliteration(word).len() > 0 && transliteration(word)[0]
        == first_char[0])
}

/// Splits a `word;frequency` line at its first `;` and keeps the transliterated word, with the
/// frequency text, when the word is selected for a game of `word_length` letters starting with
/// `first_char`; `None` for a line without `;` or a word that is not selected.
pub fn parse_entry(line: &str, word_length: usize, first_char: &str) -> (r: Option<(String, String)>)
    ensures
        (forall|k: int| 0 <= k < line@.len() ==> line@[k] != ';') ==> r is None,
        forall|k: int|
            #[trigger] first_separator(line@, k) ==> match r {
                Some(entry) => word_selected(line@.take(k), word_length as nat, first_char@)
                    && entry.0@ == transliteration(line@.take(k)) && entry.1@ == line@.skip(k + 1),
                None => !word_selected(line@.take(k), word_length as nat, first_char@),
            },
{
    let letters = letters_of(line);
    let n = letters.len();
    let mut k: usize = 0;
    while k < n && letters[k] != ';'
        invariant
            letters@ == line@,
            n == line@.len(),
            k <= n,
            forall|j: int| 0 <= j < k ==> line@[j] != ';',
        decreases n - k,
    {
        k += 1;
    }
    if k == n {
        return None;
    }
    assert(first_separator(line@, k as int));
    assert forall|k2: int| #[trigger] first_separator(line@, k2) implies k2 == k by {
        if k2 < k {
            assert(line@[k2] != ';');
        } else if k2 > k {
            assert(line@[k as int] != ';');
        }
    }
    let word = line.substring_char(0, k);
    let frequency = line.substring_char(k + 1, n);
    assert(word@ =~= line@.take(k as int));
    assert(frequency@ =~= line@.skip(k + 1));
    let word_letters = letters_of(word);
    let mut all_letters = true;
    let mut i: usize = 0;
    while i < word_letters.len()
        invariant
            word_letters@ == word@,
            i <= word_letters.len(),
            all_letters == forall|j: int| 0 <= j < i ==> #[trigger] alphabetic(word@[j]),
        decreases word_letters.len() - i,
    {
        if !is_alphabetic(word_letters[i]) {
            all_letters = false;
        }
        i += 1;
    }
    let decoded = transliterate(word);
    let starts_well = if first_char.unicode_len() == 0 {
        true
    } else {
        decoded.as_str().unicode_len() > 0 && decoded.as_str().get_char(0) == first_char.get_char(0)
    };
    if all_letters && word_letters.len() == word_length && starts_well {
        Some((decoded, String::from_str(frequency)))
    } else {
        None
    }
}

} // verus!
