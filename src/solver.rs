//! Answering a request: rules from the history, candidates from the dictionary, and the feedback
//! distribution of every dictionary word over the candidates.
use vstd::prelude::*;
use rayon::iter::{IntoParallelRefIterator, ParallelIterator};
use crate::entropy::{feedbacks, is_distribution, letter_views, pattern_distribution};
use crate::feedback::{decoded, is_feedback_code, letters_of, parse_feedback, Pattern};
use crate::filter::{
    admitted_by, candidates, filter_candidates, lemma_filter_within, satisfies_all, texts,
};
use crate::rule::{accepts, Rule};

verus! {

/// Why a request is rejected.
#[derive(PartialEq, Eq, Structural, Clone, Copy, Debug)]
pub enum RequestError {
    /// A guess, a feedback code or a dictionary word does not have the game's word length.
    LengthMismatch,
    /// A feedback code holds a character other than `0`, `1`, `2`.
    InvalidFeedback,
}

/// A dictionary word, scored against the current candidates.
#[derive(Clone, Debug)]
pub struct WordleEntity {
    pub word: String,
    /// Each feedback pattern that the word would receive, with how many candidates give it.
    pub distribution: Vec<(Vec<Pattern>, usize)>,
    /// The word is itself a candidate.
    pub is_candidate: bool,
}

/// The state of a game as the player enters it: the guesses so far with their feedback codes,
/// the word length and an optional first letter.
#[derive(Clone, Debug)]
pub struct WordleStartEntity {
    pub steps: Vec<(String, String)>,
    pub word_length: usize,
    pub first_char: String,
}

/// `e` scores `word` against `candidates`.
pub open spec fn scored(e: WordleEntity, word: Seq<char>, candidates: Seq<Seq<char>>) -> bool {
    &&& e.word@ == word
    &&& e.is_candidate == candidates.contains(word)
    &&& is_distribution(feedbacks(word, candidates), e.distribution@)
}

/// The guess and the feedback code of `step` have length `n`.
pub open spec fn step_fits(step: (String, String), n: nat) -> bool {
    step.0@.len() == n && step.1@.len() == n
}

/// Every guess and feedback code of `steps` has length `n`.
pub open spec fn steps_fit(steps: Seq<(String, String)>, n: nat) -> bool {
    forall|k: int| 0 <= k < steps.len() ==> #[trigger] step_fits(steps[k], n)
}

/// Every word of `dictionary` has length `n`.
pub open spec fn words_fit(dictionary: Seq<String>, n: nat) -> bool {
    forall|i: int| 0 <= i < dictionary.len() ==> #[trigger] dictionary[i]@.len() == n
}

/// Every feedback code of `steps` is well formed.
pub open spec fn codes_valid(steps: Seq<(String, String)>) -> bool {
    forall|k: int| 0 <= k < steps.len() ==> #[trigger] is_feedback_code(steps[k].1@)
}

/// Word `w` is consistent with every guess of `steps` and its feedback.
pub open spec fn consistent(steps: Seq<(String, String)>, w: Seq<char>) -> bool {
    forall|k: int| 0 <= k < steps.len() ==> #[trigger] accepts(steps[k].0@, decoded(steps[k].1@), w)
}

/// The words consistent with every guess of `steps`.
pub open spec fn consistent_with(steps: Seq<(String, String)>) -> spec_fn(Seq<char>) -> bool {
    |w: Seq<char>| consistent(steps, w)
}

/// The words of `dictionary`, in order, that are consistent with every guess of `steps`.
pub open spec fn possible_words(steps: Seq<(String, String)>, dictionary: Seq<Seq<char>>) -> Seq<
    Seq<char>,
> {
    dictionary.filter(consistent_with(steps))
}

/// Scores one word: its feedback distribution over the candidates, and whether it is one.
fn score_word(word: &String, candidates: &Vec<String>, candidate_letters: &Vec<Vec<char>>) -> (r:
    WordleEntity)
    requires
        letter_views(candidate_letters@) == texts(candidates@),
        forall|k: int|
            0 <= k < candidate_letters.len() ==> #[trigger] candidate_letters@[k].len()
                == word@.len(),
    ensures
        scored(r, word@, texts(candidates@)),
{
    let letters = letters_of(word.as_str());
    let distribution = pattern_distribution(&letters, candidate_letters);
    let mut is_candidate = false;
    let mut k: usize = 0;
    while k < candidates.len()
        invariant
            k <= candidates.len(),
            is_candidate == exists|j: int| 0 <= j < k && #[trigger] candidates@[j]@ == word@,
        decreases candidates.len() - k,
    {
        if candidates[k] == *word {
            is_candidate = true;
        }
        k += 1;
    }
    proof {
        let t = texts(candidates@);
        if is_candidate {
            let j = choose|j: int| 0 <= j < k && #[trigger] candidates@[j]@ == word@;
            assert(t[j] == word@);
        }
        if t.contains(word@) {
            let j = choose|j: int| 0 <= j < t.len() && t[j] == word@;
            assert(candidates@[j]@ == word@);
        }
    }
    WordleEntity { word: word.clone(), distribution, is_candidate }
}

/// Relies on rayon's `par_iter().map(..).collect()` into a `Vec`: the map is applied to every
/// word, and the results come in the order of the words.
#[verifier::external_body]
fn score_all(words: &Vec<String>, candidates: &Vec<String>, candidate_letters: &Vec<Vec<char>>) -> (r:
    Vec<WordleEntity>)
    requires
        letter_views(candidate_letters@) == texts(candidates@),
        forall|i: int, k: int|
            0 <= i < words.len() && 0 <= k < candidate_letters.len() ==> #[trigger] candidate_letters@[k].len()
                == #[trigger] words@[i]@.len(),
    ensures
        r.len() == words.len(),
        forall|i: int| 0 <= i < words.len() ==> scored(#[trigger] r@[i], words@[i]@, texts(candidates@)),
{
    words.par_iter().map(|word| score_word(word, candidates, candidate_letters)).collect()
}

/// Scores every word of `dictionary` against the words of `dictionary` that are consistent with
/// every guess of `patterns` and its feedback code. Each guess, each code and each dictionary
/// word must have `word_length` letters, and each code may only hold `0`, `1`, `2`.
pub fn retrieve_recommended_words(
    patterns: &Vec<(String, String)>,
    word_length: usize,
    dictionary: &Vec<String>,
) -> (r: Result<Vec<WordleEntity>, RequestError>)
    ensures
        match r {
            Err(RequestError::LengthMismatch) => !(steps_fit(patterns@, word_length as nat)
                && words_fit(dictionary@, word_length as nat)),
            Err(RequestError::InvalidFeedback) => steps_fit(patterns@, word_length as nat)
                && words_fit(dictionary@, word_length as nat) && !codes_valid(patterns@),
            Ok(v) => {
                &&& steps_fit(patterns@, word_length as nat)
                &&& words_fit(dictionary@, word_length as nat)
                &&& codes_valid(patterns@)
                &&& v.len() == dictionary.len()
                &&& forall|i: int|
                    0 <= i < dictionary.len() ==> scored(
                        #[trigger] v@[i],
                        dictionary@[i]@,
                        possible_words(patterns@, texts(dictionary@)),
                    )
                &&& forall|i: int|
                    0 <= i < dictionary.len() ==> #[trigger] v@[i].is_candidate == consistent(
                        patterns@,
                        dictionary@[i]@,
                    )
            },
        },
{
    let mut k: usize = 0;
    while k < patterns.len()
        invariant
            k <= patterns.len(),
            forall|j: int| 0 <= j < k ==> #[trigger] step_fits(patterns@[j], word_length as nat),
        decreases patterns.len() - k,
    {
        let guess_length = patterns[k].0.as_str().unicode_len();
        let code_length = patterns[k].1.as_str().unicode_len();
        if guess_length != word_length || code_length != word_length {
            assert(!step_fits(patterns@[k as int], word_length as nat));
            return Err(RequestError::LengthMismatch);
        }
        assert(step_fits(patterns@[k as int], word_length as nat));
        k += 1;
    }
    let mut i: usize = 0;
    while i < dictionary.len()
        invariant
            i <= dictionary.len(),
            forall|j: int| 0 <= j < i ==> #[trigger] dictionary@[j]@.len() == word_length,
        decreases dictionary.len() - i,
    {
        if dictionary[i].as_str().unicode_len() != word_length {
            assert(dictionary@[i as int]@.len() != word_length);
            return Err(RequestError::LengthMismatch);
        }
        i += 1;
    }
    let mut rules: Vec<Rule> = Vec::new();
    let mut k: usize = 0;
    while k < patterns.len()
        invariant
            k <= patterns.len(),
            rules.len() == k,
            steps_fit(patterns@, word_length as nat),
            words_fit(dictionary@, word_length as nat),
            forall|j: int| 0 <= j < k ==> #[trigger] is_feedback_code(patterns@[j].1@),
            forall|j: int, w: Seq<char>|
                0 <= j < k ==> #[trigger] rules@[j].admits(w) == accepts(
                    patterns@[j].0@,
                    decoded(patterns@[j].1@),
                    w,
                ),
        decreases patterns.len() - k,
    {
        match parse_feedback(patterns[k].1.as_str()) {
            None => {
                return Err(RequestError::InvalidFeedback);
            },
            Some(marks) => {
                assert(step_fits(patterns@[k as int], word_length as nat));
                rules.push(Rule::new(patterns[k].0.as_str(), marks.as_slice()));
            },
        }
        k += 1;
    }
    let possible = filter_candidates(dictionary, &rules);
    let ghost d = texts(dictionary@);
    proof {
        assert(admitted_by(rules@) =~= consistent_with(patterns@)) by {
            assert forall|w: Seq<char>| #[trigger] satisfies_all(rules@, w) == consistent(patterns@, w) by {
                if satisfies_all(rules@, w) {
                    assert forall|j: int| 0 <= j < patterns.len() implies #[trigger] accepts(
                        patterns@[j].0@,
                        decoded(patterns@[j].1@),
                        w,
                    ) by {
                        assert(rules@[j].admits(w));
                    }
                }
                if consistent(patterns@, w) {
                    assert forall|j: int| 0 <= j < rules.len() implies #[trigger] rules@[j].admits(w) by {
                        assert(accepts(patterns@[j].0@, decoded(patterns@[j].1@), w));
                    }
                }
            }
        }
        lemma_filter_within(d, admitted_by(rules@));
    }
    let mut possible_letters: Vec<Vec<char>> = Vec::new();
    let mut k: usize = 0;
    while k < possible.len()
        invariant
            k <= possible.len(),
            possible_letters.len() == k,
            forall|j: int| 0 <= j < k ==> #[trigger] possible_letters@[j]@ == possible@[j]@,
        decreases possible.len() - k,
    {
        possible_letters.push(letters_of(possible[k].as_str()));
        k += 1;
    }
    proof {
        assert(letter_views(possible_letters@) =~= texts(possible@));
        assert forall|k: int| 0 <= k < possible_letters.len() implies #[trigger] possible_letters@[k].len()
            == word_length by {
            assert(texts(possible@)[k] == possible@[k]@);
            assert(candidates(d, rules@).contains(texts(possible@)[k]));
            let i = choose|i: int| 0 <= i < d.len() && d[i] == texts(possible@)[k];
            assert(dictionary@[i]@.len() == word_length);
        }
    }
    let scores = score_all(dictionary, &possible, &possible_letters);
    proof {
        assert forall|i: int| 0 <= i < dictionary.len() implies #[trigger] scores@[i].is_candidate
            == consistent(patterns@, dictionary@[i]@) by {
            assert(scored(scores@[i], dictionary@[i]@, texts(possible@)));
            assert(d[i] == dictionary@[i]@);
            let pw = possible_words(patterns@, d);
            if consistent(patterns@, d[i]) {
                d.lemma_filter_contains(consistent_with(patterns@), i);
            }
            if pw.contains(d[i]) {
                let j = choose|j: int| 0 <= j < pw.len() && pw[j] == d[i];
                d.lemma_filter_pred(consistent_with(patterns@), j);
            }
        }
    }
    Ok(scores)
}

} // verus!
