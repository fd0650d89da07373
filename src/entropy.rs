//! The distribution of feedback patterns that a guess would receive over the candidates: the
//! group sizes from which its entropy is computed.
use vstd::prelude::*;
use itertools::Itertools;
use crate::counting::{count_in, lemma_count_ext, lemma_count_gap};
use crate::feedback::{feedback, feedback_of, Pattern};

verus! {

/// The letters of each vector.
pub open spec fn letter_views(v: Seq<Vec<char>>) -> Seq<Seq<char>> {
    v.map_values(|x: Vec<char>| x@)
}

/// The marks of each vector.
pub open spec fn outcome_views(v: Seq<Vec<Pattern>>) -> Seq<Seq<Pattern>> {
    v.map_values(|x: Vec<Pattern>| x@)
}

/// The feedback that guess `g` receives against each candidate, in order.
pub open spec fn feedbacks(g: Seq<char>, candidates: Seq<Seq<char>>) -> Seq<Seq<Pattern>> {
    Seq::new(candidates.len(), |k: int| feedback(g, candidates[k]))
}

/// Holds at the indices of `outcomes` that hold `key`.
pub open spec fn equal_to(outcomes: Seq<Seq<Pattern>>, key: Seq<Pattern>) -> spec_fn(int) -> bool {
    |k: int| outcomes[k] == key
}

/// How many times `key` occurs in `outcomes`.
pub open spec fn frequency(outcomes: Seq<Seq<Pattern>>, key: Seq<Pattern>) -> nat {
    count_in(outcomes.len() as int, equal_to(outcomes, key))
}

/// Some entry of `d` is for `key`.
pub open spec fn has_outcome(d: Seq<(Vec<Pattern>, usize)>, key: Seq<Pattern>) -> bool {
    exists|a: int| 0 <= a < d.len() && #[trigger] d[a].0@ == key
}

/// `d` holds each distinct element of `outcomes` once, with the number of times it occurs.
pub open spec fn is_distribution(outcomes: Seq<Seq<Pattern>>, d: Seq<(Vec<Pattern>, usize)>) -> bool {
    &&& forall|a: int, b: int| 0 <= a < b < d.len() ==> d[a].0@ != d[b].0@
    &&& forall|a: int|
        0 <= a < d.len() ==> #[trigger] d[a].1 == frequency(outcomes, d[a].0@) && d[a].1 > 0
    &&& forall|k: int| 0 <= k < outcomes.len() ==> #[trigger] has_outcome(d, outcomes[k])
}

/// The sum of the first `m` group sizes of `d`.
pub open spec fn sum_sizes(d: Seq<(Vec<Pattern>, usize)>, m: int) -> nat
    decreases m,
{
    if m <= 0 {
        0
    } else {
        sum_sizes(d, m - 1) + d[m - 1].1 as nat
    }
}

/// The sum of all group sizes of `d`.
pub open spec fn total(d: Seq<(Vec<Pattern>, usize)>) -> nat {
    sum_sizes(d, d.len() as int)
}

/// The sum of the frequencies in `outcomes` of the first `m` keys of `d`.
spec fn frequency_sum(outcomes: Seq<Seq<Pattern>>, d: Seq<(Vec<Pattern>, usize)>, m: int) -> nat
    decreases m,
{
    if m <= 0 {
        0
    } else {
        frequency_sum(outcomes, d, m - 1) + frequency(outcomes, d[m - 1].0@)
    }
}

spec fn keyed_as(d: Seq<(Vec<Pattern>, usize)>, o: Seq<Pattern>) -> spec_fn(int) -> bool {
    |a: int| d[a].0@ == o
}

proof fn lemma_frequency_sum_last(outcomes: Seq<Seq<Pattern>>, d: Seq<(Vec<Pattern>, usize)>, m: int)
    requires
        outcomes.len() > 0,
        0 <= m <= d.len(),
    ensures
        frequency_sum(outcomes, d, m) == frequency_sum(outcomes.drop_last(), d, m) + count_in(
            m,
            keyed_as(d, outcomes.last()),
        ),
    decreases m,
{
    if m > 0 {
        lemma_frequency_sum_last(outcomes, d, m - 1);
        let key = d[m - 1].0@;
        let rest = outcomes.drop_last();
        lemma_count_ext(rest.len() as int, equal_to(outcomes, key), equal_to(rest, key));
    }
}

proof fn lemma_frequency_sum_empty(outcomes: Seq<Seq<Pattern>>, d: Seq<(Vec<Pattern>, usize)>, m: int)
    requires
        outcomes.len() == 0,
    ensures
        frequency_sum(outcomes, d, m) == 0,
    decreases m,
{
    if m > 0 {
        lemma_frequency_sum_empty(outcomes, d, m - 1);
    }
}

proof fn lemma_frequency_sum_covers(outcomes: Seq<Seq<Pattern>>, d: Seq<(Vec<Pattern>, usize)>)
    requires
        forall|a: int, b: int| 0 <= a < b < d.len() ==> d[a].0@ != d[b].0@,
        forall|k: int| 0 <= k < outcomes.len() ==> #[trigger] has_outcome(d, outcomes[k]),
    ensures
        frequency_sum(outcomes, d, d.len() as int) == outcomes.len(),
    decreases outcomes.len(),
{
    if outcomes.len() == 0 {
        lemma_frequency_sum_empty(outcomes, d, d.len() as int);
    } else {
        let rest = outcomes.drop_last();
        let o = outcomes.last();
        assert forall|k: int| 0 <= k < rest.len() implies #[trigger] has_outcome(d, rest[k]) by {
            assert(has_outcome(d, outcomes[k]));
        }
        lemma_frequency_sum_covers(rest, d);
        lemma_frequency_sum_last(outcomes, d, d.len() as int);
        assert(has_outcome(d, outcomes[outcomes.len() - 1]));
        let a0 = choose|a: int| 0 <= a < d.len() && #[trigger] d[a].0@ == o;
        let f = keyed_as(d, o);
        assert forall|a: int| 0 <= a < d.len() && a != a0 implies !#[trigger] f(a) by {
            if a < a0 {
                assert(d[a].0@ != d[a0].0@);
            } else {
                assert(d[a0].0@ != d[a].0@);
            }
        }
        lemma_count_gap(0, a0, f);
        lemma_count_gap(a0 + 1, d.len() as int, f);
    }
}

proof fn lemma_sizes_are_frequencies(outcomes: Seq<Seq<Pattern>>, d: Seq<(Vec<Pattern>, usize)>, m: int)
    requires
        is_distribution(outcomes, d),
        0 <= m <= d.len(),
    ensures
        sum_sizes(d, m) == frequency_sum(outcomes, d, m),
    decreases m,
{
    if m > 0 {
        lemma_sizes_are_frequencies(outcomes, d, m - 1);
        assert(d[m - 1].1 == frequency(outcomes, d[m - 1].0@));
    }
}

/// The group sizes of a distribution add up to the number of outcomes, so that each size over
/// that number is a probability.
pub proof fn lemma_distribution_total(outcomes: Seq<Seq<Pattern>>, d: Seq<(Vec<Pattern>, usize)>)
    requires
        is_distribution(outcomes, d),
    ensures
        total(d) == outcomes.len(),
{
    lemma_sizes_are_frequencies(outcomes, d, d.len() as int);
    lemma_frequency_sum_covers(outcomes, d);
}

/// Relies on itertools' `Itertools::into_group_map`: one group for each distinct pattern,
/// holding one entry for each occurrence of that pattern.
#[verifier::external_body]
fn group_counts(patterns: &Vec<Vec<Pattern>>) -> (r: Vec<(Vec<Pattern>, usize)>)
    ensures
        is_distribution(outcome_views(patterns@), r@),
{
    patterns.iter().map(|t| (t, t)).into_group_map().into_iter().map(
        |(key, group)| (key.clone(), group.len()),
    ).collect()
}

/// The feedback patterns that `guess` receives against the candidates, with how many
/// candidates give each.
pub fn pattern_distribution(guess: &Vec<char>, candidates: &Vec<Vec<char>>) -> (r: Vec<
    (Vec<Pattern>, usize),
>)
    requires
        forall|k: int| 0 <= k < candidates.len() ==> #[trigger] candidates@[k].len() == guess.len(),
    ensures
        is_distribution(feedbacks(guess@, letter_views(candidates@)), r@),
        total(r@) == candidates.len(),
{
    let mut patterns: Vec<Vec<Pattern>> = Vec::new();
    let mut k: usize = 0;
    while k < candidates.len()
        invariant
            k <= candidates.len(),
            patterns.len() == k,
            forall|j: int| 0 <= j < candidates.len() ==> #[trigger] candidates@[j].len() == guess.len(),
            forall|j: int| 0 <= j < k ==> #[trigger] patterns@[j]@ == feedback(guess@, candidates@[j]@),
        decreases candidates.len() - k,
    {
        patterns.push(feedback_of(guess, &candidates[k]));
        k += 1;
    }
    assert(outcome_views(patterns@) =~= feedbacks(guess@, letter_views(candidates@)));
    let r = group_counts(&patterns);
    proof {
        lemma_distribution_total(feedbacks(guess@, letter_views(candidates@)), r@);
    }
    r
}

} // verus!
