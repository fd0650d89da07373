//! Simulating the per-letter feedback that a guess receives against a target word.
use vstd::prelude::*;
use vstd::string::StrSliceExecFns;
use crate::counting::{count_in, lemma_count_ext, lemma_count_flip, lemma_count_positive, lemma_count_split};

verus! {

/// The mark given to one letter of a guess.
#[derive(PartialEq, Eq, Structural, Clone, Copy, Debug, Hash)]
pub enum Pattern {
    /// The letter is not in the target, or all its occurrences are already accounted for.
    Incorrect,
    /// The letter is in the target, at another position.
    Misplaced,
    /// The letter is in the target at this very position.
    Correct,
}

/// The smaller of two naturals.
pub open spec fn lesser(a: nat, b: nat) -> nat {
    if a < b {
        a
    } else {
        b
    }
}

/// Holds at the positions of `w` that hold `c`.
pub open spec fn holds_letter(w: Seq<char>, c: char) -> spec_fn(int) -> bool {
    |i: int| w[i] == c
}

/// How many times `c` occurs in `w`.
pub open spec fn occurrences(w: Seq<char>, c: char) -> nat {
    count_in(w.len() as int, holds_letter(w, c))
}

/// Holds at the positions where both the guess and the target hold `c`.
pub open spec fn in_place(g: Seq<char>, t: Seq<char>, c: char) -> spec_fn(int) -> bool {
    |i: int| g[i] == c && t[i] == c
}

/// How many positions hold `c` in both the guess and the target.
pub open spec fn exact_matches(g: Seq<char>, t: Seq<char>, c: char) -> nat {
    count_in(g.len() as int, in_place(g, t, c))
}

/// Holds at the positions where the target holds `c` and the guess holds another letter.
pub open spec fn target_unmatched(g: Seq<char>, t: Seq<char>, c: char) -> spec_fn(int) -> bool {
    |k: int| t[k] == c && g[k] != t[k]
}

/// How many positions of the target hold `c` without being matched in place by the guess.
pub open spec fn unmatched_in_target(g: Seq<char>, t: Seq<char>, c: char) -> nat {
    count_in(t.len() as int, target_unmatched(g, t, c))
}

/// Holds at the positions where the guess holds `c` and the target holds another letter.
pub open spec fn guess_unmatched(g: Seq<char>, t: Seq<char>, c: char) -> spec_fn(int) -> bool {
    |j: int| g[j] == c && g[j] != t[j]
}

/// How many positions before `i` hold `c` in the guess without matching the target in place.
pub open spec fn unmatched_in_guess_before(g: Seq<char>, t: Seq<char>, i: int, c: char) -> nat {
    count_in(i, guess_unmatched(g, t, c))
}

/// The mark of position `i`: in place, or else misplaced while the target still has an unmatched
/// occurrence of the letter left for it once the earlier unmatched occurrences took theirs.
pub open spec fn mark_at(g: Seq<char>, t: Seq<char>, i: int) -> Pattern {
    if g[i] == t[i] {
        Pattern::Correct
    } else if unmatched_in_guess_before(g, t, i, g[i]) < unmatched_in_target(g, t, g[i]) {
        Pattern::Misplaced
    } else {
        Pattern::Incorrect
    }
}

/// The feedback that guess `g` receives against target `t`.
pub open spec fn feedback(g: Seq<char>, t: Seq<char>) -> Seq<Pattern> {
    Seq::new(g.len(), |i: int| mark_at(g, t, i))
}

/// Holds at the positions of guess `g` that hold `c` and are marked other than `Incorrect`.
pub open spec fn hit(g: Seq<char>, p: Seq<Pattern>, c: char) -> spec_fn(int) -> bool {
    |i: int| g[i] == c && p[i] != Pattern::Incorrect
}

/// How many positions of guess `g` hold `c` and are marked other than `Incorrect` in `p`.
pub open spec fn marked(g: Seq<char>, p: Seq<Pattern>, c: char) -> nat {
    count_in(g.len() as int, hit(g, p, c))
}

spec fn taken_at(used: Seq<bool>, g: Seq<char>, t: Seq<char>, c: char) -> spec_fn(int) -> bool {
    |k: int| used[k] && t[k] == c && g[k] != t[k]
}

/// How many target positions holding `c`, not matched in place, have been taken already.
spec fn taken(used: Seq<bool>, g: Seq<char>, t: Seq<char>, c: char) -> nat {
    count_in(t.len() as int, taken_at(used, g, t, c))
}

spec fn free_at(used: Seq<bool>, t: Seq<char>, c: char) -> spec_fn(int) -> bool {
    |k: int| !used[k] && t[k] == c
}

spec fn misplaced_at(g: Seq<char>, t: Seq<char>, c: char) -> spec_fn(int) -> bool {
    |i: int|
        g[i] == c && g[i] != t[i] && unmatched_in_guess_before(g, t, i, c) < unmatched_in_target(
            g,
            t,
            c,
        )
}

spec fn same_at(g: Seq<char>, t: Seq<char>) -> spec_fn(int) -> bool {
    |i: int| g[i] == t[i]
}

proof fn lemma_taken_and_free(used: Seq<bool>, g: Seq<char>, t: Seq<char>, c: char)
    requires
        used.len() == t.len(),
        g.len() == t.len(),
        forall|k: int| 0 <= k < t.len() && g[k] == t[k] ==> #[trigger] used[k],
    ensures
        unmatched_in_target(g, t, c) == taken(used, g, t, c) + count_in(
            t.len() as int,
            free_at(used, t, c),
        ),
{
    let n = t.len() as int;
    let u = |k: int| used[k];
    let rest = |k: int| t[k] == c && g[k] != t[k] && !used[k];
    lemma_count_split(n, target_unmatched(g, t, c), u, taken_at(used, g, t, c), rest);
    lemma_count_ext(n, rest, free_at(used, t, c));
}

proof fn lemma_take(used: Seq<bool>, g: Seq<char>, t: Seq<char>, j: int)
    requires
        used.len() == t.len(),
        0 <= j < t.len(),
        !used[j],
        g[j] != t[j],
    ensures
        forall|d: char|
            #[trigger] taken(used.update(j, true), g, t, d) == taken(used, g, t, d) + if d == t[j] {
                1nat
            } else {
                0nat
            },
{
    let n = t.len() as int;
    let nu = used.update(j, true);
    assert forall|d: char|
        #[trigger] taken(nu, g, t, d) == taken(used, g, t, d) + if d == t[j] {
            1nat
        } else {
            0nat
        } by {
        if d == t[j] {
            lemma_count_flip(n, taken_at(used, g, t, d), taken_at(nu, g, t, d), j);
        } else {
            lemma_count_ext(n, taken_at(used, g, t, d), taken_at(nu, g, t, d));
        }
    }
}

/// The misplaced marks for a letter are as many as its unmatched guess occurrences, up to the
/// number of its unmatched target occurrences.
proof fn lemma_misplaced_count(g: Seq<char>, t: Seq<char>, c: char, m: int)
    requires
        g.len() == t.len(),
        0 <= m <= g.len(),
    ensures
        count_in(m, misplaced_at(g, t, c)) == lesser(
            unmatched_in_guess_before(g, t, m, c),
            unmatched_in_target(g, t, c),
        ),
    decreases m,
{
    if m > 0 {
        lemma_misplaced_count(g, t, c, m - 1);
    }
}

/// The marks other than `Incorrect` for a letter: its matches in place, and its unmatched
/// guess occurrences up to the number of its unmatched target occurrences.
pub proof fn lemma_marked_split(g: Seq<char>, t: Seq<char>, c: char)
    requires
        g.len() == t.len(),
    ensures
        marked(g, feedback(g, t), c) == exact_matches(g, t, c) + lesser(
            unmatched_in_guess_before(g, t, g.len() as int, c),
            unmatched_in_target(g, t, c),
        ),
        occurrences(t, c) == exact_matches(g, t, c) + unmatched_in_target(g, t, c),
{
    let n = g.len() as int;
    let p = feedback(g, t);
    lemma_count_split(
        n,
        holds_letter(t, c),
        same_at(g, t),
        in_place(g, t, c),
        target_unmatched(g, t, c),
    );
    lemma_count_split(n, hit(g, p, c), same_at(g, t), in_place(g, t, c), misplaced_at(g, t, c));
    lemma_misplaced_count(g, t, c, n);
}

/// A word compared with itself is marked `Correct` at every position.
pub proof fn lemma_self_feedback_all_correct(w: Seq<char>)
    ensures
        feedback(w, w).len() == w.len(),
        forall|i: int| 0 <= i < w.len() ==> #[trigger] feedback(w, w)[i] == Pattern::Correct,
{
}

/// For any letter, the marks other than `Incorrect` that it receives in a guess never outnumber
/// its occurrences in the target.
pub proof fn lemma_marks_within_target(g: Seq<char>, t: Seq<char>, c: char)
    requires
        g.len() == t.len(),
    ensures
        marked(g, feedback(g, t), c) <= occurrences(t, c),
{
    lemma_marked_split(g, t, c);
}

/// The letters of a string, in order.
pub fn letters_of(s: &str) -> (r: Vec<char>)
    ensures
        r@ == s@,
{
    let n = s.unicode_len();
    let mut r: Vec<char> = Vec::new();
    let mut i: usize = 0;
    while i < n
        invariant
            n == s@.len(),
            i <= n,
            r@ == s@.subrange(0, i as int),
        decreases n - i,
    {
        r.push(s.get_char(i));
        i += 1;
    }
    assert(r@ =~= s@);
    r
}

/// The first target position holding `c` that is not taken yet.
fn first_free(used: &Vec<bool>, target: &Vec<char>, c: char) -> (r: Option<usize>)
    requires
        used.len() == target.len(),
    ensures
        match r {
            Some(j) => j < target.len() && !used@[j as int] && target@[j as int] == c,
            None => forall|k: int| 0 <= k < target.len() ==> !(!used@[k] && #[trigger] target@[k] == c),
        },
{
    let mut j: usize = 0;
    while j < target.len()
        invariant
            j <= target.len(),
            used.len() == target.len(),
            forall|k: int| 0 <= k < j ==> !(!used@[k] && #[trigger] target@[k] == c),
        decreases target.len() - j,
    {
        if !used[j] && target[j] == c {
            return Some(j);
        }
        j += 1;
    }
    None
}

/// The feedback for a guess against a target of the same length, both given as letters.
pub fn feedback_of(guess: &Vec<char>, target: &Vec<char>) -> (r: Vec<Pattern>)
    requires
        guess.len() == target.len(),
    ensures
        r@ == feedback(guess@, target@),
{
    let n = guess.len();
    let ghost g = guess@;
    let ghost t = target@;
    let mut marks: Vec<Pattern> = Vec::new();
    let mut used: Vec<bool> = Vec::new();
    // Matches in place come first: each takes its own target position.
    let mut i: usize = 0;
    while i < n
        invariant
            n == g.len() == t.len(),
            g == guess@,
            t == target@,
            i <= n,
            marks.len() == i,
            used.len() == i,
            forall|k: int|
                0 <= k < i ==> #[trigger] marks@[k] == if g[k] == t[k] {
                    Pattern::Correct
                } else {
                    Pattern::Incorrect
                },
            forall|k: int| 0 <= k < i ==> #[trigger] used@[k] == (g[k] == t[k]),
        decreases n - i,
    {
        if guess[i] == target[i] {
            marks.push(Pattern::Correct);
            used.push(true);
        } else {
            marks.push(Pattern::Incorrect);
            used.push(false);
        }
        i += 1;
    }
    proof {
        assert forall|c: char|
            #[trigger] taken(used@, g, t, c) == lesser(
                unmatched_in_guess_before(g, t, 0, c),
                unmatched_in_target(g, t, c),
            ) by {
            lemma_count_positive(n as int, taken_at(used@, g, t, c));
        }
    }
    // Then each other position takes the first free target position holding its letter.
    let mut i: usize = 0;
    while i < n
        invariant
            n == g.len() == t.len(),
            g == guess@,
            t == target@,
            i <= n,
            marks.len() == n,
            used.len() == n,
            forall|k: int| 0 <= k < i ==> #[trigger] marks@[k] == mark_at(g, t, k),
            forall|k: int|
                i <= k < n ==> #[trigger] marks@[k] == if g[k] == t[k] {
                    Pattern::Correct
                } else {
                    Pattern::Incorrect
                },
            forall|k: int| 0 <= k < n && g[k] == t[k] ==> #[trigger] used@[k],
            forall|c: char|
                #[trigger] taken(used@, g, t, c) == lesser(
                    unmatched_in_guess_before(g, t, i as int, c),
                    unmatched_in_target(g, t, c),
                ),
        decreases n - i,
    {
        let ghost before = used@;
        let ghost c = g[i as int];
        proof {
            assert forall|d: char|
                #[trigger] unmatched_in_guess_before(g, t, i + 1, d) == unmatched_in_guess_before(
                    g,
                    t,
                    i as int,
                    d,
                ) + if d == c && g[i as int] != t[i as int] {
                    1nat
                } else {
                    0nat
                } by {}
            assert(taken(before, g, t, c) == lesser(
                unmatched_in_guess_before(g, t, i as int, c),
                unmatched_in_target(g, t, c),
            ));
        }
        if guess[i] != target[i] {
            proof {
                lemma_taken_and_free(before, g, t, c);
                lemma_count_positive(n as int, free_at(before, t, c));
            }
            match first_free(&used, target, guess[i]) {
                Some(j) => {
                    proof {
                        assert(free_at(before, t, c)(j as int));
                        lemma_take(before, g, t, j as int);
                    }
                    used[j] = true;
                    marks[i] = Pattern::Misplaced;
                    proof {
                        assert(used@ == before.update(j as int, true));
                        assert forall|d: char|
                            #[trigger] taken(used@, g, t, d) == lesser(
                                unmatched_in_guess_before(g, t, i + 1, d),
                                unmatched_in_target(g, t, d),
                            ) by {
                            assert(taken(before, g, t, d) == lesser(
                                unmatched_in_guess_before(g, t, i as int, d),
                                unmatched_in_target(g, t, d),
                            ));
                        }
                    }
                },
                None => {
                    proof {
                        assert forall|d: char|
                            #[trigger] taken(used@, g, t, d) == lesser(
                                unmatched_in_guess_before(g, t, i + 1, d),
                                unmatched_in_target(g, t, d),
                            ) by {
                            assert(taken(before, g, t, d) == lesser(
                                unmatched_in_guess_before(g, t, i as int, d),
                                unmatched_in_target(g, t, d),
                            ));
                        }
                    }
                },
            }
        } else {
            proof {
                assert forall|d: char|
                    #[trigger] taken(used@, g, t, d) == lesser(
                        unmatched_in_guess_before(g, t, i + 1, d),
                        unmatched_in_target(g, t, d),
                    ) by {
                    assert(taken(before, g, t, d) == lesser(
                        unmatched_in_guess_before(g, t, i as int, d),
                        unmatched_in_target(g, t, d),
                    ));
                }
            }
        }
        proof {
            assert(marks@[i as int] == mark_at(g, t, i as int));
        }
        i += 1;
    }
    assert(marks@ =~= feedback(g, t));
    marks
}

/// The feedback that `actual_word` receives against `target_word`, position by position.
pub fn get_pattern(actual_word: &str, target_word: &str) -> (r: Vec<Pattern>)
    requires
        actual_word@.len() == target_word@.len(),
    ensures
        r@ == feedback(actual_word@, target_word@),
{
    let guess = letters_of(actual_word);
    let target = letters_of(target_word);
    feedback_of(&guess, &target)
}

/// The mark that a feedback code character stands for: `0` for `Incorrect`, `1` for
/// `Misplaced`, `2` for `Correct`.
pub open spec fn mark_of_code(c: char) -> Option<Pattern> {
    if c == '0' {
        Some(Pattern::Incorrect)
    } else if c == '1' {
        Some(Pattern::Misplaced)
    } else if c == '2' {
        Some(Pattern::Correct)
    } else {
        None
    }
}

/// Every character of `s` is a feedback code.
pub open spec fn is_feedback_code(s: Seq<char>) -> bool {
    forall|i: int| 0 <= i < s.len() ==> #[trigger] mark_of_code(s[i]) is Some
}

/// The marks that the feedback code `s` stands for.
pub open spec fn decoded(s: Seq<char>) -> Seq<Pattern> {
    Seq::new(s.len(), |i: int| mark_of_code(s[i])->0)
}

/// The marks of a feedback code, one character per position; `None` where a character is not
/// one of `0`, `1`, `2`.
pub fn parse_feedback(code: &str) -> (r: Option<Vec<Pattern>>)
    ensures
        match r {
            Some(v) => is_feedback_code(code@) && v@ == decoded(code@),
            None => !is_feedback_code(code@),
        },
{
    let letters = letters_of(code);
    let mut marks: Vec<Pattern> = Vec::new();
    let mut i: usize = 0;
    while i < letters.len()
        invariant
            letters@ == code@,
            i <= letters.len(),
            marks.len() == i,
            forall|j: int| 0 <= j < i ==> #[trigger] mark_of_code(code@[j]) == Some(marks@[j]),
        decreases letters.len() - i,
    {
        let c = letters[i];
        if c == '0' {
            marks.push(Pattern::Incorrect);
        } else if c == '1' {
            marks.push(Pattern::Misplaced);
        } else if c == '2' {
            marks.push(Pattern::Correct);
        } else {
            assert(mark_of_code(code@[i as int]) is None);
            return None;
        }
        i += 1;
    }
    assert(marks@ =~= decoded(code@));
    Some(marks)
}

} // verus!
