//! Compiling one guess and its feedback into a rule on candidate words.
use vstd::prelude::*;
use itertools::Itertools;
use crate::counting::{count_in, lemma_count_bound, lemma_count_gap, lemma_count_positive, lemma_count_strict};
use crate::feedback::{
    feedback, guess_unmatched, hit, holds_letter, lemma_marked_split, letters_of, mark_at, marked,
    occurrences, Pattern,
};

verus! {

/// `w` holds `c` at position `i`.
pub open spec fn at(w: Seq<char>, i: int, c: char) -> bool {
    0 <= i < w.len() && w[i] == c
}

/// Some position of guess `g` holding `c` is marked `Incorrect` in `p`.
pub open spec fn has_absent(g: Seq<char>, p: Seq<Pattern>, c: char) -> bool {
    exists|i: int| 0 <= i < g.len() && g[i] == c && p[i] == Pattern::Incorrect
}

/// The number of occurrences of `c` in `w` agrees with what `(g, p)` says of `c`: exactly the
/// marks other than `Incorrect` where some occurrence is `Incorrect`, at least as many otherwise.
pub open spec fn count_fits(g: Seq<char>, p: Seq<Pattern>, w: Seq<char>, c: char) -> bool {
    if has_absent(g, p, c) {
        occurrences(w, c) == marked(g, p, c)
    } else {
        occurrences(w, c) >= marked(g, p, c)
    }
}

/// Word `w` is consistent with guess `g` having received feedback `p`: it holds the letters
/// marked `Correct` in place, none of the others at their positions, and each guessed letter
/// the number of times that the marks call for.
pub open spec fn accepts(g: Seq<char>, p: Seq<Pattern>, w: Seq<char>) -> bool {
    &&& forall|i: int| 0 <= i < g.len() && p[i] == Pattern::Correct ==> #[trigger] at(w, i, g[i])
    &&& forall|i: int| 0 <= i < g.len() && p[i] != Pattern::Correct ==> !#[trigger] at(w, i, g[i])
    &&& forall|i: int| 0 <= i < g.len() ==> #[trigger] count_fits(g, p, w, g[i])
}

/// `ps` lists, in increasing order and at least once, the positions of `w` that hold `c`.
pub open spec fn lists_positions(w: Seq<char>, c: char, ps: Seq<usize>) -> bool {
    &&& ps.len() > 0
    &&& forall|x: int, y: int| 0 <= x < y < ps.len() ==> ps[x] < ps[y]
    &&& forall|x: int| 0 <= x < ps.len() ==> ps[x] < w.len() && w[#[trigger] ps[x] as int] == c
    &&& forall|i: int| 0 <= i < w.len() && w[i] == c ==> #[trigger] ps.contains(i as usize)
}

/// Some entry of `groups` is keyed by `c`.
pub open spec fn has_group(groups: Seq<(char, Vec<usize>)>, c: char) -> bool {
    exists|a: int| 0 <= a < groups.len() && #[trigger] groups[a].0 == c
}

/// `groups` holds one entry for each distinct letter of `w`, with the positions of that letter.
pub open spec fn is_letter_grouping(w: Seq<char>, groups: Seq<(char, Vec<usize>)>) -> bool {
    &&& forall|a: int, b: int| 0 <= a < b < groups.len() ==> groups[a].0 != groups[b].0
    &&& forall|i: int| 0 <= i < w.len() ==> #[trigger] has_group(groups, w[i])
    &&& forall|a: int| 0 <= a < groups.len() ==> lists_positions(w, groups[a].0, #[trigger] groups[a].1@)
}

/// Relies on itertools' `Itertools::into_group_map_by`: it keys each position by its letter and
/// pushes the positions of a key in the order in which they are visited, here increasing.
#[verifier::external_body]
fn group_positions(letters: &Vec<char>) -> (r: Vec<(char, Vec<usize>)>)
    ensures
        is_letter_grouping(letters@, r@),
{
    letters.iter().copied().enumerate().into_group_map_by(|&(_, c)| c).into_iter().map(
        |(c, group)| (c, group.into_iter().map(|(i, _)| i).collect()),
    ).collect()
}

/// Position `i`, holding `c`, is recorded in the list that its mark calls for.
spec fn placed(
    to_match: Seq<(usize, char)>,
    not_match: Seq<(usize, char)>,
    p: Seq<Pattern>,
    i: int,
    c: char,
) -> bool {
    if p[i] == Pattern::Correct {
        to_match.contains((i as usize, c))
    } else {
        not_match.contains((i as usize, c))
    }
}

/// Every positional entry records a letter of the guess at its position, under its mark.
spec fn placed_sound(
    g: Seq<char>,
    p: Seq<Pattern>,
    to_match: Seq<(usize, char)>,
    not_match: Seq<(usize, char)>,
) -> bool {
    &&& forall|k: int|
        0 <= k < to_match.len() ==> {
            let e = #[trigger] to_match[k];
            e.0 < g.len() && g[e.0 as int] == e.1 && p[e.0 as int] == Pattern::Correct
        }
    &&& forall|k: int|
        0 <= k < not_match.len() ==> {
            let e = #[trigger] not_match[k];
            e.0 < g.len() && g[e.0 as int] == e.1 && p[e.0 as int] != Pattern::Correct
        }
}

/// Some entry of `s` is keyed by `c`.
spec fn has_key(s: Seq<(char, usize)>, c: char) -> bool {
    exists|k: int| 0 <= k < s.len() && #[trigger] s[k].0 == c
}

/// Every count entry is for a letter of the guess and holds what the marks say of it.
spec fn counts_sound(
    g: Seq<char>,
    p: Seq<Pattern>,
    exact: Seq<(char, usize)>,
    at_least: Seq<(char, usize)>,
) -> bool {
    &&& forall|k: int|
        0 <= k < exact.len() ==> {
            let e = #[trigger] exact[k];
            g.contains(e.0) && has_absent(g, p, e.0) && e.1 == marked(g, p, e.0)
        }
    &&& forall|k: int|
        0 <= k < at_least.len() ==> {
            let e = #[trigger] at_least[k];
            g.contains(e.0) && !has_absent(g, p, e.0) && e.1 == marked(g, p, e.0)
        }
}

/// No letter has two count entries.
spec fn keys_apart(exact: Seq<(char, usize)>, at_least: Seq<(char, usize)>) -> bool {
    &&& forall|a: int, b: int| 0 <= a < b < exact.len() ==> exact[a].0 != exact[b].0
    &&& forall|a: int, b: int| 0 <= a < b < at_least.len() ==> at_least[a].0 != at_least[b].0
    &&& forall|a: int, b: int|
        0 <= a < exact.len() && 0 <= b < at_least.len() ==> exact[a].0 != at_least[b].0
}

/// One of the first `a` groups is keyed by `c`.
spec fn key_before(groups: Seq<(char, Vec<usize>)>, a: int, c: char) -> bool {
    exists|b: int| 0 <= b < a && #[trigger] groups[b].0 == c
}

/// Holds at the positions of guess `g` that hold `c` and are marked `Incorrect`.
spec fn absent_at(g: Seq<char>, p: Seq<Pattern>, c: char) -> spec_fn(int) -> bool {
    |i: int| g[i] == c && p[i] == Pattern::Incorrect
}

/// How far the positions of `w` have been scanned once `x` entries of `ps` are done.
spec fn reach(ps: Seq<usize>, n: int, x: int) -> int {
    if x < ps.len() {
        ps[x] as int
    } else {
        n
    }
}

proof fn lemma_push_keeps<T>(s: Seq<T>, e: T)
    ensures
        forall|v: T| s.contains(v) ==> #[trigger] s.push(e).contains(v),
        s.push(e).contains(e),
{
    assert forall|v: T| s.contains(v) implies #[trigger] s.push(e).contains(v) by {
        let k = choose|k: int| 0 <= k < s.len() && s[k] == v;
        assert(s.push(e)[k] == v);
    }
    assert(s.push(e)[s.len() as int] == e);
}

proof fn lemma_push_keeps_key(s: Seq<(char, usize)>, e: (char, usize))
    ensures
        forall|c: char| has_key(s, c) ==> #[trigger] has_key(s.push(e), c),
        has_key(s.push(e), e.0),
{
    assert forall|c: char| has_key(s, c) implies #[trigger] has_key(s.push(e), c) by {
        let k = choose|k: int| 0 <= k < s.len() && #[trigger] s[k].0 == c;
        assert(s.push(e)[k].0 == c);
    }
    assert(s.push(e)[s.len() as int].0 == e.0);
}

/// Between the positions listed in `ps`, no position holds `c`.
proof fn lemma_no_letter_between(w: Seq<char>, c: char, ps: Seq<usize>, x: int)
    requires
        lists_positions(w, c, ps),
        w.len() <= usize::MAX,
        0 <= x <= ps.len(),
    ensures
        forall|i: int|
            (if x == 0 {
                0
            } else {
                ps[x - 1] + 1
            }) <= i < reach(ps, w.len() as int, x) ==> #[trigger] w[i] != c,
{
    assert forall|i: int|
        (if x == 0 {
            0
        } else {
            ps[x - 1] + 1
        }) <= i < reach(ps, w.len() as int, x) implies #[trigger] w[i] != c by {
        if w[i] == c {
            if x < ps.len() {
                assert(ps[x] < w.len());
            }
            assert(ps.contains(i as usize));
            let m = choose|m: int| 0 <= m < ps.len() && ps[m] == i as usize;
            assert(ps[m] as int == i);
            if m < x {
                if m < x - 1 {
                    assert(ps[m] < ps[x - 1]);
                }
                assert(false);
            } else {
                if m > x {
                    assert(ps[x] < ps[m]);
                }
                assert(false);
            }
        }
    }
}

/// How many times `c` occurs in `w`.
pub fn count_letter(w: &Vec<char>, c: char) -> (r: usize)
    ensures
        r == occurrences(w@, c),
{
    let mut count: usize = 0;
    let mut i: usize = 0;
    while i < w.len()
        invariant
            i <= w.len(),
            count == count_in(i as int, holds_letter(w@, c)),
            count <= i,
        decreases w.len() - i,
    {
        if w[i] == c {
            count += 1;
        }
        i += 1;
    }
    count
}

/// A rule built from a guess and the feedback that it received against a target accepts that
/// target.
pub proof fn lemma_feedback_accepts_target(g: Seq<char>, t: Seq<char>)
    requires
        g.len() == t.len(),
    ensures
        accepts(g, feedback(g, t), t),
{
    let p = feedback(g, t);
    let n = g.len() as int;
    assert forall|i: int| 0 <= i < n implies #[trigger] count_fits(g, p, t, g[i]) by {
        let c = g[i];
        lemma_marked_split(g, t, c);
        if has_absent(g, p, c) {
            let j = choose|j: int| 0 <= j < n && g[j] == c && p[j] == Pattern::Incorrect;
            assert(mark_at(g, t, j) == Pattern::Incorrect);
            lemma_count_strict(n, guess_unmatched(g, t, c), j);
        }
    }
}

/// The constraint that one guess and its feedback put on the target word.
pub struct Rule {
    character_count: Vec<(char, usize)>,
    character_at_least_count: Vec<(char, usize)>,
    character_position_to_match: Vec<(usize, char)>,
    character_position_to_not_match: Vec<(usize, char)>,
}

impl Rule {
    /// Each letter has at most one count entry: an exact count or a minimum count, never both.
    pub closed spec fn wf(&self) -> bool {
        let ex = self.character_count@;
        let al = self.character_at_least_count@;
        &&& forall|a: int, b: int| 0 <= a < b < ex.len() ==> ex[a].0 != ex[b].0
        &&& forall|a: int, b: int| 0 <= a < b < al.len() ==> al[a].0 != al[b].0
        &&& forall|a: int, b: int| 0 <= a < ex.len() && 0 <= b < al.len() ==> ex[a].0 != al[b].0
    }

    /// Word `w` satisfies every part of the rule.
    pub closed spec fn admits(&self, w: Seq<char>) -> bool {
        &&& forall|k: int|
            0 <= k < self.character_position_to_match.len() ==> #[trigger] at(
                w,
                self.character_position_to_match@[k].0 as int,
                self.character_position_to_match@[k].1,
            )
        &&& forall|k: int|
            0 <= k < self.character_position_to_not_match.len() ==> !#[trigger] at(
                w,
                self.character_position_to_not_match@[k].0 as int,
                self.character_position_to_not_match@[k].1,
            )
        &&& forall|k: int|
            0 <= k < self.character_count.len() ==> occurrences(w, #[trigger] self.character_count@[k].0)
                == self.character_count@[k].1
        &&& forall|k: int|
            0 <= k < self.character_at_least_count.len() ==> occurrences(
                w,
                #[trigger] self.character_at_least_count@[k].0,
            ) >= self.character_at_least_count@[k].1
    }
    /// The rule that guess `word` with feedback `pattern` puts on the target: for each letter,
    /// an exact count where one of its occurrences is `Incorrect`, a minimum count otherwise;
    /// each `Correct` position must hold its letter and each other position must not.
    pub fn new(word: &str, pattern: &[Pattern]) -> (r: Self)
        requires
            word@.len() == pattern@.len(),
        ensures
            r.wf(),
            forall|w: Seq<char>| #[trigger] r.admits(w) == accepts(word@, pattern@, w),
    {
        let letters = letters_of(word);
        let ghost g = letters@;
        let ghost p = pattern@;
        let n = letters.len();
        let groups = group_positions(&letters);
        let mut char_count: Vec<(char, usize)> = Vec::new();
        let mut char_at_least_count: Vec<(char, usize)> = Vec::new();
        let mut char_position_to_match: Vec<(usize, char)> = Vec::new();
        let mut char_position_to_not_match: Vec<(usize, char)> = Vec::new();
        let mut a: usize = 0;
        while a < groups.len()
            invariant
                g == letters@,
                p == pattern@,
                n == g.len() == p.len(),
                is_letter_grouping(g, groups@),
                a <= groups.len(),
                placed_sound(g, p, char_position_to_match@, char_position_to_not_match@),
                counts_sound(g, p, char_count@, char_at_least_count@),
                keys_apart(char_count@, char_at_least_count@),
                forall|k: int| 0 <= k < char_count@.len() ==> #[trigger] key_before(groups@, a as int, char_count@[k].0),
                forall|k: int| 0 <= k < char_at_least_count@.len() ==> #[trigger] key_before(groups@, a as int, char_at_least_count@[k].0),
                forall|b: int|
                    0 <= b < a ==> (has_key(char_count@, #[trigger] groups@[b].0) || has_key(
                        char_at_least_count@,
                        groups@[b].0,
                    )),
                forall|b: int, y: int|
                    0 <= b < a && 0 <= y < groups@[b].1@.len() ==> placed(
                        char_position_to_match@,
                        char_position_to_not_match@,
                        p,
                        #[trigger] groups@[b].1@[y] as int,
                        groups@[b].0,
                    ),
            decreases groups.len() - a,
        {
            let key = groups[a].0;
            let positions = &groups[a].1;
            let ghost ps = positions@;
            assert(lists_positions(g, key, ps));
            proof {
                lemma_no_letter_between(g, key, ps, 0);
                lemma_count_gap(0, reach(ps, n as int, 0), hit(g, p, key));
                lemma_count_gap(0, reach(ps, n as int, 0), absent_at(g, p, key));
            }
            let mut hits: usize = 0;
            let mut any_incorrect = false;
            let mut x: usize = 0;
            while x < positions.len()
                invariant
                    g == letters@,
                    p == pattern@,
                    n == g.len() == p.len(),
                    is_letter_grouping(g, groups@),
                    a < groups.len(),
                    key == groups@[a as int].0,
                    ps == groups@[a as int].1@,
                    positions@ == ps,
                    lists_positions(g, key, ps),
                    x <= ps.len(),
                    hits == count_in(reach(ps, n as int, x as int), hit(g, p, key)),
                    any_incorrect == (count_in(reach(ps, n as int, x as int), absent_at(g, p, key))
                        > 0),
                    placed_sound(g, p, char_position_to_match@, char_position_to_not_match@),
                    counts_sound(g, p, char_count@, char_at_least_count@),
                    keys_apart(char_count@, char_at_least_count@),
                    forall|k: int| 0 <= k < char_count@.len() ==> #[trigger] key_before(groups@, a as int, char_count@[k].0),
                    forall|k: int| 0 <= k < char_at_least_count@.len() ==> #[trigger] key_before(groups@, a as int, char_at_least_count@[k].0),
                    forall|b: int|
                        0 <= b < a ==> (has_key(char_count@, #[trigger] groups@[b].0) || has_key(
                            char_at_least_count@,
                            groups@[b].0,
                        )),
                    forall|b: int, y: int|
                        0 <= b < a && 0 <= y < groups@[b].1@.len() ==> placed(
                            char_position_to_match@,
                            char_position_to_not_match@,
                            p,
                            #[trigger] groups@[b].1@[y] as int,
                            groups@[b].0,
                        ),
                    forall|y: int|
                        0 <= y < x ==> placed(
                            char_position_to_match@,
                            char_position_to_not_match@,
                            p,
                            #[trigger] ps[y] as int,
                            key,
                        ),
                decreases ps.len() - x,
            {
                let index = positions[x];
                let ghost tm = char_position_to_match@;
                let ghost nm = char_position_to_not_match@;
                proof {
                    lemma_no_letter_between(g, key, ps, x + 1);
                    lemma_count_gap(index + 1, reach(ps, n as int, x + 1), hit(g, p, key));
                    lemma_count_gap(index + 1, reach(ps, n as int, x + 1), absent_at(g, p, key));
                    lemma_count_bound(index as int, hit(g, p, key));
                    lemma_count_positive(index as int, absent_at(g, p, key));
                    lemma_count_positive(index + 1, absent_at(g, p, key));
                    assert(count_in(index + 1, absent_at(g, p, key)) > 0 ==> (count_in(
                        index as int,
                        absent_at(g, p, key),
                    ) > 0 || absent_at(g, p, key)(index as int)));
                }
                match pattern[index] {
                    Pattern::Incorrect => {
                        any_incorrect = true;
                        char_position_to_not_match.push((index, key));
                        proof {
                            lemma_push_keeps(nm, (index, key));
                        }
                    },
                    Pattern::Misplaced => {
                        hits += 1;
                        char_position_to_not_match.push((index, key));
                        proof {
                            lemma_push_keeps(nm, (index, key));
                        }
                    },
                    Pattern::Correct => {
                        hits += 1;
                        char_position_to_match.push((index, key));
                        proof {
                            lemma_push_keeps(tm, (index, key));
                        }
                    },
                }
                x += 1;
            }
            proof {
                lemma_count_positive(n as int, absent_at(g, p, key));
                if has_absent(g, p, key) {
                    let i = choose|i: int| 0 <= i < g.len() && g[i] == key && p[i] == Pattern::Incorrect;
                    assert(absent_at(g, p, key)(i));
                }
                if exists|i: int| 0 <= i < n && #[trigger] absent_at(g, p, key)(i) {
                    let i = choose|i: int| 0 <= i < n && #[trigger] absent_at(g, p, key)(i);
                    assert(g[i] == key && p[i] == Pattern::Incorrect);
                }
                assert(g[ps[0] as int] == key);
            }
            let ghost ex = char_count@;
            let ghost al = char_at_least_count@;
            proof {
                assert forall|k: int| 0 <= k < ex.len() implies #[trigger] ex[k].0 != key by {
                    assert(key_before(groups@, a as int, ex[k].0));
                    let b = choose|b: int| 0 <= b < a && #[trigger] groups@[b].0 == ex[k].0;
                }
                assert forall|k: int| 0 <= k < al.len() implies #[trigger] al[k].0 != key by {
                    assert(key_before(groups@, a as int, al[k].0));
                    let b = choose|b: int| 0 <= b < a && #[trigger] groups@[b].0 == al[k].0;
                }
                assert forall|c: char| key_before(groups@, a as int, c) implies #[trigger] key_before(groups@, a + 1, c) by {
                    let b = choose|b: int| 0 <= b < a && #[trigger] groups@[b].0 == c;
                }
                assert(key_before(groups@, a + 1, key));
            }
            if any_incorrect {
                char_count.push((key, hits));
                proof {
                    lemma_push_keeps_key(ex, (key, hits));
                }
            } else {
                char_at_least_count.push((key, hits));
                proof {
                    lemma_push_keeps_key(al, (key, hits));
                }
            }
            proof {
                assert forall|b: int, y: int|
                    0 <= b < a + 1 && 0 <= y < groups@[b].1@.len() implies placed(
                    char_position_to_match@,
                    char_position_to_not_match@,
                    p,
                    #[trigger] groups@[b].1@[y] as int,
                    groups@[b].0,
                ) by {
                    if b == a {
                        assert(ps[y] == groups@[b].1@[y]);
                    }
                }
            }
            a += 1;
        }
        let r = Rule {
            character_count: char_count,
            character_at_least_count: char_at_least_count,
            character_position_to_match: char_position_to_match,
            character_position_to_not_match: char_position_to_not_match,
        };
        proof {
            r.lemma_meaning(g, p, groups@);
            assert(keys_apart(r.character_count@, r.character_at_least_count@));
        }
        r
    }

    /// Whether `word` satisfies every part of the rule; a position beyond the end of `word`
    /// holds no letter.
    #[allow(non_snake_case)]
    pub fn Is_Word_Conform(&self, word: &str) -> (r: bool)
        ensures
            r == self.admits(word@),
    {
        let letters = letters_of(word);
        self.admits_letters(&letters)
    }

    /// Whether the word made of `w` satisfies every part of the rule.
    pub fn admits_letters(&self, w: &Vec<char>) -> (r: bool)
        ensures
            r == self.admits(w@),
    {
        let mut k: usize = 0;
        while k < self.character_position_to_match.len()
            invariant
                forall|j: int|
                    0 <= j < k ==> #[trigger] at(
                        w@,
                        self.character_position_to_match@[j].0 as int,
                        self.character_position_to_match@[j].1,
                    ),
            decreases self.character_position_to_match.len() - k,
        {
            let (pos, c) = self.character_position_to_match[k];
            if !(pos < w.len() && w[pos] == c) {
                assert(!at(w@, self.character_position_to_match@[k as int].0 as int, self.character_position_to_match@[k as int].1));
                return false;
            }
            k += 1;
        }
        let mut k: usize = 0;
        while k < self.character_position_to_not_match.len()
            invariant
                forall|j: int|
                    0 <= j < k ==> !#[trigger] at(
                        w@,
                        self.character_position_to_not_match@[j].0 as int,
                        self.character_position_to_not_match@[j].1,
                    ),
                forall|j: int|
                    0 <= j < self.character_position_to_match.len() ==> #[trigger] at(
                        w@,
                        self.character_position_to_match@[j].0 as int,
                        self.character_position_to_match@[j].1,
                    ),
            decreases self.character_position_to_not_match.len() - k,
        {
            let (pos, c) = self.character_position_to_not_match[k];
            if pos < w.len() && w[pos] == c {
                assert(at(w@, self.character_position_to_not_match@[k as int].0 as int, self.character_position_to_not_match@[k as int].1));
                return false;
            }
            k += 1;
        }
        let mut k: usize = 0;
        while k < self.character_count.len()
            invariant
                forall|j: int|
                    0 <= j < k ==> occurrences(w@, #[trigger] self.character_count@[j].0)
                        == self.character_count@[j].1,
                forall|j: int|
                    0 <= j < self.character_position_to_not_match.len() ==> !#[trigger] at(
                        w@,
                        self.character_position_to_not_match@[j].0 as int,
                        self.character_position_to_not_match@[j].1,
                    ),
                forall|j: int|
                    0 <= j < self.character_position_to_match.len() ==> #[trigger] at(
                        w@,
                        self.character_position_to_match@[j].0 as int,
                        self.character_position_to_match@[j].1,
                    ),
            decreases self.character_count.len() - k,
        {
            let (c, count) = self.character_count[k];
            if count_letter(w, c) != count {
                return false;
            }
            k += 1;
        }
        let mut k: usize = 0;
        while k < self.character_at_least_count.len()
            invariant
                forall|j: int|
                    0 <= j < k ==> occurrences(w@, #[trigger] self.character_at_least_count@[j].0)
                        >= self.character_at_least_count@[j].1,
                forall|j: int|
                    0 <= j < self.character_count.len() ==> occurrences(w@, #[trigger] self.character_count@[j].0)
                        == self.character_count@[j].1,
                forall|j: int|
                    0 <= j < self.character_position_to_not_match.len() ==> !#[trigger] at(
                        w@,
                        self.character_position_to_not_match@[j].0 as int,
                        self.character_position_to_not_match@[j].1,
                    ),
                forall|j: int|
                    0 <= j < self.character_position_to_match.len() ==> #[trigger] at(
                        w@,
                        self.character_position_to_match@[j].0 as int,
                        self.character_position_to_match@[j].1,
                    ),
            decreases self.character_at_least_count.len() - k,
        {
            let (c, count) = self.character_at_least_count[k];
            if count_letter(w, c) < count {
                return false;
            }
            k += 1;
        }
        true
    }

    /// Entries that record what guess `g` with marks `p` says, grouped as `groups`, make a rule
    /// that admits exactly the words consistent with them.
    proof fn lemma_meaning(self, g: Seq<char>, p: Seq<Pattern>, groups: Seq<(char, Vec<usize>)>)
        requires
            g.len() == p.len() <= usize::MAX,
            is_letter_grouping(g, groups),
            placed_sound(g, p, self.character_position_to_match@, self.character_position_to_not_match@),
            counts_sound(g, p, self.character_count@, self.character_at_least_count@),
            forall|b: int|
                0 <= b < groups.len() ==> (has_key(self.character_count@, #[trigger] groups[b].0)
                    || has_key(self.character_at_least_count@, groups[b].0)),
            forall|b: int, y: int|
                0 <= b < groups.len() && 0 <= y < groups[b].1@.len() ==> placed(
                    self.character_position_to_match@,
                    self.character_position_to_not_match@,
                    p,
                    #[trigger] groups[b].1@[y] as int,
                    groups[b].0,
                ),
        ensures
            forall|w: Seq<char>| #[trigger] self.admits(w) == accepts(g, p, w),
    {
        let tm = self.character_position_to_match@;
        let nm = self.character_position_to_not_match@;
        let ex = self.character_count@;
        let al = self.character_at_least_count@;
        assert forall|w: Seq<char>| #[trigger] self.admits(w) == accepts(g, p, w) by {
            if self.admits(w) {
                assert forall|i: int| 0 <= i < g.len() implies placed(tm, nm, p, i, g[i])
                    && count_fits(g, p, w, g[i]) by {
                    assert(has_group(groups, g[i]));
                    let b = choose|b: int| 0 <= b < groups.len() && #[trigger] groups[b].0 == g[i];
                    let ps = groups[b].1@;
                    assert(lists_positions(g, groups[b].0, ps));
                    assert(ps.contains(i as usize));
                    let y = choose|y: int| 0 <= y < ps.len() && ps[y] == i as usize;
                    assert(placed(tm, nm, p, groups[b].1@[y] as int, groups[b].0));
                    if has_key(ex, g[i]) {
                        let k = choose|k: int| 0 <= k < ex.len() && #[trigger] ex[k].0 == g[i];
                        assert(occurrences(w, ex[k].0) == ex[k].1);
                    } else {
                        assert(has_key(al, groups[b].0));
                        let k = choose|k: int| 0 <= k < al.len() && #[trigger] al[k].0 == g[i];
                        assert(occurrences(w, al[k].0) >= al[k].1);
                    }
                }
                assert forall|i: int| 0 <= i < g.len() && p[i] == Pattern::Correct implies #[trigger] at(
                    w,
                    i,
                    g[i],
                ) by {
                    assert(placed(tm, nm, p, i, g[i]));
                    let k = choose|k: int| 0 <= k < tm.len() && tm[k] == (i as usize, g[i]);
                    assert(at(w, tm[k].0 as int, tm[k].1));
                }
                assert forall|i: int| 0 <= i < g.len() && p[i] != Pattern::Correct implies !#[trigger] at(
                    w,
                    i,
                    g[i],
                ) by {
                    assert(placed(tm, nm, p, i, g[i]));
                    let k = choose|k: int| 0 <= k < nm.len() && nm[k] == (i as usize, g[i]);
                    assert(!at(w, nm[k].0 as int, nm[k].1));
                }
                assert forall|i: int| 0 <= i < g.len() implies #[trigger] count_fits(g, p, w, g[i]) by {
                    assert(placed(tm, nm, p, i, g[i]) && count_fits(g, p, w, g[i]));
                }
            }
            if accepts(g, p, w) {
                assert forall|k: int| 0 <= k < ex.len() implies occurrences(w, #[trigger] ex[k].0)
                    == ex[k].1 by {
                    let i = choose|i: int| 0 <= i < g.len() && g[i] == ex[k].0;
                    assert(count_fits(g, p, w, g[i]));
                }
                assert forall|k: int| 0 <= k < al.len() implies occurrences(w, #[trigger] al[k].0)
                    >= al[k].1 by {
                    let i = choose|i: int| 0 <= i < g.len() && g[i] == al[k].0;
                    assert(count_fits(g, p, w, g[i]));
                }
                assert forall|k: int| 0 <= k < tm.len() implies #[trigger] at(w, tm[k].0 as int, tm[k].1) by {
                    assert(at(w, tm[k].0 as int, g[tm[k].0 as int]));
                }
                assert forall|k: int| 0 <= k < nm.len() implies !#[trigger] at(w, nm[k].0 as int, nm[k].1) by {
                    assert(!at(w, nm[k].0 as int, g[nm[k].0 as int]));
                }
            }
        }
    }
}

} // verus!
