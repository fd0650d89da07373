//! Keeping the dictionary words that every rule admits.
use vstd::prelude::*;
use crate::rule::Rule;

verus! {

/// The letters of each string.
pub open spec fn texts(v: Seq<String>) -> Seq<Seq<char>> {
    v.map_values(|s: String| s@)
}

/// Every rule of `rules` admits `w`.
pub open spec fn satisfies_all(rules: Seq<Rule>, w: Seq<char>) -> bool {
    forall|k: int| 0 <= k < rules.len() ==> #[trigger] rules[k].admits(w)
}

/// The words that every rule of `rules` admits.
pub open spec fn admitted_by(rules: Seq<Rule>) -> spec_fn(Seq<char>) -> bool {
    |w: Seq<char>| satisfies_all(rules, w)
}

/// The words that `rule` admits.
pub open spec fn admitted_by_rule(rule: Rule) -> spec_fn(Seq<char>) -> bool {
    |w: Seq<char>| rule.admits(w)
}

/// The words of `dictionary`, in order, that every rule of `rules` admits.
pub open spec fn candidates(dictionary: Seq<Seq<char>>, rules: Seq<Rule>) -> Seq<Seq<char>> {
    dictionary.filter(admitted_by(rules))
}

/// Filtering a sequence with one more element at its end.
pub proof fn lemma_filter_push<A>(s: Seq<A>, x: A, pred: spec_fn(A) -> bool)
    ensures
        s.push(x).filter(pred) == if pred(x) {
            s.filter(pred).push(x)
        } else {
            s.filter(pred)
        },
{
    reveal(Seq::filter);
    assert(s.push(x).drop_last() =~= s);
}

/// Filtering keeps no element that was not there, and adds none.
pub proof fn lemma_filter_within<A>(s: Seq<A>, pred: spec_fn(A) -> bool)
    ensures
        forall|x: A| #[trigger] s.filter(pred).contains(x) ==> s.contains(x),
        s.filter(pred).len() <= s.len(),
    decreases s.len(),
{
    reveal(Seq::filter);
    if s.len() > 0 {
        let rest = s.drop_last();
        lemma_filter_within(rest, pred);
        assert forall|x: A| #[trigger] s.filter(pred).contains(x) implies s.contains(x) by {
            let f = s.filter(pred);
            let i = choose|i: int| 0 <= i < f.len() && f[i] == x;
            if i < rest.filter(pred).len() {
                assert(rest.filter(pred)[i] == x);
                assert(rest.filter(pred).contains(x));
                let j = choose|j: int| 0 <= j < rest.len() && rest[j] == x;
                assert(s[j] == x);
            } else {
                assert(s[s.len() - 1] == x);
            }
        }
    }
}

/// With no rule at all, every word of the dictionary is a candidate, in its place.
pub proof fn lemma_no_rules_keep_dictionary(dictionary: Seq<Seq<char>>)
    ensures
        candidates(dictionary, Seq::<Rule>::empty()) == dictionary,
    decreases dictionary.len(),
{
    reveal(Seq::filter);
    if dictionary.len() > 0 {
        lemma_no_rules_keep_dictionary(dictionary.drop_last());
        assert(admitted_by(Seq::<Rule>::empty())(dictionary.last()));
        assert(dictionary.drop_last().push(dictionary.last()) =~= dictionary);
    }
}

/// One more rule keeps, of the candidates, exactly those that it admits: the candidates can
/// only shrink.
pub proof fn lemma_added_rule_narrows(dictionary: Seq<Seq<char>>, rules: Seq<Rule>, rule: Rule)
    ensures
        candidates(dictionary, rules.push(rule)) == candidates(dictionary, rules).filter(
            admitted_by_rule(rule),
        ),
        candidates(dictionary, rules.push(rule)).len() <= candidates(dictionary, rules).len(),
        forall|w: Seq<char>|
            #[trigger] candidates(dictionary, rules.push(rule)).contains(w) ==> candidates(
                dictionary,
                rules,
            ).contains(w),
    decreases dictionary.len(),
{
    let extended = rules.push(rule);
    let adm = admitted_by_rule(rule);
    if dictionary.len() > 0 {
        let rest = dictionary.drop_last();
        let x = dictionary.last();
        lemma_added_rule_narrows(rest, rules, rule);
        assert(rest.push(x) =~= dictionary);
        lemma_filter_push(rest, x, admitted_by(extended));
        lemma_filter_push(rest, x, admitted_by(rules));
        lemma_filter_push(candidates(rest, rules), x, adm);
        assert(admitted_by(extended)(x) == (admitted_by(rules)(x) && adm(x))) by {
            assert(extended[rules.len() as int] == rule);
            if admitted_by(rules)(x) && adm(x) {
                assert forall|k: int| 0 <= k < extended.len() implies #[trigger] extended[k].admits(x) by {
                    if k < rules.len() {
                        assert(extended[k] == rules[k]);
                    }
                }
            }
            if admitted_by(extended)(x) {
                assert forall|k: int| 0 <= k < rules.len() implies #[trigger] rules[k].admits(x) by {
                    assert(extended[k] == rules[k]);
                    assert(extended[k].admits(x));
                }
            }
        }
    } else {
        reveal(Seq::filter);
    }
    let narrowed = candidates(dictionary, extended);
    let wide = candidates(dictionary, rules);
    lemma_filter_within(wide, adm);
}

/// The words of `dictionary`, in order, that every rule of `rules` admits.
pub fn filter_candidates(dictionary: &Vec<String>, rules: &Vec<Rule>) -> (r: Vec<String>)
    ensures
        texts(r@) == candidates(texts(dictionary@), rules@),
{
    let mut r: Vec<String> = Vec::new();
    let mut i: usize = 0;
    while i < dictionary.len()
        invariant
            i <= dictionary.len(),
            texts(r@) == candidates(texts(dictionary@).take(i as int), rules@),
        decreases dictionary.len() - i,
    {
        let word = dictionary[i].as_str();
        let mut all = true;
        let mut k: usize = 0;
        while k < rules.len()
            invariant
                k <= rules.len(),
                word@ == dictionary@[i as int]@,
                all == forall|j: int| 0 <= j < k ==> #[trigger] rules@[j].admits(word@),
            decreases rules.len() - k,
        {
            if !rules[k].Is_Word_Conform(word) {
                all = false;
            }
            k += 1;
        }
        proof {
            let d = texts(dictionary@);
            assert(d.take(i + 1) =~= d.take(i as int).push(d[i as int]));
            lemma_filter_push(d.take(i as int), d[i as int], admitted_by(rules@));
        }
        if all {
            let ghost before = r@;
            r.push(dictionary[i].clone());
            proof {
                assert(texts(r@) =~= texts(before).push(dictionary@[i as int]@));
            }
        }
        i += 1;
    }
    proof {
        assert(texts(dictionary@).take(dictionary.len() as int) =~= texts(dictionary@));
    }
    r
}

} // verus!
