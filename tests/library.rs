use rustle::entropy::pattern_distribution;
use rustle::filter::filter_candidates;
use rustle::rule::count_letter;
use rustle::{get_pattern, parse_feedback, retrieve_recommended_words, Pattern, RequestError, Rule};

use Pattern::{Correct, Incorrect, Misplaced};

fn words(list: &[&str]) -> Vec<String> {
    list.iter().map(|w| w.to_string()).collect()
}

fn counts(distribution: &[(Vec<Pattern>, usize)]) -> Vec<usize> {
    let mut c: Vec<usize> = distribution.iter().map(|(_, n)| *n).collect();
    c.sort();
    c
}

#[test]
fn duplicate_letters_feedback() {
    assert_eq!(get_pattern("eeet", "eaye"), vec![Correct, Misplaced, Incorrect, Incorrect]);
}

#[test]
fn word_against_itself_is_all_correct() {
    for w in ["tarie", "eeet", "coucou", "a", ""] {
        let p = get_pattern(w, w);
        assert_eq!(p.len(), w.chars().count());
        assert!(p.iter().all(|m| *m == Correct));
    }
}

#[test]
fn marks_never_exceed_target_occurrences() {
    let cases = [("eeet", "eaye"), ("usurier", "usagers"), ("aaaaa", "abcde"), ("abaisse", "feuille")];
    for (g, t) in cases {
        let p = get_pattern(g, t);
        for c in g.chars() {
            let marked = g
                .chars()
                .zip(p.iter())
                .filter(|(x, m)| *x == c && **m != Incorrect)
                .count();
            let in_target = t.chars().filter(|x| *x == c).count();
            assert!(marked <= in_target);
        }
    }
}

#[test]
fn repeated_guess_letter_against_single_occurrence() {
    assert_eq!(
        get_pattern("aaaaa", "abcde"),
        vec![Correct, Incorrect, Incorrect, Incorrect, Incorrect]
    );
    assert_eq!(get_pattern("bbaaa", "abcde"), vec![Incorrect, Correct, Misplaced, Incorrect, Incorrect]);
}

#[test]
fn rule_accepts_the_target_that_produced_its_feedback() {
    let cases = [("eeet", "eaye"), ("usurier", "usagers"), ("abregee", "feuille"), ("coucot", "toucan")];
    for (g, t) in cases {
        let p = get_pattern(g, t);
        assert!(Rule::new(g, &p).Is_Word_Conform(t));
    }
}

#[test]
fn rule_beyond_word_end() {
    let rule = Rule::new("ab", &[Correct, Correct]);
    assert!(!rule.Is_Word_Conform("a"));
    let rule = Rule::new("ab", &[Incorrect, Incorrect]);
    assert!(rule.Is_Word_Conform("c"));
}

#[test]
fn counting_letters() {
    assert_eq!(count_letter(&vec!['e', 'a', 'y', 'e'], 'e'), 2);
    assert_eq!(count_letter(&vec![], 'e'), 0);
}

#[test]
fn feedback_codes() {
    assert_eq!(parse_feedback("012"), Some(vec![Incorrect, Misplaced, Correct]));
    assert_eq!(parse_feedback(""), Some(vec![]));
    assert_eq!(parse_feedback("013"), None);
    assert_eq!(parse_feedback("2 2"), None);
}

#[test]
fn empty_rule_set_keeps_dictionary() {
    let dictionary = words(&["abc", "abd", "xyz"]);
    assert_eq!(filter_candidates(&dictionary, &vec![]), dictionary);
    assert_eq!(filter_candidates(&vec![], &vec![]), Vec::<String>::new());
}

#[test]
fn added_rule_only_narrows() {
    let dictionary = words(&["abc", "abd", "xyz", "abz"]);
    let one = vec![Rule::new("abq", &[Correct, Correct, Incorrect])];
    let two = vec![
        Rule::new("abq", &[Correct, Correct, Incorrect]),
        Rule::new("zzz", &[Incorrect, Incorrect, Incorrect]),
    ];
    let wide = filter_candidates(&dictionary, &one);
    let narrow = filter_candidates(&dictionary, &two);
    assert_eq!(wide, words(&["abc", "abd", "abz"]));
    assert_eq!(narrow, words(&["abc", "abd"]));
    assert!(narrow.iter().all(|w| wide.contains(w)));
}

#[test]
fn distribution_groups_equal_patterns() {
    let candidates = vec![vec!['a', 'b', 'c'], vec!['a', 'b', 'd'], vec!['x', 'y', 'z']];
    let d = pattern_distribution(&vec!['x', 'y', 'z'], &candidates);
    assert_eq!(counts(&d), vec![1, 2]);
    let all_absent = d.iter().find(|(p, _)| *p == vec![Incorrect, Incorrect, Incorrect]).unwrap();
    assert_eq!(all_absent.1, 2);
    let all_right = d.iter().find(|(p, _)| *p == vec![Correct, Correct, Correct]).unwrap();
    assert_eq!(all_right.1, 1);
}

#[test]
fn distribution_over_no_candidates_is_empty() {
    assert!(pattern_distribution(&vec!['x', 'y', 'z'], &vec![]).is_empty());
}

#[test]
fn recommendations_with_history() {
    let dictionary = words(&["abc", "abd", "xyz"]);
    let history = vec![("abc".to_string(), "220".to_string())];
    let scored = retrieve_recommended_words(&history, 3, &dictionary).unwrap();
    assert_eq!(scored.len(), 3);
    let flags: Vec<bool> = scored.iter().map(|e| e.is_candidate).collect();
    assert_eq!(flags, vec![false, true, false]);
    let names: Vec<&str> = scored.iter().map(|e| e.word.as_str()).collect();
    assert_eq!(names, vec!["abc", "abd", "xyz"]);
    assert_eq!(scored[0].distribution, vec![(vec![Correct, Correct, Incorrect], 1)]);
    assert_eq!(scored[1].distribution, vec![(vec![Correct, Correct, Correct], 1)]);
    assert_eq!(scored[2].distribution, vec![(vec![Incorrect, Incorrect, Incorrect], 1)]);
}

#[test]
fn recommendations_without_history() {
    let dictionary = words(&["abc", "abd", "xyz"]);
    let scored = retrieve_recommended_words(&vec![], 3, &dictionary).unwrap();
    assert!(scored.iter().all(|e| e.is_candidate));
    assert_eq!(counts(&scored[0].distribution), vec![1, 1, 1]);
    assert_eq!(counts(&scored[2].distribution), vec![1, 2]);
}

#[test]
fn recommendations_with_no_candidate_left() {
    let dictionary = words(&["abd", "xyz"]);
    let history = vec![("abc".to_string(), "222".to_string())];
    let scored = retrieve_recommended_words(&history, 3, &dictionary).unwrap();
    assert!(scored.iter().all(|e| !e.is_candidate && e.distribution.is_empty()));
}

#[test]
fn recommendations_over_empty_dictionary() {
    let history = vec![("abc".to_string(), "012".to_string())];
    assert!(retrieve_recommended_words(&history, 3, &vec![]).unwrap().is_empty());
}

#[test]
fn length_mismatch_is_rejected() {
    let dictionary = words(&["abc", "abd"]);
    let short_code = vec![("abc".to_string(), "22".to_string())];
    assert_eq!(
        retrieve_recommended_words(&short_code, 3, &dictionary).err(),
        Some(RequestError::LengthMismatch)
    );
    let long_word = words(&["abc", "abcd"]);
    assert_eq!(
        retrieve_recommended_words(&vec![], 3, &long_word).err(),
        Some(RequestError::LengthMismatch)
    );
}

#[test]
fn invalid_feedback_is_rejected() {
    let dictionary = words(&["abc", "abd"]);
    let history = vec![("abc".to_string(), "2x0".to_string())];
    assert_eq!(
        retrieve_recommended_words(&history, 3, &dictionary).err(),
        Some(RequestError::InvalidFeedback)
    );
}

#[test]
fn distribution_sizes_add_up_to_candidates() {
    let candidates = vec![
        vec!['t', 'a', 'r', 'i', 'e'],
        vec!['t', 'i', 'a', 'r', 'e'],
        vec!['t', 'e', 'r', 'r', 'e'],
        vec!['t', 'i', 't', 'r', 'e'],
        vec!['t', 'a', 'r', 'i', 'e'],
    ];
    let d = pattern_distribution(&vec!['t', 'e', 'r', 'r', 'e'], &candidates);
    let total: usize = d.iter().map(|(_, n)| n).sum();
    assert_eq!(total, candidates.len());
    assert_eq!(counts(&d), vec![1, 2, 2]);
}

#[test]
fn later_absent_letter_caps_count() {
    // "vivre" with the first v absent: exactly one v, and not at position 0.
    let rule = Rule::new("vivre", &[Incorrect, Correct, Correct, Correct, Correct]);
    assert!(rule.Is_Word_Conform("givre"));
    assert!(!rule.Is_Word_Conform("vivre"));
    assert!(!rule.Is_Word_Conform("ivvre"));
}
