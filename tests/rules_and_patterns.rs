#![allow(non_snake_case)]
use rustle::{get_pattern, Pattern, Rule};

#[test]
fn Rule1() {
    let rule = Rule::new(
        "coucou",
        &vec![
            Pattern::Correct,
            Pattern::Correct,
            Pattern::Correct,
            Pattern::Correct,
            Pattern::Correct,
            Pattern::Correct,
        ],
    );
    assert!(rule.Is_Word_Conform(&"coucou".to_string()));
}

#[test]
fn Rule2() {
    let rule = Rule::new(
        "coucou",
        &vec![
            Pattern::Correct,
            Pattern::Incorrect,
            Pattern::Incorrect,
            Pattern::Incorrect,
            Pattern::Incorrect,
            Pattern::Incorrect,
        ],
    );
    assert!(!rule.Is_Word_Conform(&"toucan".to_string()));
}

#[test]
fn Rule3() {
    let rule = Rule::new(
        "boubbb",
        &vec![
            Pattern::Incorrect,
            Pattern::Correct,
            Pattern::Correct,
            Pattern::Incorrect,
            Pattern::Incorrect,
            Pattern::Incorrect,
        ],
    );
    assert!(rule.Is_Word_Conform(&"coucou".to_string()));
    assert!(rule.Is_Word_Conform(&"toucan".to_string()));
}

#[test]
fn Rule4() {
    let rule = Rule::new(
        "boubbb",
        &vec![
            Pattern::Incorrect,
            Pattern::Correct,
            Pattern::Correct,
            Pattern::Incorrect,
            Pattern::Incorrect,
            Pattern::Incorrect,
        ],
    );
    assert!(rule.Is_Word_Conform(&"coucou".to_string()));
    assert!(rule.Is_Word_Conform(&"toucan".to_string()));
}

#[test]
fn Rule5() {
    let rule = Rule::new(
        "doucat",
        &vec![
            Pattern::Incorrect,
            Pattern::Correct,
            Pattern::Correct,
            Pattern::Correct,
            Pattern::Correct,
            Pattern::Misplaced,
        ],
    );
    assert!(!rule.Is_Word_Conform(&"coucou".to_string()));
    assert!(rule.Is_Word_Conform(&"toucan".to_string()));
}

#[test]
fn Rule6() {
    let rule = Rule::new(
        "coucot",
        &vec![
            Pattern::Incorrect,
            Pattern::Correct,
            Pattern::Correct,
            Pattern::Correct,
            Pattern::Incorrect,
            Pattern::Misplaced,
        ],
    );
    assert!(!rule.Is_Word_Conform(&"coucou".to_string()));
    assert!(rule.Is_Word_Conform(&"toucan".to_string()));
}

#[test]
fn Rule7() {
    let rule = Rule::new(
        "coucot",
        &vec![
            Pattern::Correct,
            Pattern::Correct,
            Pattern::Correct,
            Pattern::Correct,
            Pattern::Correct,
            Pattern::Incorrect,
        ],
    );
    assert!(rule.Is_Word_Conform(&"coucou".to_string()));
    assert!(!rule.Is_Word_Conform(&"toucan".to_string()));
    assert!(!rule.Is_Word_Conform(&"ehbahnon".to_string()));
    assert!(!rule.Is_Word_Conform(&"couchera".to_string()));
}

#[test]
fn Rule8() {
    let rule = Rule::new(
        "vivre",
        &vec![
            Pattern::Incorrect,
            Pattern::Correct,
            Pattern::Correct,
            Pattern::Correct,
            Pattern::Correct,
        ],
    );
    assert!(rule.Is_Word_Conform(&"givre".to_string()));
    assert!(rule.Is_Word_Conform(&"livre".to_string()));
    assert!(!rule.Is_Word_Conform(&"vivre".to_string()));
}

#[test]
fn Rule9() {
    let rule = Rule::new(
        "vivre",
        &vec![
            Pattern::Misplaced,
            Pattern::Correct,
            Pattern::Correct,
            Pattern::Correct,
            Pattern::Incorrect,
        ],
    );
    assert!(rule.Is_Word_Conform(&"tivrv".to_string()));
}

#[test]
fn Rule10() {
    let rule = Rule::new(
        "eeet",
        &vec![
            Pattern::Correct,
            Pattern::Misplaced,
            Pattern::Incorrect,
            Pattern::Incorrect,
        ],
    );
    assert!(rule.Is_Word_Conform(&"eaye".to_string()));
}

#[test]
fn Rule11() {
    let rule = Rule::new(
        "poursuivis",
        &vec![
            Pattern::Incorrect,
            Pattern::Incorrect,
            Pattern::Misplaced,
            Pattern::Misplaced,
            Pattern::Misplaced,
            Pattern::Incorrect,
            Pattern::Incorrect,
            Pattern::Incorrect,
            Pattern::Incorrect,
            Pattern::Misplaced,
        ],
    );
    assert!(!rule.Is_Word_Conform(&"poursuivis".to_string()));
}

#[test]
fn Rule12() {
    let rule = Rule::new(
        "maintenant",
        &vec![
            Pattern::Incorrect,
            Pattern::Incorrect,
            Pattern::Misplaced,
            Pattern::Misplaced,
            Pattern::Misplaced,
            Pattern::Incorrect,
            Pattern::Incorrect,
            Pattern::Incorrect,
            Pattern::Incorrect,
            Pattern::Incorrect,
        ],
    );
    assert!(rule.Is_Word_Conform(&"proportion".to_string()));
}

#[test]
fn Rule13() {
    let rule = Rule::new(
        "exactement",
        &vec![
            Pattern::Correct,
            Pattern::Incorrect,
            Pattern::Misplaced,
            Pattern::Misplaced,
            Pattern::Incorrect,
            Pattern::Misplaced,
            Pattern::Incorrect,
            Pattern::Incorrect,
            Pattern::Misplaced,
            Pattern::Incorrect,
        ],
    );
    assert!(rule.Is_Word_Conform(&"encourager".to_string()));
    assert!(!rule.Is_Word_Conform(&"maintenant".to_string()));
    assert!(!rule.Is_Word_Conform(&"exactement".to_string()));
}

#[test]
fn Rule14() {
    let rule = Rule::new(
        "habitude",
        &vec![
            Pattern::Incorrect,
            Pattern::Misplaced,
            Pattern::Incorrect,
            Pattern::Misplaced,
            Pattern::Incorrect,
            Pattern::Misplaced,
            Pattern::Incorrect,
            Pattern::Correct,
        ],
    );
    assert!(!rule.Is_Word_Conform(&"mauvaise".to_string()));
}

#[test]
fn Rule15() {
    let rule = Rule::new(
        "ventilateur",
        &vec![
            Pattern::Incorrect,
            Pattern::Incorrect,
            Pattern::Incorrect,
            Pattern::Misplaced,
            Pattern::Correct,
            Pattern::Misplaced,
            Pattern::Correct,
            Pattern::Correct,
            Pattern::Correct,
            Pattern::Correct,
            Pattern::Correct,
        ],
    );
    assert!(!rule.Is_Word_Conform(&"realisateur".to_string()));
}

#[test]
fn Rule16() {
    let rule = Rule::new(
        "dansee",
        &vec![
            Pattern::Misplaced,
            Pattern::Misplaced,
            Pattern::Misplaced,
            Pattern::Incorrect,
            Pattern::Incorrect,
            Pattern::Correct,
        ],
    );
    assert!(rule.Is_Word_Conform(&"grande".to_string()));
}

#[test]
fn Rule17() {
    let rule = Rule::new(
        "usurier",
        &vec![
            Pattern::Correct,
            Pattern::Misplaced,
            Pattern::Incorrect,
            Pattern::Correct,
            Pattern::Correct,
            Pattern::Incorrect,
            Pattern::Correct,
        ],
    );
    assert!(!rule.Is_Word_Conform(&"butoirs".to_string()));
}

#[test]
fn Rule18() {
    let rule = Rule::new(
        "abaisse",
        &vec![
            Pattern::Incorrect,
            Pattern::Incorrect,
            Pattern::Incorrect,
            Pattern::Correct,
            Pattern::Incorrect,
            Pattern::Incorrect,
            Pattern::Correct,
        ],
    );
    assert!(rule.Is_Word_Conform(&"feuille".to_string()));
}

#[test]
fn Pattern1() {
    let actual = get_pattern("usurier", "usagers");
    let expected = vec![
        Pattern::Correct,
        Pattern::Correct,
        Pattern::Incorrect,
        Pattern::Misplaced,
        Pattern::Incorrect,
        Pattern::Misplaced,
        Pattern::Incorrect,
    ];
    assert_eq!(actual, expected)
}

#[test]
fn Pattern2() {
    let actual = get_pattern("usagers", "usurier");
    let expected = vec![
        Pattern::Correct,
        Pattern::Correct,
        Pattern::Incorrect,
        Pattern::Incorrect,
        Pattern::Misplaced,
        Pattern::Misplaced,
        Pattern::Incorrect,
    ];
    assert_eq!(actual, expected)
}

#[test]
fn Pattern3() {
    let actual = get_pattern("abregee", "feuille");
    let expected = vec![
        Pattern::Incorrect,
        Pattern::Incorrect,
        Pattern::Incorrect,
        Pattern::Misplaced,
        Pattern::Incorrect,
        Pattern::Incorrect,
        Pattern::Correct,
    ];
    assert_eq!(actual, expected)
}

#[test]
fn Pattern4() {
    let actual = get_pattern("aeriens", "feuille");
    let expected = vec![
        Pattern::Incorrect,
        Pattern::Correct,
        Pattern::Incorrect,
        Pattern::Correct,
        Pattern::Misplaced,
        Pattern::Incorrect,
        Pattern::Incorrect,
    ];
    assert_eq!(actual, expected)
}
