#![allow(non_snake_case)]
use rustle::dictionary::parse_entry;

fn parse_line(line: &str, word_length: usize, first_char: &str) -> Option<(String, f32)> {
    let (word, frequency) = parse_entry(line, word_length, first_char)?;
    Some((word, frequency.parse::<f32>().ok()?))
}

#[test]
fn Parse_Wordle_entity() {
    let parsed = parse_line("coucou;1.32", 6, "");
    assert_eq!(parsed, Some(("coucou".to_string(), 1.32)));
}

#[test]
fn Parse_Wordle_entity_special_char() {
    let parsed = parse_line("père;1.32", 4, "");
    assert_eq!(parsed, Some(("pere".to_string(), 1.32)));
}

#[test]
fn Parse_Wordle_entity_space() {
    let parsed = parse_line("à priori;1.32", 8, "");
    assert_eq!(parsed, None);
}

#[test]
fn entry_keeps_frequency_text() {
    assert_eq!(
        parse_entry("tarie;3.5", 5, ""),
        Some(("tarie".to_string(), "3.5".to_string()))
    );
}

#[test]
fn entry_splits_at_first_separator() {
    assert_eq!(
        parse_entry("tarie;3;5", 5, ""),
        Some(("tarie".to_string(), "3;5".to_string()))
    );
}

#[test]
fn entry_without_separator_is_dropped() {
    assert_eq!(parse_entry("tarie", 5, ""), None);
}

#[test]
fn entry_of_other_length_is_dropped() {
    assert_eq!(parse_entry("tarie;3.5", 6, ""), None);
}

#[test]
fn entry_first_letter_filter() {
    assert_eq!(
        parse_entry("tarie;3.5", 5, "t"),
        Some(("tarie".to_string(), "3.5".to_string()))
    );
    assert_eq!(parse_entry("tarie;3.5", 5, "s"), None);
}

#[test]
fn entry_first_letter_applies_to_transliterated_word() {
    assert_eq!(
        parse_entry("été;2", 3, "e"),
        Some(("ete".to_string(), "2".to_string()))
    );
}

#[test]
fn entry_with_digit_is_dropped() {
    assert_eq!(parse_entry("tar1e;3.5", 5, ""), None);
}
