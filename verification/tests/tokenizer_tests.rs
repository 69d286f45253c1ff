use aurora::text::chars_of;
use aurora::tokenizer::{tokenize, Token};
use aurora::merge::is_reasonable_word;

fn spans(text: &str) -> Vec<(usize, usize)> {
    let chars = chars_of(text);
    tokenize(&chars).iter().map(|t: &Token| (t.start, t.end)).collect()
}

#[test]
fn tokenize_simple_words() {
    assert_eq!(spans("il est la"), vec![(0, 2), (3, 6), (7, 9)]);
}

#[test]
fn tokenize_keeps_internal_apostrophe() {
    // "aujourd'hui" is one token, whatever the apostrophe kind
    assert_eq!(spans("aujourd'hui est"), vec![(0, 11), (12, 15)]);
    assert_eq!(spans("d\u{2019}hui"), vec![(0, 5)]);
}

#[test]
fn tokenize_excludes_digits_and_punctuation() {
    assert_eq!(spans("a1b"), vec![(0, 1), (2, 3)]);
    assert_eq!(spans("mot, mot."), vec![(0, 3), (5, 8)]);
}

#[test]
fn tokenize_apostrophe_needs_letters_on_both_sides() {
    // a leading or trailing apostrophe stays in the gap
    assert_eq!(spans("'abc"), vec![(1, 4)]);
    assert_eq!(spans("abc'"), vec![(0, 3)]);
    assert_eq!(spans("a''b"), vec![(0, 1), (3, 4)]);
}

#[test]
fn tokenize_empty_and_no_letters() {
    assert_eq!(spans(""), vec![]);
    assert_eq!(spans("123 ... !"), vec![]);
}

#[test]
fn reasonable_word_filter() {
    assert!(is_reasonable_word("bonjour"));
    assert!(is_reasonable_word("aujourd'hui"));
    assert!(!is_reasonable_word("bon jour"));
    assert!(!is_reasonable_word("mot-compose"));
    assert!(!is_reasonable_word("abcdefghijklmnopqrstu")); // 21 characters
    assert!(is_reasonable_word("abcdefghijklmnopqrst")); // 20 characters
}
