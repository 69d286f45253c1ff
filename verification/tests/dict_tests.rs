use aurora::dictionary::{
    build_dictionaries, is_most_similar, parse_hunspell_dic, DictionaryError, LanguageDictionary,
};

fn dict(words: &[&str]) -> LanguageDictionary {
    let owned: Vec<String> = words.iter().map(|w| w.to_string()).collect();
    LanguageDictionary::new("fr".to_string(), owned).expect("dictionary build")
}

#[test]
fn parse_skips_header_cuts_metadata_and_normalizes() {
    let content = "3\nBonjour/S.\nmonde\n\nmonde\n MONDE \n";
    let words = parse_hunspell_dic(content);
    assert_eq!(words, vec!["bonjour".to_string(), "monde".to_string()]);
}

#[test]
fn parse_applies_nfkc() {
    // the ligature and the fullwidth letter normalize to plain ASCII
    let content = "2\n\u{fb01}n\n";
    let words = parse_hunspell_dic(content);
    assert_eq!(words, vec!["fin".to_string()]);
}

#[test]
fn parse_empty_content() {
    assert_eq!(parse_hunspell_dic(""), Vec::<String>::new());
    assert_eq!(parse_hunspell_dic("57"), Vec::<String>::new());
}

#[test]
fn contains_is_exact_membership() {
    let d = dict(&["ab", "abc", "bonjour"]);
    assert!(d.contains("abc"));
    assert!(d.contains("ab"));
    assert!(d.contains("bonjour"));
    // substrings and extensions of entries are not members
    assert!(!d.contains("onjour"));
    assert!(!d.contains("bonjou"));
    assert!(!d.contains("bonjours"));
    assert!(!d.contains(""));
}

#[test]
fn contains_full_word_even_when_prefix_is_an_entry() {
    // an overlapping shorter entry must not mask the full match
    let d = dict(&["au", "aujourdhui"]);
    assert!(d.contains("aujourdhui"));
}

#[test]
fn fuzzy_membership_by_edit_distance() {
    let list = vec!["bonjour".to_string()];
    assert!(is_most_similar(&list, "bonjour", 0));
    assert!(is_most_similar(&list, "bonjoux", 1));
    assert!(!is_most_similar(&list, "bonjoxx", 1));
    assert!(is_most_similar(&list, "bonjoxx", 2));
    assert!(!is_most_similar(&Vec::new(), "bonjour", 5));
}

#[test]
fn fuzzy_membership_normalizes_its_query() {
    let list = vec!["bonjour".to_string(), "fin".to_string()];
    // lower-casing: an upper-case query still matches at distance 0
    assert!(is_most_similar(&list, "BONJOUR", 0));
    // NFKC: the ligature query still matches at distance 0
    assert!(is_most_similar(&list, "\u{fb01}n", 0));
}

#[test]
fn build_dictionaries_rejects_empty_word_list() {
    let inputs = vec![("fr".to_string(), "42\n".to_string())];
    match build_dictionaries(inputs) {
        Err(DictionaryError::EmptyWordList) => {}
        _ => panic!("expected an empty-word-list error"),
    }
}

#[test]
fn build_dictionaries_builds_each_language() {
    let inputs = vec![
        ("fr".to_string(), "1\nbonjour\n".to_string()),
        ("en".to_string(), "1\nhello\n".to_string()),
    ];
    let ds = build_dictionaries(inputs).expect("build");
    assert_eq!(ds.len(), 2);
    assert!(ds[0].contains("bonjour"));
    assert!(!ds[0].contains("hello"));
    assert!(ds[1].contains("hello"));
}
