use aurora::dictionary::LanguageDictionary;
use aurora::merge::merge_separated_words_dawg_regex;
use aurora::score::{
    compute_merge_score, context_sentences, context_score, handle_merge_decision,
    plausibility_from_evidence, FixedPlausibility,
};

fn dicts(words: &[&str]) -> Vec<LanguageDictionary> {
    let owned: Vec<String> = words.iter().map(|w| w.to_string()).collect();
    vec![LanguageDictionary::new("fr".to_string(), owned).expect("dictionary build")]
}

fn no_oracle() -> FixedPlausibility {
    FixedPlausibility { entries: Vec::new() }
}

// Test the merging of incorrectly separated words.
#[test]
fn test_merge_separated_words_dawg_regex() {
    // The dictionary holds the concatenation of the four fragments;
    // the spaced form is not an entry, so the merge is unconditional.
    let input_text = "Il est au jour d hui un bel après midi.";
    let ds = dicts(&["aujourdhui"]);
    let mut oracle = no_oracle();
    let merged = merge_separated_words_dawg_regex(input_text, 4, &ds, &mut oracle);
    println!("Merged text: '{}'", merged);
    assert!(merged.contains("aujourdhui"), "Merged text: '{}'", merged);
}

#[test]
fn merge_consumes_all_four_tokens() {
    let ds = dicts(&["aujourdhui"]);
    let mut oracle = no_oracle();
    let merged = merge_separated_words_dawg_regex("au jour d hui", 4, &ds, &mut oracle);
    assert_eq!(merged, "aujourdhui");
}

#[test]
fn merge_preserves_gaps_and_trailing_text() {
    let ds = dicts(&["aujourdhui"]);
    let mut oracle = no_oracle();
    let merged = merge_separated_words_dawg_regex("... au jour d hui, oui!", 4, &ds, &mut oracle);
    assert_eq!(merged, "... aujourdhui, oui!");
}

#[test]
fn no_dictionary_hit_leaves_text_unchanged() {
    let ds = dicts(&["zzzzzzzzzz"]);
    let mut oracle = no_oracle();
    let text = "bon jour tout le monde";
    assert_eq!(merge_separated_words_dawg_regex(text, 4, &ds, &mut oracle), text);
}

#[test]
fn repair_is_idempotent_when_nothing_is_left_to_merge() {
    let ds = dicts(&["aujourdhui"]);
    let mut oracle = no_oracle();
    let once = merge_separated_words_dawg_regex("au jour d hui donc", 4, &ds, &mut oracle);
    let twice = merge_separated_words_dawg_regex(once.as_str(), 4, &ds, &mut oracle);
    assert_eq!(twice, once);
}

#[test]
fn short_pair_with_spaced_entry_and_low_plausibility_stays_split() {
    // both "bonjour" and "bon jour" are dictionary-valid and the
    // merged word looks implausible: keep "bon jour"
    let ds = dicts(&["bonjour", "bon jour"]);
    let mut oracle = FixedPlausibility { entries: vec![("bonjour".to_string(), 50)] };
    assert_eq!(
        merge_separated_words_dawg_regex("bon jour", 2, &ds, &mut oracle),
        "bon jour"
    );
}

#[test]
fn short_pair_with_spaced_entry_and_enough_plausibility_merges() {
    let ds = dicts(&["bonjour", "bon jour"]);
    let mut oracle = FixedPlausibility { entries: vec![("bonjour".to_string(), 500)] };
    assert_eq!(
        merge_separated_words_dawg_regex("bon jour", 2, &ds, &mut oracle),
        "bonjour"
    );
}

#[test]
fn long_pair_with_spaced_entry_never_merges() {
    // twelve characters: the general regime applies, and with the
    // spaced form in the dictionary its threshold is out of reach
    let ds = dicts(&["abcdefghijkl", "abcdef ghijkl"]);
    let mut oracle = FixedPlausibility { entries: vec![("abcdefghijkl".to_string(), 1000)] };
    assert_eq!(
        merge_separated_words_dawg_regex("abcdef ghijkl", 2, &ds, &mut oracle),
        "abcdef ghijkl"
    );
}

#[test]
fn merge_normalizes_candidates_for_lookup() {
    // the text is capitalized; the dictionary entry is lower-case
    let ds = dicts(&["aujourdhui"]);
    let mut oracle = no_oracle();
    let merged = merge_separated_words_dawg_regex("Au Jour D Hui", 4, &ds, &mut oracle);
    // the replacement keeps the original characters of the tokens
    assert_eq!(merged, "AuJourDHui");
}

#[test]
fn merge_accepts_fuzzy_dictionary_hit() {
    // "aujourdui" is within edit distance one of the entry, and its
    // spaced form is in no dictionary: the window merges
    let ds = dicts(&["aujourdhui"]);
    let mut oracle = no_oracle();
    let merged = merge_separated_words_dawg_regex("au jour dui", 3, &ds, &mut oracle);
    assert_eq!(merged, "aujourdui");
}

#[test]
fn merge_score_exact_values() {
    // base 550 for three tokens, no penalty at twelve characters,
    // plus a tenth of the plausibility
    assert_eq!(compute_merge_score("portemanteau", 3, 500), 600);
    // short word: base 500, penalty 50
    assert_eq!(compute_merge_score("abcd", 2, 0), 450);
    assert_eq!(compute_merge_score("abcd", 2, 1000), 550);
    // outside the [3, 20] length range the score is zero
    assert_eq!(compute_merge_score("ab", 2, 1000), 0);
    assert_eq!(compute_merge_score("abcdefghijklmnopqrstu", 4, 1000), 0);
    // four tokens and more share the highest base
    assert_eq!(compute_merge_score("abcdefgh", 4, 0), 600);
    assert_eq!(compute_merge_score("abcdefgh", 7, 0), 600);
}

#[test]
fn decision_rule_boundaries() {
    // a candidate whose spaced form is in no dictionary always merges
    assert!(handle_merge_decision("xy", "xy", false, 2, 0, 0).is_some());
    // short pair, spaced entry: the plausibility decides, 0.1 strictly
    assert!(handle_merge_decision("bonjour", "bonjour", true, 2, 450, 99).is_none());
    assert!(handle_merge_decision("bonjour", "bonjour", true, 2, 450, 100).is_some());
    // general regime: threshold 750 for three tokens, reached or not
    assert!(handle_merge_decision("abcdefghijkl", "abcdefghijkl", true, 3, 750, 0).is_some());
    assert!(handle_merge_decision("abcdefghijkl", "abcdefghijkl", true, 3, 749, 0).is_none());
    // the merged word keeps the non-normalized concatenation
    let (word, count) = handle_merge_decision("AuJour", "aujour", false, 2, 0, 0).unwrap();
    assert_eq!(word, "AuJour");
    assert_eq!(count, 2);
}

#[test]
fn plausibility_combination_exact_values() {
    // one template: cosine 1.0, ratio 1.0 -> (7000 + 1500) / 10 = 850
    assert_eq!(plausibility_from_evidence(&vec![(1000, 1000)]), 850);
    // negative cosine floors at zero
    assert_eq!(plausibility_from_evidence(&vec![(-1000, 0)]), 0);
    // the ratio clamps at 2.0
    assert_eq!(context_score(0, 5000), 300);
    // averaging across templates
    assert_eq!(plausibility_from_evidence(&vec![(1000, 1000), (0, 1000)]), 500);
    // no evidence means no plausibility
    assert_eq!(plausibility_from_evidence(&Vec::new()), 0);
}

#[test]
fn context_sentences_substitute_the_word() {
    let pairs = context_sentences("truc");
    assert_eq!(pairs.len(), 4);
    assert_eq!(pairs[0].0, "On utilise souvent le mot truc.");
    assert_eq!(pairs[0].1, "On utilise souvent le mot bonjour.");
    assert_eq!(pairs[3].0, "Il parle de truc avec enthousiasme.");
    assert_eq!(pairs[3].1, "Il parle de bonjour avec enthousiasme.");
}
