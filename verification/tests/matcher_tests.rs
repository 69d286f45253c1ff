use aurora::matcher::find_best_match;

#[test]
fn score_exactly_at_threshold_is_not_selected() {
    assert_eq!(find_best_match(&vec![700], 700), None);
    assert_eq!(find_best_match(&vec![700, 700, 700], 700), None);
    assert_eq!(find_best_match(&vec![701], 700), Some((0, 701)));
}

#[test]
fn below_threshold_returns_none_even_for_the_highest() {
    assert_eq!(find_best_match(&vec![100, 650, 400], 700), None);
}

#[test]
fn highest_score_wins_and_ties_keep_the_first() {
    assert_eq!(find_best_match(&vec![699, 701, 800, 800, 750], 700), Some((2, 800)));
    assert_eq!(find_best_match(&vec![800, 801, 801], 700), Some((1, 801)));
}

#[test]
fn empty_candidate_list_matches_nothing() {
    assert_eq!(find_best_match(&Vec::new(), 700), None);
}

#[test]
fn negative_scores_and_thresholds() {
    assert_eq!(find_best_match(&vec![-5, -3, -4], -4), Some((1, -3)));
    assert_eq!(find_best_match(&vec![-5, -4], -4), None);
}
