use aurora::correction::{apply_correction, apply_corrections, Correction};

fn corr(offset: usize, length: usize, replacement: &str) -> Correction {
    Correction { offset, length, replacement: replacement.to_string() }
}

#[test]
fn offsets_count_characters_not_bytes() {
    // three two-byte characters precede the match: a byte-based
    // replacement would land three positions too early
    assert_eq!(apply_correction("ééé abcdef", 7, 3, "ment"), "ééé abcment");
}

#[test]
fn replacement_at_the_start_and_end() {
    assert_eq!(apply_correction("bonjour", 0, 3, "BON"), "BONjour");
    assert_eq!(apply_correction("bonjour", 4, 3, "soir"), "bonjsoir");
    assert_eq!(apply_correction("bonjour", 7, 0, "!"), "bonjour!");
}

#[test]
fn out_of_range_span_leaves_text_unchanged() {
    assert_eq!(apply_correction("abc", 4, 1, "x"), "abc");
    assert_eq!(apply_correction("abc", 1, 3, "x"), "abc");
}

#[test]
fn replacements_apply_in_descending_offset_order() {
    // handed in ascending order; applying them as given would shift
    // the second span after the first grows the text
    let cs = vec![corr(1, 2, "XYZ"), corr(4, 1, "Q")];
    assert_eq!(apply_corrections("abcdef", &cs), "aXYZdQf");
}

#[test]
fn corrections_fix_a_split_word() {
    // "com ment" -> "comment": replace characters 9..17
    let cs = vec![corr(9, 8, "comment")];
    assert_eq!(apply_corrections("bonjour, com ment ça va ?", &cs), "bonjour, comment ça va ?");
}

#[test]
fn no_corrections_is_the_identity() {
    assert_eq!(apply_corrections("tout va bien", &Vec::new()), "tout va bien");
}
