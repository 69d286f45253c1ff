//! The merge decision engine and the text-repair pipeline.
//!
//! Speech-to-text output sometimes splits one word over several
//! tokens.  The pipeline scans the tokens left to right; at each
//! position it tries to merge a window of adjacent tokens, longest
//! window first, into one word.  A window merges only when the
//! concatenated candidate passes a sanity filter and is accepted by
//! some language dictionary (exactly, or within edit distance one),
//! and the decision rule of `crate::score` approves; otherwise the
//! token is copied verbatim and the scan advances by one.

use vstd::prelude::*;
use vstd::string::StrSliceExecFns;
use crate::text::{chars_of, letter_char, lower_of, nfkc, nfkc_of, string_from_chars, to_lower, white_char};
use crate::tokenizer::{lemma_valid_spans, spans_wf, tokenize, valid_tokenization, Token};
use crate::dictionary::{lev, LanguageDictionary};
use crate::score::{
    compute_merge_score,
    handle_merge_decision,
    merge_score_spec,
    short_pair_regime,
    threshold_spec,
    PlausibilitySource,
};

verus! {

/// The text of one token.
pub open spec fn token_text(text: Seq<char>, t: Token) -> Seq<char> {
    text.subrange(t.start as int, t.end as int)
}

/// The texts of tokens `[i, i + k)` concatenated with no separator.
pub open spec fn concat_tokens(text: Seq<char>, toks: Seq<Token>, i: int, k: int) -> Seq<char>
    decreases k,
{
    if k <= 0 {
        Seq::empty()
    } else {
        concat_tokens(text, toks, i, k - 1) + token_text(text, toks[i + k - 1])
    }
}

/// The texts of tokens `[i, i + k)` joined by single spaces.
pub open spec fn spaced_tokens(text: Seq<char>, toks: Seq<Token>, i: int, k: int) -> Seq<char>
    decreases k,
{
    if k <= 0 {
        Seq::empty()
    } else if k == 1 {
        token_text(text, toks[i])
    } else {
        spaced_tokens(text, toks, i, k - 1) + seq![' '] + token_text(text, toks[i + k - 1])
    }
}

/// The gap between token `j` and token `j + 1` is whitespace only.
pub open spec fn gap_white(text: Seq<char>, toks: Seq<Token>, j: int) -> bool {
    forall|m: int| toks[j].end <= m < toks[j + 1].start ==> white_char(#[trigger] text[m])
}

/// Every gap between consecutive tokens of the window `[i, i + k)` is
/// whitespace only.
pub open spec fn gaps_white(text: Seq<char>, toks: Seq<Token>, i: int, k: int) -> bool {
    forall|j: int| i <= j < i + k - 1 ==> #[trigger] gap_white(text, toks, j)
}

/// The character-class sanity filter on a normalized candidate: at
/// most 20 characters, all letters or ASCII apostrophes.
pub open spec fn reasonable_spec(w: Seq<char>) -> bool {
    w.len() <= 20 && forall|i: int|
        0 <= i < w.len() ==> letter_char(#[trigger] w[i]) || w[i] == '\''
}

/// The normalized concatenated candidate of a window.
pub open spec fn candidate_norm(text: Seq<char>, toks: Seq<Token>, i: int, k: int) -> Seq<char> {
    lower_of(nfkc_of(concat_tokens(text, toks, i, k)))
}

/// The normalized space-joined candidate of a window.
pub open spec fn spaced_norm(text: Seq<char>, toks: Seq<Token>, i: int, k: int) -> Seq<char> {
    lower_of(nfkc_of(spaced_tokens(text, toks, i, k)))
}

/// Dictionary `di` accepts `w`: exactly, or with some entry within
/// Levenshtein distance one of the re-normalized candidate.
pub open spec fn dict_hit(ds: Seq<LanguageDictionary>, di: int, w: Seq<char>) -> bool {
    ds[di].entries().contains(w) || exists|k: int|
        0 <= k < ds[di].entries().len() && lev(nfkc_of(lower_of(w)), #[trigger] ds[di].entries()[k])
            <= 1
}

/// Some dictionary accepts `w`, exactly or fuzzily.
pub open spec fn in_dict_spec(ds: Seq<LanguageDictionary>, w: Seq<char>) -> bool {
    exists|di: int| 0 <= di < ds.len() && #[trigger] dict_hit(ds, di, w)
}

/// Some dictionary holds `w` as an exact entry.
pub open spec fn spaced_exact_spec(ds: Seq<LanguageDictionary>, w: Seq<char>) -> bool {
    exists|di: int| 0 <= di < ds.len() && (#[trigger] ds[di]).entries().contains(w)
}

/// All dictionaries are well formed.
pub open spec fn dicts_wf(ds: Seq<LanguageDictionary>) -> bool {
    forall|di: int| 0 <= di < ds.len() ==> (#[trigger] ds[di]).wf()
}

/// The window `[i, i + k)` could be merged as far as the dictionaries
/// are concerned: the tokens exist and are adjacent over whitespace,
/// and the normalized concatenation passes the sanity filter and is
/// accepted by some dictionary.
pub open spec fn window_accepted(
    text: Seq<char>,
    toks: Seq<Token>,
    ds: Seq<LanguageDictionary>,
    i: int,
    k: int,
) -> bool {
    &&& 0 <= i
    &&& 2 <= k
    &&& i + k <= toks.len()
    &&& gaps_white(text, toks, i, k)
    &&& reasonable_spec(candidate_norm(text, toks, i, k))
    &&& in_dict_spec(ds, candidate_norm(text, toks, i, k))
}

/// A window's concatenation is shorter than the span it covers: the
/// gaps between the tokens, at least one character each, are dropped.
proof fn lemma_concat_tokens_len(text: Seq<char>, toks: Seq<Token>, i: int, k: int)
    requires
        spans_wf(text, toks),
        0 <= i,
        1 <= k,
        i + k <= toks.len(),
    ensures
        concat_tokens(text, toks, i, k).len() <= toks[i + k - 1].end - toks[i].start - (k - 1),
    decreases k,
{
    if k == 1 {
        assert(concat_tokens(text, toks, i, 1) == concat_tokens(text, toks, i, 0) + token_text(
            text,
            toks[i],
        ));
    } else {
        lemma_concat_tokens_len(text, toks, i, k - 1);
        assert(toks[i + k - 2].end < toks[i + k - 1].start);
    }
}

/// Append `src[from..to]` to `dst`.
fn append_range(dst: &mut Vec<char>, src: &Vec<char>, from: usize, to: usize)
    requires
        from <= to <= src@.len(),
    ensures
        final(dst)@ == old(dst)@ + src@.subrange(from as int, to as int),
{
    let mut m: usize = from;
    proof {
        assert(dst@ =~= old(dst)@ + src@.subrange(from as int, from as int));
    }
    while m < to
        invariant
            from <= m <= to <= src@.len(),
            dst@ == old(dst)@ + src@.subrange(from as int, m as int),
        decreases to - m,
    {
        dst.push(src[m]);
        proof {
            assert(old(dst)@ + src@.subrange(from as int, m as int) + seq![src@[m as int]]
                =~= old(dst)@ + src@.subrange(from as int, m + 1));
        }
        m += 1;
    }
}

/// Whether the tokens `[start_index, start_index + merge_len)` are
/// separated by whitespace only.
pub fn are_tokens_adjacent(
    text: &Vec<char>,
    toks: &Vec<Token>,
    start_index: usize,
    merge_len: usize,
) -> (r: bool)
    requires
        spans_wf(text@, toks@),
        merge_len >= 1,
        start_index + merge_len <= toks@.len(),
    ensures
        r == gaps_white(text@, toks@, start_index as int, merge_len as int),
{
    let n = toks.len();
    let last = start_index + merge_len - 1;
    let mut j: usize = start_index;
    while j < last
        invariant
            spans_wf(text@, toks@),
            last == start_index + merge_len - 1,
            start_index <= j <= last,
            last < toks@.len(),
            forall|j2: int| start_index <= j2 < j ==> #[trigger] gap_white(text@, toks@, j2),
        decreases last - j,
    {
        let gap_from = toks[j].end;
        let gap_to = toks[j + 1].start;
        let mut m: usize = gap_from;
        while m < gap_to
            invariant
                start_index <= j,
                j < last,
                last == start_index + merge_len - 1,
                last < toks@.len(),
                gap_from == toks@[j as int].end,
                gap_to == toks@[j + 1].start,
                gap_from <= m <= gap_to <= text@.len(),
                forall|m2: int| gap_from <= m2 < m ==> white_char(#[trigger] text@[m2]),
            decreases gap_to - m,
        {
            if !text[m].is_whitespace() {
                proof {
                    assert(toks@[j as int].end <= m < toks@[j + 1].start);
                    assert(!white_char(text@[m as int]));
                    assert(!gap_white(text@, toks@, j as int));
                }
                return false;
            }
            m += 1;
        }
        proof {
            assert(gap_white(text@, toks@, j as int));
        }
        j += 1;
    }
    true
}

/// Build the candidate forms of a window: the concatenation, the
/// space-joined form, and each of them NFKC-normalized and
/// lower-cased.
pub fn build_candidates(
    text: &Vec<char>,
    toks: &Vec<Token>,
    start_index: usize,
    merge_len: usize,
) -> (r: (String, String, String, String))
    requires
        spans_wf(text@, toks@),
        merge_len >= 1,
        start_index + merge_len <= toks@.len(),
    ensures
        r.0@ == concat_tokens(text@, toks@, start_index as int, merge_len as int),
        r.1@ == spaced_tokens(text@, toks@, start_index as int, merge_len as int),
        r.2@ == candidate_norm(text@, toks@, start_index as int, merge_len as int),
        r.3@ == spaced_norm(text@, toks@, start_index as int, merge_len as int),
{
    let n = toks.len();
    let mut cat: Vec<char> = Vec::new();
    let mut sp: Vec<char> = Vec::new();
    let mut j: usize = 0;
    proof {
        assert(cat@ =~= concat_tokens(text@, toks@, start_index as int, 0));
        assert(sp@ =~= spaced_tokens(text@, toks@, start_index as int, 0));
    }
    while j < merge_len
        invariant
            spans_wf(text@, toks@),
            j <= merge_len,
            n == toks@.len(),
            start_index + merge_len <= toks@.len(),
            cat@ == concat_tokens(text@, toks@, start_index as int, j as int),
            sp@ == spaced_tokens(text@, toks@, start_index as int, j as int),
        decreases merge_len - j,
    {
        let t = toks[start_index + j];
        if j > 0 {
            sp.push(' ');
        }
        append_range(&mut cat, text, t.start, t.end);
        append_range(&mut sp, text, t.start, t.end);
        proof {
            assert(toks@[start_index + j] == t);
            assert(concat_tokens(text@, toks@, start_index as int, j + 1) == concat_tokens(
                text@,
                toks@,
                start_index as int,
                j as int,
            ) + token_text(text@, toks@[start_index + j]));
            if j == 0 {
                assert(spaced_tokens(text@, toks@, start_index as int, 1) == token_text(
                    text@,
                    toks@[start_index as int],
                ));
                assert(sp@ =~= spaced_tokens(text@, toks@, start_index as int, 1));
            } else {
                assert(spaced_tokens(text@, toks@, start_index as int, j + 1) == spaced_tokens(
                    text@,
                    toks@,
                    start_index as int,
                    j as int,
                ) + seq![' '] + token_text(text@, toks@[start_index + j]));
                assert(sp@ =~= spaced_tokens(text@, toks@, start_index as int, j + 1));
            }
        }
        j += 1;
    }
    let candidate = string_from_chars(&cat);
    let candidate_with_space = string_from_chars(&sp);
    let n1 = nfkc(candidate.as_str());
    let candidate_lower = to_lower(n1.as_str());
    let n2 = nfkc(candidate_with_space.as_str());
    let candidate_with_space_lower = to_lower(n2.as_str());
    (candidate, candidate_with_space, candidate_lower, candidate_with_space_lower)
}

/// The sanity filter on a candidate: at most 20 characters, all
/// letters or ASCII apostrophes.  Nothing shorter than a dictionary
/// or embedding query is spent on a candidate that fails it.
pub fn is_reasonable_word(word: &str) -> (r: bool)
    ensures
        r == reasonable_spec(word@),
{
    let n = word.unicode_len();
    if n > 20 {
        return false;
    }
    let mut i: usize = 0;
    while i < n
        invariant
            i <= n,
            n == word@.len(),
            n <= 20,
            forall|m: int|
                0 <= m < i ==> letter_char(#[trigger] word@[m]) || word@[m] == '\'',
        decreases n - i,
    {
        let c = word.get_char(i);
        if !(c.is_alphabetic() || c == '\'') {
            return false;
        }
        i += 1;
    }
    true
}

/// Query every dictionary for the two candidate forms: whether some
/// dictionary accepts the concatenated form (exactly or within edit
/// distance one), and whether some dictionary holds the space-joined
/// form as an exact entry.
pub fn check_in_dawg(
    candidate_lower: &str,
    candidate_with_space_lower: &str,
    dicts: &Vec<LanguageDictionary>,
) -> (r: (bool, bool))
    requires
        dicts_wf(dicts@),
    ensures
        r.0 == in_dict_spec(dicts@, candidate_lower@),
        r.1 == spaced_exact_spec(dicts@, candidate_with_space_lower@),
{
    let mut in_dawg = false;
    let mut spaced_in_dawg = false;
    let mut di: usize = 0;
    while di < dicts.len()
        invariant
            dicts_wf(dicts@),
            di <= dicts@.len(),
            in_dawg == exists|d2: int| 0 <= d2 < di && #[trigger] dict_hit(dicts@, d2, candidate_lower@),
            spaced_in_dawg == exists|d2: int|
                0 <= d2 < di && (#[trigger] dicts@[d2]).entries().contains(
                    candidate_with_space_lower@,
                ),
        decreases dicts@.len() - di,
    {
        let d = &dicts[di];
        if d.contains(candidate_lower) {
            proof {
                assert(dict_hit(dicts@, di as int, candidate_lower@));
            }
            in_dawg = true;
        }
        if d.fuzzy_contains(candidate_lower, 1) {
            proof {
                assert(dict_hit(dicts@, di as int, candidate_lower@));
            }
            in_dawg = true;
        }
        if d.contains(candidate_with_space_lower) {
            spaced_in_dawg = true;
        }
        di += 1;
    }
    (in_dawg, spaced_in_dawg)
}

/// Try to merge a window of tokens starting at `start_index`, longest
/// window first, from `max_merge` tokens down to two.
///
/// On `Some((word, k))`: the window of `k` tokens was accepted by the
/// dictionaries, `word` is its concatenation, every longer acceptable
/// window had its spaced form in a dictionary (and was declined), and
/// if this window's own spaced form is a dictionary entry then the
/// window is a short pair, whose merge the plausibility estimate
/// approved.  On `None`: every acceptable window in range has its
/// spaced form in a dictionary.  In particular, an acceptable window
/// whose spaced form is in no dictionary is always merged.
pub fn try_merge_tokens<P: PlausibilitySource>(
    text: &Vec<char>,
    toks: &Vec<Token>,
    start_index: usize,
    max_merge: usize,
    dicts: &Vec<LanguageDictionary>,
    oracle: &mut P,
) -> (r: Option<(String, usize)>)
    requires
        spans_wf(text@, toks@),
        dicts_wf(dicts@),
    ensures
        r matches Some(p) ==> {
            &&& 2 <= p.1 <= max_merge
            &&& start_index + p.1 <= toks@.len()
            &&& window_accepted(text@, toks@, dicts@, start_index as int, p.1 as int)
            &&& p.0@ == concat_tokens(text@, toks@, start_index as int, p.1 as int)
            &&& (spaced_exact_spec(
                dicts@,
                spaced_norm(text@, toks@, start_index as int, p.1 as int),
            ) ==> short_pair_regime(
                p.1 as int,
                candidate_norm(text@, toks@, start_index as int, p.1 as int).len() as int,
            ))
            &&& forall|k2: int|
                p.1 < k2 <= max_merge && start_index + k2 <= toks@.len() ==> (
                #[trigger] window_accepted(text@, toks@, dicts@, start_index as int, k2)
                    ==> spaced_exact_spec(
                    dicts@,
                    spaced_norm(text@, toks@, start_index as int, k2),
                ))
        },
        r is None ==> forall|k2: int|
            2 <= k2 <= max_merge && start_index + k2 <= toks@.len() ==> (
            #[trigger] window_accepted(text@, toks@, dicts@, start_index as int, k2)
                ==> spaced_exact_spec(dicts@, spaced_norm(text@, toks@, start_index as int, k2))),
        (exists|k2: int|
            2 <= k2 <= max_merge && start_index + k2 <= toks@.len() && #[trigger] window_accepted(
                text@,
                toks@,
                dicts@,
                start_index as int,
                k2,
            ) && !spaced_exact_spec(dicts@, spaced_norm(text@, toks@, start_index as int, k2)))
            ==> r is Some,
{
    let mut merge_len: usize = max_merge;
    while merge_len >= 2
        invariant
            spans_wf(text@, toks@),
            dicts_wf(dicts@),
            merge_len <= max_merge,
            forall|k2: int|
                merge_len < k2 <= max_merge && start_index + k2 <= toks@.len() ==> (
                #[trigger] window_accepted(text@, toks@, dicts@, start_index as int, k2)
                    ==> spaced_exact_spec(
                    dicts@,
                    spaced_norm(text@, toks@, start_index as int, k2),
                )),
        decreases merge_len,
    {
        if merge_len <= toks.len() && start_index <= toks.len() - merge_len {
            if are_tokens_adjacent(text, toks, start_index, merge_len) {
                let (candidate, _candidate_with_space, candidate_lower, candidate_with_space_lower)
                    = build_candidates(text, toks, start_index, merge_len);
                if is_reasonable_word(candidate_lower.as_str()) {
                    let (in_dawg, spaced_in_dawg) = check_in_dawg(
                        candidate_lower.as_str(),
                        candidate_with_space_lower.as_str(),
                        dicts,
                    );
                    if in_dawg {
                        let p_raw = oracle.plausibility(candidate_lower.as_str());
                        let p = if p_raw > 1000 {
                            1000
                        } else {
                            p_raw
                        };
                        let merge_score = compute_merge_score(
                            candidate_lower.as_str(),
                            merge_len,
                            p,
                        );
                        let decision = handle_merge_decision(
                            candidate.as_str(),
                            candidate_lower.as_str(),
                            spaced_in_dawg,
                            merge_len,
                            merge_score,
                            p,
                        );
                        match decision {
                            Some(res) => {
                                proof {
                                    let gi = start_index as int;
                                    let gk = merge_len as int;
                                    let cn = candidate_norm(text@, toks@, gi, gk);
                                    assert(window_accepted(text@, toks@, dicts@, gi, gk));
                                    if spaced_in_dawg && !short_pair_regime(gk, cn.len() as int) {
                                        // in the general regime the score cannot
                                        // reach the threshold, so the decision
                                        // rule would have declined
                                        assert(p as int / 10 <= 100) by (nonlinear_arith)
                                            requires
                                                p <= 1000,
                                        ;
                                        assert(merge_score_spec(cn.len() as int, gk, p as int)
                                            < threshold_spec(gk));
                                        assert(false);
                                    }
                                }
                                return Some(res);
                            },
                            None => {
                            },
                        }
                    }
                }
            }
        }
        merge_len -= 1;
    }
    None
}

/// The greedy scan may copy the token at `i` verbatim only when every
/// acceptable window starting there has its spaced form in a
/// dictionary (so the decision rule could decline it).
pub open spec fn copy_permitted(
    text: Seq<char>,
    toks: Seq<Token>,
    ds: Seq<LanguageDictionary>,
    mm: int,
    i: int,
) -> bool {
    forall|k: int|
        2 <= k <= mm && i + k <= toks.len() ==> (#[trigger] window_accepted(text, toks, ds, i, k)
            ==> spaced_exact_spec(ds, spaced_norm(text, toks, i, k)))
}

/// The greedy scan may merge the window of `s` tokens at `i` only
/// when the window is acceptable, a spaced dictionary form restricts
/// the merge to the short-pair regime, and every longer acceptable
/// window was declinable.
pub open spec fn merge_permitted(
    text: Seq<char>,
    toks: Seq<Token>,
    ds: Seq<LanguageDictionary>,
    mm: int,
    i: int,
    s: int,
) -> bool {
    &&& 2 <= s <= mm
    &&& i + s <= toks.len()
    &&& window_accepted(text, toks, ds, i, s)
    &&& (spaced_exact_spec(ds, spaced_norm(text, toks, i, s)) ==> short_pair_regime(
        s,
        candidate_norm(text, toks, i, s).len() as int,
    ))
    &&& forall|k: int|
        s < k <= mm && i + k <= toks.len() ==> (#[trigger] window_accepted(text, toks, ds, i, k)
            ==> spaced_exact_spec(ds, spaced_norm(text, toks, i, k)))
}

/// Run a step trace over the tokens: step 0 copies one token, step
/// `s >= 2` merges `s` tokens.  Yields the text emitted so far, the
/// token cursor, and the end of the last consumed token.
pub open spec fn run_steps(text: Seq<char>, toks: Seq<Token>, steps: Seq<usize>) -> (
    Seq<char>,
    int,
    int,
)
    decreases steps.len(),
{
    if steps.len() == 0 {
        (Seq::<char>::empty(), 0int, 0int)
    } else {
        let prev = run_steps(text, toks, steps.drop_last());
        let s = steps.last() as int;
        if s == 0 {
            (prev.0 + text.subrange(prev.2, toks[prev.1].end as int), prev.1 + 1, toks[prev.1].end as int)
        } else {
            (
                prev.0 + text.subrange(prev.2, toks[prev.1].start as int) + concat_tokens(
                    text,
                    toks,
                    prev.1,
                    s,
                ),
                prev.1 + s,
                toks[prev.1 + s - 1].end as int,
            )
        }
    }
}

/// Every step of the trace was permitted at the cursor it ran at.
pub open spec fn steps_ok(
    text: Seq<char>,
    toks: Seq<Token>,
    ds: Seq<LanguageDictionary>,
    mm: int,
    steps: Seq<usize>,
) -> bool
    decreases steps.len(),
{
    if steps.len() == 0 {
        true
    } else {
        let prefix = steps.drop_last();
        let s = steps.last() as int;
        let i = run_steps(text, toks, prefix).1;
        &&& steps_ok(text, toks, ds, mm, prefix)
        &&& if s == 0 {
            i < toks.len() && copy_permitted(text, toks, ds, mm, i)
        } else {
            merge_permitted(text, toks, ds, mm, i, s)
        }
    }
}

/// The output `out` is explained by the step trace `steps`: every
/// step was permitted, the trace consumes all tokens, and `out` is
/// the emitted text plus the trailing text after the last token.
pub open spec fn trace_explains(
    text: Seq<char>,
    toks: Seq<Token>,
    ds: Seq<LanguageDictionary>,
    mm: int,
    steps: Seq<usize>,
    out: Seq<char>,
) -> bool {
    let st = run_steps(text, toks, steps);
    &&& steps_ok(text, toks, ds, mm, steps)
    &&& st.1 == toks.len()
    &&& 0 <= st.2 <= text.len()
    &&& out == st.0 + text.skip(st.2)
}

/// The longest-window scenario: when the window of all `mm` tokens
/// starting at `i` is acceptable and its spaced form is in no
/// dictionary, the greedy scan has exactly one permitted step there —
/// merging the whole window.  Copying the token is not permitted, no
/// shorter merge is permitted, and the full merge is.
pub proof fn lemma_longest_window_is_the_merge(
    text: Seq<char>,
    toks: Seq<Token>,
    ds: Seq<LanguageDictionary>,
    mm: int,
    i: int,
)
    requires
        window_accepted(text, toks, ds, i, mm),
        !spaced_exact_spec(ds, spaced_norm(text, toks, i, mm)),
    ensures
        !copy_permitted(text, toks, ds, mm, i),
        merge_permitted(text, toks, ds, mm, i, mm),
        forall|s: int| #[trigger] merge_permitted(text, toks, ds, mm, i, s) ==> s == mm,
{
    if copy_permitted(text, toks, ds, mm, i) {
        assert(spaced_exact_spec(ds, spaced_norm(text, toks, i, mm)));
        assert(false);
    }
    assert forall|s: int| #[trigger] merge_permitted(text, toks, ds, mm, i, s) implies s == mm by {
        if s < mm {
            assert(spaced_exact_spec(ds, spaced_norm(text, toks, i, mm)));
            assert(false);
        }
    }
}

/// Extending a permitted trace with a copy step.
proof fn lemma_steps_push_copy(
    text: Seq<char>,
    toks: Seq<Token>,
    ds: Seq<LanguageDictionary>,
    mm: int,
    steps: Seq<usize>,
)
    requires
        steps_ok(text, toks, ds, mm, steps),
        run_steps(text, toks, steps).1 < toks.len(),
        copy_permitted(text, toks, ds, mm, run_steps(text, toks, steps).1),
    ensures
        steps_ok(text, toks, ds, mm, steps.push(0usize)),
        run_steps(text, toks, steps.push(0usize)).0 == run_steps(text, toks, steps).0
            + text.subrange(
            run_steps(text, toks, steps).2,
            toks[run_steps(text, toks, steps).1].end as int,
        ),
        run_steps(text, toks, steps.push(0usize)).1 == run_steps(text, toks, steps).1 + 1,
        run_steps(text, toks, steps.push(0usize)).2 == toks[run_steps(text, toks, steps).1].end as int,
{
    let steps2 = steps.push(0usize);
    assert(steps2.drop_last() =~= steps);
    assert(steps2.last() == 0usize);
}

/// Extending a permitted trace with a merge step.
proof fn lemma_steps_push_merge(
    text: Seq<char>,
    toks: Seq<Token>,
    ds: Seq<LanguageDictionary>,
    mm: int,
    steps: Seq<usize>,
    count: usize,
)
    requires
        steps_ok(text, toks, ds, mm, steps),
        count >= 2,
        merge_permitted(text, toks, ds, mm, run_steps(text, toks, steps).1, count as int),
    ensures
        steps_ok(text, toks, ds, mm, steps.push(count)),
        run_steps(text, toks, steps.push(count)).0 == run_steps(text, toks, steps).0
            + text.subrange(
            run_steps(text, toks, steps).2,
            toks[run_steps(text, toks, steps).1].start as int,
        ) + concat_tokens(text, toks, run_steps(text, toks, steps).1, count as int),
        run_steps(text, toks, steps.push(count)).1 == run_steps(text, toks, steps).1 + count,
        run_steps(text, toks, steps.push(count)).2 == toks[run_steps(text, toks, steps).1 + count
            - 1].end as int,
{
    let steps2 = steps.push(count);
    assert(steps2.drop_last() =~= steps);
    assert(steps2.last() == count);
}

/// Conclusions of the scan: the trace explains the output; with no
/// acceptable window anywhere the output is the text itself; with an
/// undeclinable window somewhere the output is strictly shorter.
proof fn lemma_pipeline_finish(
    text: Seq<char>,
    toks: Seq<Token>,
    ds: Seq<LanguageDictionary>,
    mm: int,
    steps: Seq<usize>,
    merged_any: bool,
    res_loop: Seq<char>,
    last_end: int,
    out: Seq<char>,
)
    requires
        valid_tokenization(text, toks),
        dicts_wf(ds),
        steps_ok(text, toks, ds, mm, steps),
        run_steps(text, toks, steps).0 == res_loop,
        run_steps(text, toks, steps).1 == toks.len(),
        run_steps(text, toks, steps).2 == last_end,
        0 <= last_end <= text.len(),
        out == res_loop + text.subrange(last_end, text.len() as int),
        !merged_any ==> res_loop == text.take(last_end),
        !merged_any ==> forall|p: int, k2: int|
            0 <= p < toks.len() && 2 <= k2 <= mm && p + k2 <= toks.len() ==> (
            #[trigger] window_accepted(text, toks, ds, p, k2) ==> spaced_exact_spec(
                ds,
                spaced_norm(text, toks, p, k2),
            )),
        merged_any ==> res_loop.len() < last_end,
        merged_any ==> exists|i2: int, k2: int|
            0 <= i2 && 2 <= k2 <= mm && i2 + k2 <= toks.len() && #[trigger] window_accepted(
                text,
                toks,
                ds,
                i2,
                k2,
            ),
    ensures
        trace_explains(text, toks, ds, mm, steps, out),
        (forall|toks2: Seq<Token>, i2: int, k2: int|
            valid_tokenization(text, toks2) && 2 <= k2 <= mm && 0 <= i2 && i2 + k2 <= toks2.len()
                ==> !#[trigger] window_accepted(text, toks2, ds, i2, k2)) ==> out == text,
        (forall|toks2: Seq<Token>|
            valid_tokenization(text, toks2) ==> exists|i2: int, k2: int|
                0 <= i2 && 2 <= k2 <= mm && i2 + k2 <= toks2.len() && #[trigger] window_accepted(
                    text,
                    toks2,
                    ds,
                    i2,
                    k2,
                ) && !spaced_exact_spec(ds, spaced_norm(text, toks2, i2, k2))) ==> out.len()
            < text.len(),
{
    assert(trace_explains(text, toks, ds, mm, steps, out)) by {
        assert(text.skip(last_end) =~= text.subrange(last_end, text.len() as int));
    }
    if (forall|toks2: Seq<Token>, i2: int, k2: int|
        valid_tokenization(text, toks2) && 2 <= k2 <= mm && 0 <= i2 && i2 + k2 <= toks2.len()
            ==> !#[trigger] window_accepted(text, toks2, ds, i2, k2)) {
        if merged_any {
            let (wi, wk) = choose|i2: int, k2: int|
                0 <= i2 && 2 <= k2 <= mm && i2 + k2 <= toks.len() && #[trigger] window_accepted(
                    text,
                    toks,
                    ds,
                    i2,
                    k2,
                );
            assert(!window_accepted(text, toks, ds, wi, wk));
            assert(false);
        }
        assert(text.take(last_end) + text.subrange(last_end, text.len() as int) =~= text);
    }
    if (forall|toks2: Seq<Token>|
        valid_tokenization(text, toks2) ==> exists|i2: int, k2: int|
            0 <= i2 && 2 <= k2 <= mm && i2 + k2 <= toks2.len() && #[trigger] window_accepted(
                text,
                toks2,
                ds,
                i2,
                k2,
            ) && !spaced_exact_spec(ds, spaced_norm(text, toks2, i2, k2))) {
        if !merged_any {
            let (wi, wk) = choose|i2: int, k2: int|
                0 <= i2 && 2 <= k2 <= mm && i2 + k2 <= toks.len() && #[trigger] window_accepted(
                    text,
                    toks,
                    ds,
                    i2,
                    k2,
                ) && !spaced_exact_spec(ds, spaced_norm(text, toks, i2, k2));
            assert(spaced_exact_spec(ds, spaced_norm(text, toks, wi, wk)));
            assert(false);
        }
    }
}

/// The greedy scan itself: walk the tokens, merging or copying, and
/// return the emitted text up to the last consumed token, the end of
/// that token, and (as ghost data) the step trace taken and whether
/// any step merged.
#[verifier::rlimit(100)]
#[verifier::spinoff_prover]
fn scan_tokens<P: PlausibilitySource>(
    chars: &Vec<char>,
    toks: &Vec<Token>,
    max_merge: usize,
    dicts: &Vec<LanguageDictionary>,
    oracle: &mut P,
) -> (r: (Vec<char>, usize, Ghost<(Seq<usize>, bool)>))
    requires
        spans_wf(chars@, toks@),
        dicts_wf(dicts@),
    ensures
        steps_ok(chars@, toks@, dicts@, max_merge as int, r.2@.0),
        run_steps(chars@, toks@, r.2@.0).0 == r.0@,
        run_steps(chars@, toks@, r.2@.0).1 == toks@.len(),
        run_steps(chars@, toks@, r.2@.0).2 == r.1 as int,
        r.1 <= chars@.len(),
        !r.2@.1 ==> r.0@ == chars@.take(r.1 as int),
        !r.2@.1 ==> forall|p: int, k2: int|
            0 <= p < toks@.len() && 2 <= k2 <= max_merge && p + k2 <= toks@.len() ==> (
            #[trigger] window_accepted(chars@, toks@, dicts@, p, k2) ==> spaced_exact_spec(
                dicts@,
                spaced_norm(chars@, toks@, p, k2),
            )),
        r.2@.1 ==> r.0@.len() < r.1,
        r.2@.1 ==> exists|i2: int, k2: int|
            0 <= i2 && 2 <= k2 <= max_merge && i2 + k2 <= toks@.len() && #[trigger] window_accepted(
                chars@,
                toks@,
                dicts@,
                i2,
                k2,
            ),
{
    let mut result: Vec<char> = Vec::new();
    let mut last_end: usize = 0;
    let mut i: usize = 0;
    let ghost mut merged_any = false;
    let ghost mut steps: Seq<usize> = Seq::empty();
    while i < toks.len()
        invariant
            spans_wf(chars@, toks@),
            dicts_wf(dicts@),
            i <= toks@.len(),
            last_end <= chars@.len(),
            i < toks@.len() ==> last_end <= toks@[i as int].start,
            !merged_any ==> result@ == chars@.take(last_end as int),
            !merged_any ==> forall|p: int, k2: int|
                0 <= p < i && 2 <= k2 <= max_merge && p + k2 <= toks@.len() ==> (
                #[trigger] window_accepted(chars@, toks@, dicts@, p, k2) ==> spaced_exact_spec(
                    dicts@,
                    spaced_norm(chars@, toks@, p, k2),
                )),
            merged_any ==> result@.len() < last_end,
            merged_any ==> exists|i2: int, k2: int|
                0 <= i2 && 2 <= k2 <= max_merge && i2 + k2 <= toks@.len()
                    && #[trigger] window_accepted(chars@, toks@, dicts@, i2, k2),
            steps_ok(chars@, toks@, dicts@, max_merge as int, steps),
            run_steps(chars@, toks@, steps).0 == result@,
            run_steps(chars@, toks@, steps).1 == i as int,
            run_steps(chars@, toks@, steps).2 == last_end as int,
        decreases toks@.len() - i,
    {
        let merged = try_merge_tokens(chars, toks, i, max_merge, dicts, oracle);
        match merged {
            Some((merged_word, merged_count)) => {
                proof {
                    assert(window_accepted(chars@, toks@, dicts@, i as int, merged_count as int));
                    lemma_concat_tokens_len(chars@, toks@, i as int, merged_count as int);
                    merged_any = true;
                }
                let ghost res_before = result@.len() as int;
                let ghost res0 = result@;
                let ghost le0 = last_end as int;
                let token_start = toks[i].start;
                append_range(&mut result, chars, last_end, token_start);
                let ghost res_gap = result@;
                let wchars = chars_of(merged_word.as_str());
                let mut m: usize = 0;
                while m < wchars.len()
                    invariant
                        m <= wchars@.len(),
                        result@ == res_gap + wchars@.take(m as int),
                        result@.len() == res_before + (token_start - last_end) + m,
                        last_end <= token_start,
                        res_gap.len() == res_before + (token_start - last_end),
                    decreases wchars@.len() - m,
                {
                    result.push(wchars[m]);
                    proof {
                        assert(res_gap + wchars@.take(m as int) + seq![wchars@[m as int]]
                            =~= res_gap + wchars@.take(m + 1));
                    }
                    m += 1;
                }
                proof {
                    assert(wchars@.take(wchars@.len() as int) =~= wchars@);
                    assert(merge_permitted(
                        chars@,
                        toks@,
                        dicts@,
                        max_merge as int,
                        i as int,
                        merged_count as int,
                    ));
                    lemma_steps_push_merge(
                        chars@,
                        toks@,
                        dicts@,
                        max_merge as int,
                        steps,
                        merged_count,
                    );
                    assert(res0 + chars@.subrange(le0, token_start as int) + wchars@ =~= result@);
                    steps = steps.push(merged_count);
                }
                last_end = toks[i + merged_count - 1].end;
                i += merged_count;
                proof {
                    if i < toks@.len() {
                        assert(toks@[i - 1].end < toks@[i as int].start);
                    }
                    assert(result@.len() < last_end);
                }
            },
            None => {
                let ghost res0 = result@;
                let ghost le0 = last_end as int;
                let token_start = toks[i].start;
                let token_end = toks[i].end;
                append_range(&mut result, chars, last_end, token_start);
                append_range(&mut result, chars, token_start, token_end);
                proof {
                    if !merged_any {
                        assert(chars@.take(last_end as int) + chars@.subrange(
                            last_end as int,
                            token_start as int,
                        ) + chars@.subrange(token_start as int, token_end as int)
                            =~= chars@.take(token_end as int));
                    }
                    if i + 1 < toks@.len() {
                        assert(toks@[i as int].end < toks@[i + 1].start);
                    }
                    assert(copy_permitted(chars@, toks@, dicts@, max_merge as int, i as int));
                    lemma_steps_push_copy(chars@, toks@, dicts@, max_merge as int, steps);
                    assert(res0 + chars@.subrange(le0, token_start as int) + chars@.subrange(
                        token_start as int,
                        token_end as int,
                    ) =~= res0 + chars@.subrange(le0, token_end as int));
                    steps = steps.push(0usize);
                }
                last_end = token_end;
                i += 1;
            },
        }
    }
    (result, last_end, Ghost((steps, merged_any)))
}

/// Repair a transcript by merging separated word fragments: tokenize
/// once, then scan left to right, merging the longest acceptable
/// window at each position and copying the token verbatim otherwise.
/// Gaps and trailing text are copied unchanged.  The result is
/// explained by a permitted step trace over the tokenization; when no
/// window over the tokenization is acceptable at all, the text comes
/// back unchanged — in particular a second pass over repaired text
/// with nothing left to merge returns it as it is.
pub fn merge_separated_words_dawg_regex<P: PlausibilitySource>(
    text: &str,
    max_merge: usize,
    dicts: &Vec<LanguageDictionary>,
    oracle: &mut P,
) -> (r: String)
    requires
        dicts_wf(dicts@),
    ensures
        (forall|toks2: Seq<Token>, i2: int, k2: int|
            valid_tokenization(text@, toks2) && 2 <= k2 <= max_merge && 0 <= i2 && i2 + k2
                <= toks2.len() ==> !#[trigger] window_accepted(text@, toks2, dicts@, i2, k2))
            ==> r@ == text@,
        (forall|toks2: Seq<Token>|
            valid_tokenization(text@, toks2) ==> exists|i2: int, k2: int|
                0 <= i2 && 2 <= k2 <= max_merge && i2 + k2 <= toks2.len()
                    && #[trigger] window_accepted(text@, toks2, dicts@, i2, k2)
                    && !spaced_exact_spec(dicts@, spaced_norm(text@, toks2, i2, k2))) ==> r@.len()
            < text@.len(),
        exists|toks2: Seq<Token>, steps: Seq<usize>|
            valid_tokenization(text@, toks2) && #[trigger] trace_explains(
                text@,
                toks2,
                dicts@,
                max_merge as int,
                steps,
                r@,
            ),
{
    let chars = chars_of(text);
    let toks = tokenize(&chars);
    proof {
        lemma_valid_spans(chars@, toks@);
    }
    let (mut result, last_end, trace) = scan_tokens(&chars, &toks, max_merge, dicts, oracle);
    let n = chars.len();
    let ghost res_loop = result@;
    append_range(&mut result, &chars, last_end, n);
    proof {
        lemma_pipeline_finish(
            chars@,
            toks@,
            dicts@,
            max_merge as int,
            trace@.0,
            trace@.1,
            res_loop,
            last_end as int,
            result@,
        );
    }
    string_from_chars(&result)
}

} // verus!
