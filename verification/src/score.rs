//! Merge scoring and the merge decision rule.
//!
//! All scores are integers in thousandths of a unit: a plausibility
//! of 347 stands for 0.347.  The embedding oracle that produces the
//! raw evidence is an external collaborator; the driving application
//! hands its cosine similarities and norm ratios in as plain
//! integers, and everything from there on is verified arithmetic.

use vstd::prelude::*;
use vstd::string::StrSliceExecFns;
use crate::text::str_eq;

verus! {

/// The score one template context contributes, from the cosine
/// similarity (thousandths, may be negative) between the test and
/// reference sentence embeddings and the ratio (thousandths) of their
/// norms: the ratio is clamped to [0, 2] and halved, the two are
/// blended 70/30, and the blend is clamped to the unit interval.
pub open spec fn context_score_spec(cos_milli: int, ratio_milli: int) -> int {
    let nr = if ratio_milli < 0 {
        0int
    } else if ratio_milli > 2000 {
        1000int
    } else {
        ratio_milli / 2
    };
    let num = 7 * cos_milli + 3 * nr;
    if num <= 0 {
        0int
    } else if num >= 10000 {
        1000int
    } else {
        num / 10
    }
}

/// The sum of the context scores of a list of evidence pairs.
pub open spec fn sum_context_scores(ev: Seq<(i32, i32)>) -> int
    decreases ev.len(),
{
    if ev.len() == 0 {
        0int
    } else {
        sum_context_scores(ev.drop_last()) + context_score_spec(
            ev.last().0 as int,
            ev.last().1 as int,
        )
    }
}

/// The plausibility of a word given its per-template evidence: the
/// average context score, and 0 when there is no evidence at all (an
/// embedding failure counts the word as maximally implausible).
pub open spec fn plausibility_spec(ev: Seq<(i32, i32)>) -> int {
    if ev.len() == 0 {
        0int
    } else {
        sum_context_scores(ev) / ev.len() as int
    }
}

/// Context scores stay in the unit interval, so their sum is bounded
/// by the count.
proof fn lemma_sum_context_scores_bounds(ev: Seq<(i32, i32)>)
    ensures
        0 <= sum_context_scores(ev) <= 1000 * ev.len(),
    decreases ev.len(),
{
    if ev.len() > 0 {
        lemma_sum_context_scores_bounds(ev.drop_last());
    }
}

/// The score one template context contributes, as an integer in
/// [0, 1000].
pub fn context_score(cos_milli: i32, ratio_milli: i32) -> (r: u32)
    ensures
        r == context_score_spec(cos_milli as int, ratio_milli as int),
        r <= 1000,
{
    let nr: i64 = if ratio_milli < 0 {
        0
    } else if ratio_milli > 2000 {
        1000
    } else {
        (ratio_milli as i64) / 2
    };
    let num: i64 = 7 * (cos_milli as i64) + 3 * nr;
    if num <= 0 {
        0
    } else if num >= 10000 {
        1000
    } else {
        (num / 10) as u32
    }
}

/// The plausibility of a word given its per-template evidence: each
/// pair holds a cosine similarity and a norm ratio in thousandths.
pub fn plausibility_from_evidence(evidence: &Vec<(i32, i32)>) -> (r: u32)
    requires
        evidence@.len() <= 1000000,
    ensures
        r == plausibility_spec(evidence@),
        r <= 1000,
{
    if evidence.len() == 0 {
        return 0;
    }
    let mut sum: u64 = 0;
    let mut i: usize = 0;
    while i < evidence.len()
        invariant
            i <= evidence@.len(),
            evidence@.len() <= 1000000,
            sum == sum_context_scores(evidence@.take(i as int)),
            sum <= 1000 * i,
        decreases evidence@.len() - i,
    {
        let (c, n) = evidence[i];
        let s = context_score(c, n);
        proof {
            let t = evidence@.take(i + 1);
            assert(t.drop_last() =~= evidence@.take(i as int));
            assert(t.last() == evidence@[i as int]);
        }
        sum = sum + s as u64;
        i += 1;
    }
    proof {
        assert(evidence@.take(i as int) =~= evidence@);
        lemma_sum_context_scores_bounds(evidence@);
        assert((sum as int) / (evidence@.len() as int) <= 1000) by (nonlinear_arith)
            requires
                sum as int <= 1000 * evidence@.len(),
                evidence@.len() > 0,
        ;
    }
    (sum / (evidence.len() as u64)) as u32
}

/// The reference word substituted into each template: a common,
/// unquestionably real word.
pub open spec fn reference_word() -> Seq<char> {
    "bonjour"@
}

/// The number of template contexts a word is tested in.
pub open spec fn template_count() -> int {
    4
}

/// The text before the substituted word in template `k`.
pub open spec fn template_pre(k: int) -> Seq<char> {
    if k == 0 {
        "On utilise souvent le mot "@
    } else if k == 1 {
        "Le "@
    } else if k == 2 {
        "J'aime beaucoup ce "@
    } else {
        "Il parle de "@
    }
}

/// The text after the substituted word in template `k`.
pub open spec fn template_post(k: int) -> Seq<char> {
    if k == 0 {
        "."@
    } else if k == 1 {
        " est un terme courant en français."@
    } else if k == 2 {
        "."@
    } else {
        " avec enthousiasme."@
    }
}

/// The sentences a word's plausibility is judged on: for each
/// template, the word substituted in, paired with the reference word
/// substituted into the same template.
pub fn context_sentences(word: &str) -> (r: Vec<(String, String)>)
    ensures
        r@.len() == template_count(),
        forall|k: int|
            0 <= k < r@.len() ==> (#[trigger] r@[k]).0@ == template_pre(k) + word@ + template_post(
                k,
            ) && r@[k].1@ == template_pre(k) + reference_word() + template_post(k),
{
    let mut r: Vec<(String, String)> = Vec::new();
    let pres: [&str; 4] = [
        "On utilise souvent le mot ",
        "Le ",
        "J'aime beaucoup ce ",
        "Il parle de ",
    ];
    let posts: [&str; 4] = [".", " est un terme courant en français.", ".", " avec enthousiasme."];
    let mut k: usize = 0;
    while k < 4
        invariant
            k <= 4,
            r@.len() == k,
            pres@[0]@ == template_pre(0) && pres@[1]@ == template_pre(1) && pres@[2]@
                == template_pre(2) && pres@[3]@ == template_pre(3),
            posts@[0]@ == template_post(0) && posts@[1]@ == template_post(1) && posts@[2]@
                == template_post(2) && posts@[3]@ == template_post(3),
            forall|m: int|
                0 <= m < k ==> (#[trigger] r@[m]).0@ == template_pre(m) + word@ + template_post(m)
                    && r@[m].1@ == template_pre(m) + reference_word() + template_post(m),
        decreases 4 - k,
    {
        let mut test = String::from_str(pres[k]);
        test.append(word);
        test.append(posts[k]);
        let mut refr = String::from_str(pres[k]);
        refr.append("bonjour");
        refr.append(posts[k]);
        proof {
            assert("bonjour"@ == reference_word());
        }
        r.push((test, refr));
        k += 1;
    }
    r
}

/// The merge-score threshold of the general regime, by window size.
pub open spec fn threshold_spec(merge_len: int) -> int {
    if merge_len == 2 {
        700int
    } else if merge_len == 3 {
        750int
    } else {
        800int
    }
}

/// The merge score of a candidate of `len` characters built from
/// `merge_len` tokens, given its plausibility: 0 outside length
/// [3, 20]; otherwise a base that grows with the window size, a small
/// penalty for short words, and a lightly weighted plausibility term,
/// clamped to the unit interval.
pub open spec fn merge_score_spec(len: int, merge_len: int, plaus: int) -> int {
    if len < 3 || len > 20 {
        0int
    } else {
        let base = if merge_len == 2 {
            500int
        } else if merge_len == 3 {
            550int
        } else {
            600int
        };
        let penalty = if len < 5 {
            50int
        } else {
            0int
        };
        let total = base - penalty + plaus / 10;
        if total < 0 {
            0int
        } else if total > 1000 {
            1000int
        } else {
            total
        }
    }
}

/// Compute the merge score of the normalized candidate `word`.
pub fn compute_merge_score(word: &str, merge_len: usize, plausibility: u32) -> (r: u32)
    requires
        plausibility <= 1000,
    ensures
        r == merge_score_spec(word@.len() as int, merge_len as int, plausibility as int),
        r <= 1000,
{
    let len = word.unicode_len();
    if len < 3 || len > 20 {
        return 0;
    }
    let base: u32 = if merge_len == 2 {
        500
    } else if merge_len == 3 {
        550
    } else {
        600
    };
    let penalty: u32 = if len < 5 {
        50
    } else {
        0
    };
    let total: u32 = base - penalty + plausibility / 10;
    if total > 1000 {
        1000
    } else {
        total
    }
}

/// The short-pair regime: exactly two tokens forming a word of fewer
/// than ten characters.
pub open spec fn short_pair_regime(merge_len: int, len: int) -> bool {
    merge_len == 2 && len < 10
}

/// Decide whether to merge an in-dictionary candidate.
///
/// Short pairs consult the plausibility directly: when the spaced
/// form is itself a dictionary entry and the merged word looks
/// implausible (below 0.1), the spaced reading wins; otherwise the
/// pair merges.  Every other window merges exactly when the spaced
/// form is not a dictionary entry, or the merge score reaches the
/// window-size threshold.  In particular a candidate whose spaced
/// form is not in any dictionary always merges.
pub fn handle_merge_decision(
    candidate: &str,
    candidate_lower: &str,
    spaced_in_dawg: bool,
    merge_len: usize,
    merge_score: u32,
    plausibility: u32,
) -> (r: Option<(String, usize)>)
    ensures
        short_pair_regime(merge_len as int, candidate_lower@.len() as int) ==> (r is Some <==> !(
        spaced_in_dawg && plausibility < 100)),
        !short_pair_regime(merge_len as int, candidate_lower@.len() as int) ==> (r is Some <==> (
        !spaced_in_dawg || merge_score >= threshold_spec(merge_len as int))),
        r matches Some(p) ==> p.0@ == candidate@ && p.1 == merge_len,
        !spaced_in_dawg ==> r is Some,
{
    let short_common_word = merge_len == 2 && candidate_lower.unicode_len() < 10;
    if short_common_word {
        if spaced_in_dawg && plausibility < 100 {
            None
        } else {
            Some((candidate.to_owned(), merge_len))
        }
    } else {
        let threshold: u32 = if merge_len == 2 {
            700
        } else if merge_len == 3 {
            750
        } else {
            800
        };
        if !spaced_in_dawg || merge_score >= threshold {
            Some((candidate.to_owned(), merge_len))
        } else {
            None
        }
    }
}

/// A source of plausibility estimates for candidate words, in
/// thousandths.  The engine treats the estimate as opaque: any value
/// may come back, and values above 1000 are clamped.  An
/// implementation typically embeds the word in the template sentences
/// and combines the evidence with `plausibility_from_evidence`; a
/// fixed table serves tests and degraded operation.
pub trait PlausibilitySource {
    /// Estimate how word-like `word` is.
    fn plausibility(&mut self, word: &str) -> u32;
}

/// A plausibility source backed by a fixed table: words not listed
/// score 0, the embedding-failure fallback.
pub struct FixedPlausibility {
    /// Each word with its score in thousandths.
    pub entries: Vec<(String, u32)>,
}

impl PlausibilitySource for FixedPlausibility {
    fn plausibility(&mut self, word: &str) -> u32 {
        let mut k: usize = 0;
        while k < self.entries.len()
            decreases self.entries@.len() - k,
        {
            if str_eq(self.entries[k].0.as_str(), word) {
                return self.entries[k].1;
            }
            k += 1;
        }
        0
    }
}

} // verus!
