//! Phrase matching over similarity scores.
//!
//! Trigger phrases (commands, wake-word variants) are matched against
//! an utterance by embedding similarity.  The embedding oracle is an
//! external collaborator; the driving application computes one
//! similarity score per candidate phrase, in thousandths, and this
//! module picks the winner: the highest score strictly above the
//! threshold, the first of them on a tie.  A score exactly at the
//! threshold never wins.

use vstd::prelude::*;

verus! {

/// Find the best-matching candidate given per-candidate similarity
/// scores in thousandths: the index and score of the first candidate
/// achieving the maximum score, provided that score is strictly above
/// `threshold`; `None` when no score clears it.
pub fn find_best_match(scores: &Vec<i64>, threshold: i64) -> (r: Option<(usize, i64)>)
    ensures
        r is Some <==> exists|k: int| 0 <= k < scores@.len() && scores@[k] > threshold,
        r matches Some(p) ==> {
            &&& 0 <= p.0 < scores@.len()
            &&& p.1 == scores@[p.0 as int]
            &&& p.1 > threshold
            &&& forall|k: int| 0 <= k < scores@.len() ==> #[trigger] scores@[k] <= p.1
            &&& forall|k: int| 0 <= k < p.0 ==> #[trigger] scores@[k] < p.1
        },
{
    let mut best: Option<(usize, i64)> = None;
    let mut k: usize = 0;
    while k < scores.len()
        invariant
            k <= scores@.len(),
            best is Some <==> exists|m: int| 0 <= m < k && scores@[m] > threshold,
            best matches Some(p) ==> {
                &&& 0 <= p.0 < k
                &&& p.1 == scores@[p.0 as int]
                &&& p.1 > threshold
                &&& forall|m: int| 0 <= m < k ==> #[trigger] scores@[m] <= p.1
                &&& forall|m: int| 0 <= m < p.0 ==> #[trigger] scores@[m] < p.1
            },
        decreases scores@.len() - k,
    {
        let s = scores[k];
        let take = match best {
            None => s > threshold,
            Some((_, bs)) => s > threshold && s > bs,
        };
        if take {
            best = Some((k, s));
        }
        k += 1;
    }
    best
}

} // verus!
