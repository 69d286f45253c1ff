//! Tokenization of cleaned text.
//!
//! A token is a maximal run of letters that may contain single
//! embedded apostrophes joining two letter runs ("aujourd'hui" is one
//! token).  Digits, punctuation and whitespace never belong to a
//! token; they appear in the gaps.  Tokens carry their half-open
//! character span into the source text, in document order.

use vstd::prelude::*;
use crate::text::letter_char;

verus! {

/// A token's half-open character span `[start, end)` in the source.
#[derive(Clone, Copy, PartialEq, Eq, Structural, Debug)]
pub struct Token {
    pub start: usize,
    pub end: usize,
}

/// An apostrophe as it may appear inside a word: the ASCII apostrophe
/// or the right single quotation mark.
pub open spec fn apost_char(c: char) -> bool {
    c == '\'' || c == '\u{2019}'
}

/// The shape of a single token's text: non-empty, letters first and
/// last, only letters and apostrophes inside, and no two adjacent
/// apostrophes.
pub open spec fn token_shape(s: Seq<char>) -> bool {
    &&& s.len() > 0
    &&& letter_char(s[0])
    &&& letter_char(s[s.len() - 1])
    &&& forall|i: int| 0 <= i < s.len() ==> letter_char(#[trigger] s[i]) || apost_char(s[i])
    &&& forall|i: int|
        0 <= i && i + 1 < s.len() ==> !(apost_char(#[trigger] s[i]) && apost_char(s[i + 1]))
}

/// A token cannot be extended by one more character on either side.
pub open spec fn token_maximal(text: Seq<char>, t: Token) -> bool {
    &&& t.start > 0 ==> !letter_char(text[t.start - 1]) && !(apost_char(text[t.start - 1])
        && t.start > 1 && letter_char(text[t.start - 2]))
    &&& t.end < text.len() ==> !letter_char(text[t.end as int]) && !(apost_char(
        text[t.end as int],
    ) && t.end + 1 < text.len() && letter_char(text[t.end + 1]))
}

/// Position `i` lies inside one of the tokens.
pub open spec fn in_some_token(toks: Seq<Token>, i: int) -> bool {
    exists|k: int| 0 <= k < toks.len() && (#[trigger] toks[k]).start <= i < toks[k].end
}

/// The tokens scanned so far, with the scan at position `bound`:
/// spans are ordered, in bounds and before the scan position, each
/// token has the token shape and is maximal, and every letter before
/// the scan position lies inside a token.
pub open spec fn tokens_upto(text: Seq<char>, toks: Seq<Token>, bound: int) -> bool {
    &&& forall|k: int| 0 <= k < toks.len() ==> (#[trigger] toks[k]).start < toks[k].end <= bound
    &&& forall|k: int| 0 <= k && k + 1 < toks.len() ==> (#[trigger] toks[k]).end < toks[k + 1].start
    &&& forall|k: int|
        0 <= k < toks.len() ==> token_shape(
            text.subrange((#[trigger] toks[k]).start as int, toks[k].end as int),
        )
    &&& forall|k: int| 0 <= k < toks.len() ==> token_maximal(text, #[trigger] toks[k])
    &&& forall|i: int| 0 <= i < bound && letter_char(#[trigger] text[i]) ==> in_some_token(toks, i)
}

/// The token list is exactly the tokenization of `text`.
pub open spec fn valid_tokenization(text: Seq<char>, toks: Seq<Token>) -> bool {
    tokens_upto(text, toks, text.len() as int)
}

/// Just the span structure of a token list: spans are non-empty, in
/// bounds, and strictly ordered with non-empty gaps.
pub open spec fn spans_wf(text: Seq<char>, toks: Seq<Token>) -> bool {
    &&& forall|k: int| 0 <= k < toks.len() ==> (#[trigger] toks[k]).start < toks[k].end <= text.len()
    &&& forall|k: int| 0 <= k && k + 1 < toks.len() ==> (#[trigger] toks[k]).end < toks[k + 1].start
}

/// A valid tokenization in particular has well-formed spans.
pub proof fn lemma_valid_spans(text: Seq<char>, toks: Seq<Token>)
    requires
        valid_tokenization(text, toks),
    ensures
        spans_wf(text, toks),
{
}

/// Appending a freshly scanned token keeps the scan facts, moving the
/// bound from the token's start to its end.
proof fn lemma_tokens_push(text: Seq<char>, toks: Seq<Token>, t: Token)
    requires
        tokens_upto(text, toks, t.start as int),
        t.start < t.end <= text.len(),
        token_shape(text.subrange(t.start as int, t.end as int)),
        token_maximal(text, t),
    ensures
        tokens_upto(text, toks.push(t), t.end as int),
{
    let toks2 = toks.push(t);
    assert(toks2[toks.len() as int] == t);
    assert forall|k: int| 0 <= k < toks2.len() implies (#[trigger] toks2[k]).start < toks2[k].end
        <= t.end by {
        if k < toks.len() {
            assert(toks2[k] == toks[k]);
        }
    }
    assert forall|k: int| 0 <= k && k + 1 < toks2.len() implies (#[trigger] toks2[k]).end
        < toks2[k + 1].start by {
        if k + 1 < toks.len() {
            assert(toks2[k] == toks[k]);
            assert(toks2[k + 1] == toks[k + 1]);
        } else {
            assert(toks2[k] == toks[k]);
            assert(toks2[k + 1] == t);
            // the previous token ends at or before the start of the
            // fresh one, and the fresh one begins with a letter while
            // the character at the previous end is not a letter
            assert(toks[k].end <= t.start);
            if toks[k].end == t.start {
                let sub = text.subrange(t.start as int, t.end as int);
                assert(sub[0] == text[t.start as int]);
                assert(letter_char(text[t.start as int]));
                assert(!letter_char(text[toks[k].end as int]));
            }
        }
    }
    assert forall|k: int| 0 <= k < toks2.len() implies token_shape(
        text.subrange((#[trigger] toks2[k]).start as int, toks2[k].end as int),
    ) by {
        if k < toks.len() {
            assert(toks2[k] == toks[k]);
        }
    }
    assert forall|k: int| 0 <= k < toks2.len() implies token_maximal(text, #[trigger] toks2[k]) by {
        if k < toks.len() {
            assert(toks2[k] == toks[k]);
        }
    }
    assert forall|i: int| 0 <= i < t.end && letter_char(#[trigger] text[i]) implies in_some_token(
        toks2,
        i,
    ) by {
        if i < t.start {
            let k = choose|k: int|
                0 <= k < toks.len() && (#[trigger] toks[k]).start <= i < toks[k].end;
            assert(toks2[k] == toks[k]);
        } else {
            assert(toks2[toks.len() as int] == t);
        }
    }
}

/// Split `text` into its tokens, scanning once from left to right.
pub fn tokenize(text: &Vec<char>) -> (r: Vec<Token>)
    ensures
        valid_tokenization(text@, r@),
{
    let n: usize = text.len();
    let mut toks: Vec<Token> = Vec::new();
    let mut i: usize = 0;
    while i < n
        invariant
            i <= n,
            n == text@.len(),
            tokens_upto(text@, toks@, i as int),
            // the character before the cursor cannot start or continue a token run
            i > 0 && i < n && letter_char(text@[i - 1]) ==> !letter_char(text@[i as int]) && !(
            apost_char(text@[i as int]) && i + 1 < n && letter_char(text@[i + 1])),
            i >= 2 && i < n && letter_char(text@[i - 2]) && apost_char(text@[i - 1])
                ==> !letter_char(text@[i as int]),
        decreases n - i,
    {
        let c = text[i];
        if c.is_alphabetic() {
            let ghost toks_old = toks@;
            let start: usize = i;
            i += 1;
            while i < n && (text[i].is_alphabetic() || ((text[i] == '\'' || text[i]
                == '\u{2019}') && i + 1 < n && text[i + 1].is_alphabetic()))
                invariant
                    start < i <= n,
                    n == text@.len(),
                    letter_char(text@[start as int]),
                    forall|m: int|
                        start <= m < i ==> letter_char(#[trigger] text@[m]) || apost_char(
                            text@[m],
                        ),
                    forall|m: int|
                        start <= m < i ==> (letter_char(#[trigger] text@[m]) ==> !apost_char(
                            text@[m],
                        )),
                    forall|m: int|
                        start <= m && m + 1 < i ==> !(apost_char(#[trigger] text@[m])
                            && apost_char(text@[m + 1])),
                    letter_char(text@[i - 1]) || (apost_char(text@[i - 1]) && i < n
                        && letter_char(text@[i as int])),
                decreases n - i,
            {
                i += 1;
            }
            let t = Token { start, end: i };
            proof {
                // the run cannot end on an apostrophe: the loop would
                // have continued
                assert(letter_char(text@[i - 1]));
                let sub = text@.subrange(start as int, i as int);
                assert forall|j: int| 0 <= j < sub.len() implies letter_char(#[trigger] sub[j])
                    || apost_char(sub[j]) by {
                    assert(sub[j] == text@[start + j]);
                }
                assert forall|j: int| 0 <= j && j + 1 < sub.len() implies !(apost_char(
                    #[trigger] sub[j],
                ) && apost_char(sub[j + 1])) by {
                    assert(sub[j] == text@[start + j]);
                    assert(sub[j + 1] == text@[start + j + 1]);
                }
                assert(sub[0] == text@[start as int]);
                assert(sub[sub.len() - 1] == text@[i - 1]);
                assert(token_shape(sub));
                // left-maximality comes from the outer-loop boundary
                // invariants; right-maximality from the inner loop's
                // exit condition
                assert(token_maximal(text@, t));
                lemma_tokens_push(text@, toks_old, t);
            }
            toks.push(t);
        } else {
            i += 1;
        }
    }
    toks
}

} // verus!
