//! Transcript normalization.
//!
//! The speech model decorates its raw transcript with bracketed
//! sentinel tags: a begin-of-stream marker `[_BEG_]` and numbered
//! timing markers `[_TT_<digits>]`.  Before any dictionary or
//! embedding processing the transcript is cleaned: both kinds of tag
//! are removed, every whitespace run is collapsed to a single space,
//! and the result is trimmed.

use vstd::prelude::*;
use crate::text::{chars_of, string_from_chars, white_char};

verus! {

/// An ASCII decimal digit.
pub open spec fn is_digit_char(c: char) -> bool {
    '0' <= c && c <= '9'
}

/// The begin-of-stream marker `[_BEG_]` occurs at position `i` of `s`.
pub open spec fn beg_at(s: Seq<char>, i: int) -> bool {
    &&& 0 <= i
    &&& i + 7 <= s.len()
    &&& s[i] == '['
    &&& s[i + 1] == '_'
    &&& s[i + 2] == 'B'
    &&& s[i + 3] == 'E'
    &&& s[i + 4] == 'G'
    &&& s[i + 5] == '_'
    &&& s[i + 6] == ']'
}

/// The length of the run of ASCII digits of `s` starting at `i`.
pub open spec fn digit_run(s: Seq<char>, i: int) -> int
    decreases s.len() - i,
{
    if i < 0 || i >= s.len() || !is_digit_char(s[i]) {
        0
    } else {
        1 + digit_run(s, i + 1)
    }
}

/// The length of the numbered timing marker `[_TT_<digits>]` at the
/// front of `s`, or 0 when no such marker starts there.
pub open spec fn tt_len(s: Seq<char>) -> int {
    if s.len() >= 7 && s[0] == '[' && s[1] == '_' && s[2] == 'T' && s[3] == 'T' && s[4] == '_' {
        let d = digit_run(s, 5);
        if d >= 1 && 5 + d < s.len() && s[5 + d] == ']' {
            5 + d + 1
        } else {
            0
        }
    } else {
        0
    }
}

/// `s` with every begin-of-stream marker removed, scanning left to
/// right over non-overlapping occurrences.
pub open spec fn strip_beg_spec(s: Seq<char>) -> Seq<char>
    decreases s.len(),
{
    if s.len() == 0 {
        Seq::empty()
    } else if beg_at(s, 0) {
        strip_beg_spec(s.skip(7))
    } else {
        seq![s[0]] + strip_beg_spec(s.skip(1))
    }
}

/// `s` with every numbered timing marker removed, scanning left to
/// right over non-overlapping occurrences.
pub open spec fn strip_tt_spec(s: Seq<char>) -> Seq<char>
    decreases s.len(),
{
    if s.len() == 0 {
        Seq::empty()
    } else if tt_len(s) > 0 {
        strip_tt_spec(s.skip(tt_len(s)))
    } else {
        seq![s[0]] + strip_tt_spec(s.skip(1))
    }
}

/// `s` with every maximal whitespace run replaced by a single space.
pub open spec fn collapse_spec(s: Seq<char>) -> Seq<char>
    decreases s.len(),
{
    if s.len() == 0 {
        Seq::empty()
    } else if white_char(s[0]) {
        if s.len() >= 2 && white_char(s[1]) {
            collapse_spec(s.skip(1))
        } else {
            seq![' '] + collapse_spec(s.skip(1))
        }
    } else {
        seq![s[0]] + collapse_spec(s.skip(1))
    }
}

/// `s` without its leading whitespace.
pub open spec fn trim_front_spec(s: Seq<char>) -> Seq<char>
    decreases s.len(),
{
    if s.len() > 0 && white_char(s[0]) {
        trim_front_spec(s.skip(1))
    } else {
        s
    }
}

/// `s` without its trailing whitespace.
pub open spec fn trim_back_spec(s: Seq<char>) -> Seq<char>
    decreases s.len(),
{
    if s.len() > 0 && white_char(s[s.len() - 1]) {
        trim_back_spec(s.take(s.len() - 1))
    } else {
        s
    }
}

/// The cleaned form of a raw transcript: both tag kinds removed,
/// whitespace runs collapsed to single spaces, ends trimmed.
pub open spec fn clean_spec(s: Seq<char>) -> Seq<char> {
    trim_back_spec(trim_front_spec(collapse_spec(strip_tt_spec(strip_beg_spec(s)))))
}

/// Remove every begin-of-stream marker.
fn strip_beg(v: &Vec<char>) -> (r: Vec<char>)
    ensures
        r@ == strip_beg_spec(v@),
{
    let mut r: Vec<char> = Vec::new();
    let mut i: usize = 0;
    proof {
        assert(v@.skip(0) =~= v@);
        assert(r@ + strip_beg_spec(v@) =~= strip_beg_spec(v@));
    }
    while i < v.len()
        invariant
            i <= v@.len(),
            strip_beg_spec(v@) == r@ + strip_beg_spec(v@.skip(i as int)),
        decreases v@.len() - i,
    {
        let ghost rest = v@.skip(i as int);
        if v.len() - i >= 7 && v[i] == '[' && v[i + 1] == '_' && v[i + 2] == 'B' && v[i + 3] == 'E'
            && v[i + 4] == 'G' && v[i + 5] == '_' && v[i + 6] == ']' {
            proof {
                assert(beg_at(rest, 0));
                assert(rest.skip(7) =~= v@.skip(i + 7));
            }
            i += 7;
        } else {
            proof {
                assert(!beg_at(rest, 0));
                assert(rest.skip(1) =~= v@.skip(i + 1));
                assert(strip_beg_spec(rest) == seq![rest[0]] + strip_beg_spec(rest.skip(1)));
                assert(r@ + strip_beg_spec(rest) =~= r@.push(rest[0]) + strip_beg_spec(
                    rest.skip(1),
                ));
            }
            r.push(v[i]);
            i += 1;
        }
    }
    proof {
        assert(v@.skip(i as int) =~= Seq::<char>::empty());
        assert(strip_beg_spec(v@) =~= r@);
    }
    r
}

/// The length of the digit run of `v` starting at `i`.
fn digit_run_len(v: &Vec<char>, i: usize) -> (r: usize)
    requires
        i <= v@.len(),
    ensures
        r == digit_run(v@, i as int),
        i + r <= v@.len(),
    decreases v@.len() - i,
{
    if i < v.len() && '0' <= v[i] && v[i] <= '9' {
        let rest: usize = digit_run_len(v, i + 1);
        rest + 1
    } else {
        0
    }
}

/// Remove every numbered timing marker.
fn strip_tt(v: &Vec<char>) -> (r: Vec<char>)
    ensures
        r@ == strip_tt_spec(v@),
{
    let mut r: Vec<char> = Vec::new();
    let mut i: usize = 0;
    proof {
        assert(v@.skip(0) =~= v@);
        assert(r@ + strip_tt_spec(v@) =~= strip_tt_spec(v@));
    }
    while i < v.len()
        invariant
            i <= v@.len(),
            strip_tt_spec(v@) == r@ + strip_tt_spec(v@.skip(i as int)),
        decreases v@.len() - i,
    {
        let ghost rest = v@.skip(i as int);
        let mut taglen: usize = 0;
        if v.len() - i >= 7 && v[i] == '[' && v[i + 1] == '_' && v[i + 2] == 'T' && v[i + 3] == 'T'
            && v[i + 4] == '_' {
            let d: usize = digit_run_len(v, i + 5);
            proof {
                assert(digit_run(rest, 5) == digit_run(v@, i + 5)) by {
                    lemma_digit_run_shift(v@, i as int, 5);
                }
            }
            if d >= 1 && i + 5 + d < v.len() && v[i + 5 + d] == ']' {
                taglen = 5 + d + 1;
                proof {
                    assert(rest[5 + d as int] == v@[i + 5 + d]);
                    assert(tt_len(rest) == 5 + d + 1);
                }
            } else {
                proof {
                    assert(tt_len(rest) == 0);
                }
            }
        } else {
            proof {
                assert(tt_len(rest) == 0);
            }
        }
        if taglen > 0 {
            proof {
                assert(rest.skip(taglen as int) =~= v@.skip(i + taglen));
            }
            i += taglen;
        } else {
            proof {
                assert(rest.skip(1) =~= v@.skip(i + 1));
                assert(strip_tt_spec(rest) == seq![rest[0]] + strip_tt_spec(rest.skip(1)));
                assert(r@ + strip_tt_spec(rest) =~= r@.push(rest[0]) + strip_tt_spec(
                    rest.skip(1),
                ));
            }
            r.push(v[i]);
            i += 1;
        }
    }
    proof {
        assert(v@.skip(i as int) =~= Seq::<char>::empty());
        assert(strip_tt_spec(v@) =~= r@);
    }
    r
}

/// `digit_run` looks only at the characters from its start position,
/// so it is unchanged by dropping a prefix.
proof fn lemma_digit_run_shift(s: Seq<char>, i: int, j: int)
    requires
        0 <= i,
        0 <= j,
        i + j <= s.len(),
    ensures
        digit_run(s.skip(i), j) == digit_run(s, i + j),
    decreases s.len() - i - j,
{
    if i + j < s.len() && is_digit_char(s[i + j]) {
        lemma_digit_run_shift(s, i, j + 1);
    }
}

/// Collapse every whitespace run to a single space.
fn collapse(v: &Vec<char>) -> (r: Vec<char>)
    ensures
        r@ == collapse_spec(v@),
        forall|k: int| 0 <= k < r@.len() ==> (white_char(r@[k]) ==> r@[k] == ' '),
        forall|k: int| 0 <= k && k + 1 < r@.len() ==> !(#[trigger] r@[k] == ' ' && r@[k + 1] == ' '),
{
    let mut r: Vec<char> = Vec::new();
    let mut i: usize = 0;
    proof {
        assert(v@.skip(0) =~= v@);
        assert(r@ + collapse_spec(v@) =~= collapse_spec(v@));
    }
    while i < v.len()
        invariant
            i <= v@.len(),
            collapse_spec(v@) == r@ + collapse_spec(v@.skip(i as int)),
            forall|k: int| 0 <= k < r@.len() ==> (white_char(r@[k]) ==> r@[k] == ' '),
            forall|k: int| 0 <= k && k + 1 < r@.len() ==> !(#[trigger] r@[k] == ' ' && r@[k + 1] == ' '),
            r@.len() > 0 && r@[r@.len() - 1] == ' ' ==> (i >= v@.len() || !white_char(v@[i as int])),
        decreases v@.len() - i,
    {
        let ghost rest = v@.skip(i as int);
        proof {
            assert(rest[0] == v@[i as int]);
            assert(rest.skip(1) =~= v@.skip(i + 1));
        }
        let c = v[i];
        if c.is_whitespace() {
            if i + 1 < v.len() && v[i + 1].is_whitespace() {
                proof {
                    assert(rest.len() >= 2 && rest[1] == v@[i + 1]);
                }
                i += 1;
            } else {
                proof {
                    assert(!(rest.len() >= 2 && white_char(rest[1])));
                    assert(collapse_spec(rest) == seq![' '] + collapse_spec(rest.skip(1)));
                    assert(r@ + collapse_spec(rest) =~= r@.push(' ') + collapse_spec(
                        rest.skip(1),
                    ));
                    if r@.len() > 0 {
                        assert(r@[r@.len() - 1] != ' ');
                    }
                    lemma_push_keeps_pairs(r@, ' ');
                }
                r.push(' ');
                i += 1;
            }
        } else {
            proof {
                assert(!white_char(c));
                assert(collapse_spec(rest) == seq![rest[0]] + collapse_spec(rest.skip(1)));
                assert(r@ + collapse_spec(rest) =~= r@.push(c) + collapse_spec(rest.skip(1)));
                assert(c != ' ');
                lemma_push_keeps_pairs(r@, c);
            }
            r.push(c);
            i += 1;
        }
    }
    proof {
        assert(v@.skip(i as int) =~= Seq::<char>::empty());
        assert(collapse_spec(v@) =~= r@);
    }
    r
}

/// Pushing a character preserves "no two adjacent spaces" when it
/// cannot extend a final space.
proof fn lemma_push_keeps_pairs(s: Seq<char>, c: char)
    requires
        forall|k: int| 0 <= k && k + 1 < s.len() ==> !(#[trigger] s[k] == ' ' && s[k + 1] == ' '),
        s.len() > 0 && s[s.len() - 1] == ' ' ==> c != ' ',
    ensures
        forall|k: int|
            0 <= k && k + 1 < s.push(c).len() ==> !(#[trigger] s.push(c)[k] == ' ' && s.push(c)[k
                + 1] == ' '),
{
    let t = s.push(c);
    assert forall|k: int| 0 <= k && k + 1 < t.len() implies !(#[trigger] t[k] == ' ' && t[k + 1]
        == ' ') by {
        if k + 1 < s.len() {
            assert(t[k] == s[k] && t[k + 1] == s[k + 1]);
        } else {
            assert(k + 1 == s.len());
            assert(t[k] == s[k]);
            assert(t[k + 1] == c);
        }
    }
}

/// `trim_front_spec` drops exactly the leading whitespace run.
proof fn lemma_trim_front_skip(s: Seq<char>, k: int)
    requires
        0 <= k <= s.len(),
        forall|m: int| 0 <= m < k ==> white_char(s[m]),
        k < s.len() ==> !white_char(s[k]),
    ensures
        trim_front_spec(s) == s.skip(k),
    decreases k,
{
    if k == 0 {
        assert(s.skip(0) =~= s);
    } else {
        assert(white_char(s[0]));
        let t = s.skip(1);
        assert forall|m: int| 0 <= m < k - 1 implies white_char(t[m]) by {
            assert(t[m] == s[m + 1]);
        }
        assert(k - 1 < t.len() ==> t[k - 1] == s[k]);
        lemma_trim_front_skip(t, k - 1);
        assert(t.skip(k - 1) =~= s.skip(k));
    }
}

/// `trim_back_spec` drops exactly the trailing whitespace run.
proof fn lemma_trim_back_take(s: Seq<char>, k: int)
    requires
        0 <= k <= s.len(),
        forall|m: int| k <= m < s.len() ==> white_char(s[m]),
        k > 0 ==> !white_char(s[k - 1]),
    ensures
        trim_back_spec(s) == s.take(k),
    decreases s.len() - k,
{
    if k == s.len() {
        if s.len() > 0 {
            assert(!white_char(s[s.len() - 1]));
        }
        assert(s.take(k) =~= s);
    } else {
        assert(white_char(s[s.len() - 1]));
        let t = s.take(s.len() - 1);
        assert forall|m: int| k <= m < t.len() implies white_char(t[m]) by {
            assert(t[m] == s[m]);
        }
        assert(k > 0 ==> t[k - 1] == s[k - 1]);
        lemma_trim_back_take(t, k);
        assert(t.take(k) =~= s.take(k));
    }
}

/// Trim leading and trailing whitespace.
pub(crate) fn trim_chars(v: &Vec<char>) -> (r: Vec<char>)
    ensures
        r@ == trim_back_spec(trim_front_spec(v@)),
{
    let n: usize = v.len();
    let mut start: usize = 0;
    while start < n && v[start].is_whitespace()
        invariant
            start <= n,
            n == v@.len(),
            forall|m: int| 0 <= m < start ==> white_char(v@[m]),
        decreases n - start,
    {
        start += 1;
    }
    let mut end: usize = n;
    while end > start && v[end - 1].is_whitespace()
        invariant
            start <= end <= n,
            n == v@.len(),
            forall|m: int| end <= m < n ==> white_char(v@[m]),
        decreases end,
    {
        end -= 1;
    }
    proof {
        lemma_trim_front_skip(v@, start as int);
        let t = v@.skip(start as int);
        assert forall|m: int| end - start <= m < t.len() implies white_char(t[m]) by {
            assert(t[m] == v@[m + start]);
        }
        if end > start {
            assert(t[end - start - 1] == v@[end - 1]);
        }
        lemma_trim_back_take(t, end - start);
    }
    let mut r: Vec<char> = Vec::new();
    let mut i: usize = start;
    while i < end
        invariant
            start <= i <= end <= n,
            n == v@.len(),
            r@ == v@.subrange(start as int, i as int),
        decreases end - i,
    {
        r.push(v[i]);
        assert(r@ =~= v@.subrange(start as int, i + 1 as int));
        i += 1;
    }
    proof {
        assert(v@.skip(start as int).take(end - start as int) =~= v@.subrange(
            start as int,
            end as int,
        ));
    }
    r
}

/// Clean a raw transcript: remove the begin-of-stream marker and
/// every numbered timing marker, collapse whitespace runs to single
/// spaces, and trim the ends.  Whitespace in the result is normalized:
/// every whitespace character is a plain space, and no two spaces are
/// adjacent.
pub fn clean_whisper_text(original: &str) -> (r: String)
    ensures
        r@ == clean_spec(original@),
        forall|k: int| 0 <= k < r@.len() ==> (white_char(r@[k]) ==> r@[k] == ' '),
        forall|k: int| 0 <= k && k + 1 < r@.len() ==> !(#[trigger] r@[k] == ' ' && r@[k + 1] == ' '),
{
    let v = chars_of(original);
    let v1 = strip_beg(&v);
    let v2 = strip_tt(&v1);
    let v3 = collapse(&v2);
    let v4 = trim_chars(&v3);
    proof {
        lemma_trim_is_subrange(v3@);
        let (a, b) = choose|a: int, b: int|
            0 <= a <= b <= v3@.len() && trim_back_spec(trim_front_spec(v3@)) == v3@.subrange(a, b);
        assert(v4@ == v3@.subrange(a, b));
        assert forall|k: int| 0 <= k < v4@.len() && white_char(#[trigger] v4@[k]) implies v4@[k]
            == ' ' by {
            assert(v4@[k] == v3@[a + k]);
        }
        assert forall|k: int| 0 <= k && k + 1 < v4@.len() implies !(#[trigger] v4@[k] == ' ' && v4@[k
            + 1] == ' ') by {
            assert(v4@[k] == v3@[a + k]);
            assert(v4@[k + 1] == v3@[a + k + 1]);
        }
    }
    string_from_chars(&v4)
}

/// Trimming yields a contiguous piece of its input, so the character
/// properties established by `collapse` carry over.
proof fn lemma_trim_is_subrange(s: Seq<char>)
    ensures
        exists|a: int, b: int|
            0 <= a <= b <= s.len() && trim_back_spec(trim_front_spec(s)) == s.subrange(a, b),
{
    let t1 = trim_front_spec(s);
    lemma_trim_front_is_skip(s);
    let a = choose|a: int| 0 <= a <= s.len() && t1 == s.skip(a);
    let t2 = trim_back_spec(t1);
    lemma_trim_back_is_take(t1);
    let b = choose|b: int| 0 <= b <= t1.len() && t2 == t1.take(b);
    assert(s.skip(a).take(b) =~= s.subrange(a, a + b));
    assert(trim_back_spec(trim_front_spec(s)) == s.subrange(a, a + b));
}

/// `trim_front_spec` is a suffix of its input.
proof fn lemma_trim_front_is_skip(s: Seq<char>)
    ensures
        exists|a: int| 0 <= a <= s.len() && trim_front_spec(s) == s.skip(a),
    decreases s.len(),
{
    if s.len() > 0 && white_char(s[0]) {
        lemma_trim_front_is_skip(s.skip(1));
        let a = choose|a: int|
            0 <= a <= s.skip(1).len() && trim_front_spec(s.skip(1)) == s.skip(1).skip(a);
        assert(s.skip(1).skip(a) =~= s.skip(a + 1));
        assert(trim_front_spec(s) == s.skip(a + 1));
    } else {
        assert(s.skip(0) =~= s);
        assert(trim_front_spec(s) == s.skip(0));
    }
}

/// No begin-of-stream marker occurs anywhere in `t`.
pub open spec fn no_beg(t: Seq<char>) -> bool {
    forall|i: int| !#[trigger] beg_at(t, i)
}

/// No numbered timing marker occurs anywhere in `t`.
pub open spec fn no_tt(t: Seq<char>) -> bool {
    forall|i: int| 0 <= i <= t.len() ==> #[trigger] tt_len(t.skip(i)) == 0
}

/// The characters a digit run covers are digits, and the run stays in
/// bounds.
proof fn lemma_digit_run_digits(x: Seq<char>, p: int)
    requires
        0 <= p <= x.len(),
    ensures
        0 <= digit_run(x, p),
        p + digit_run(x, p) <= x.len(),
        forall|m: int| p <= m < p + digit_run(x, p) ==> is_digit_char(#[trigger] x[m]),
    decreases x.len() - p,
{
    if p < x.len() && is_digit_char(x[p]) {
        lemma_digit_run_digits(x, p + 1);
    }
}

/// A run of exactly `d` digits followed by a non-digit has digit-run
/// length `d`.
proof fn lemma_digit_run_exact(x: Seq<char>, p: int, d: int)
    requires
        0 <= p,
        0 <= d,
        p + d <= x.len(),
        forall|m: int| p <= m < p + d ==> is_digit_char(#[trigger] x[m]),
        p + d < x.len() ==> !is_digit_char(x[p + d]),
    ensures
        digit_run(x, p) == d,
    decreases d,
{
    if d == 0 {
    } else {
        assert(is_digit_char(x[p]));
        lemma_digit_run_exact(x, p + 1, d - 1);
    }
}

/// A whitespace run at the front of the input collapses to a leading
/// space.
proof fn lemma_collapse_white_head(s: Seq<char>)
    requires
        s.len() > 0,
        white_char(s[0]),
    ensures
        collapse_spec(s).len() > 0,
        collapse_spec(s)[0] == ' ',
    decreases s.len(),
{
    if s.len() >= 2 && white_char(s[1]) {
        lemma_collapse_white_head(s.skip(1));
    }
}

/// A space-free prefix of the collapsed text is a prefix of the
/// input itself: collapsing only touches whitespace.
proof fn lemma_collapse_prefix(s: Seq<char>, w: Seq<char>)
    requires
        w.len() >= 1,
        forall|m: int| 0 <= m < w.len() ==> #[trigger] w[m] != ' ',
        collapse_spec(s).len() >= w.len(),
        collapse_spec(s).take(w.len() as int) == w,
    ensures
        s.len() >= w.len(),
        s.take(w.len() as int) == w,
    decreases s.len(),
{
    let c = collapse_spec(s);
    assert(c[0] == w[0]);
    assert(w[0] != ' ');
    if s.len() == 0 {
        assert(false);
    } else if white_char(s[0]) {
        lemma_collapse_white_head(s);
        assert(false);
    } else {
        let c1 = collapse_spec(s.skip(1));
        assert(c == seq![s[0]] + c1);
        assert(s[0] == w[0]);
        if w.len() == 1 {
            assert(s.take(1) =~= w);
        } else {
            let w1 = w.skip(1);
            assert forall|m: int| 0 <= m < w1.len() implies #[trigger] w1[m] != ' ' by {
                assert(w1[m] == w[m + 1]);
            }
            assert(c1.take(w1.len() as int) =~= w1) by {
                assert forall|m: int| 0 <= m < w1.len() implies c1.take(w1.len() as int)[m]
                    == w1[m] by {
                    assert(c.take(w.len() as int)[m + 1] == w[m + 1]);
                    assert(c[m + 1] == c1[m]);
                }
            }
            lemma_collapse_prefix(s.skip(1), w1);
            assert(s.take(w.len() as int) =~= w) by {
                assert forall|m: int| 0 <= m < w.len() implies s.take(w.len() as int)[m]
                    == w[m] by {
                    if m > 0 {
                        assert(s.skip(1).take(w1.len() as int)[m - 1] == w1[m - 1]);
                        assert(s.skip(1)[m - 1] == s[m]);
                    }
                }
            }
        }
    }
}

/// A space-free substring of the collapsed text occurs contiguously
/// in the input itself.
proof fn lemma_collapse_occurrence(s: Seq<char>, w: Seq<char>, j: int)
    requires
        w.len() >= 1,
        forall|m: int| 0 <= m < w.len() ==> #[trigger] w[m] != ' ',
        0 <= j,
        j + w.len() <= collapse_spec(s).len(),
        collapse_spec(s).subrange(j, j + w.len() as int) == w,
    ensures
        exists|i: int|
            0 <= i && i + w.len() <= s.len() && #[trigger] s.subrange(i, i + w.len() as int) == w,
    decreases s.len(),
{
    let c = collapse_spec(s);
    let l = w.len() as int;
    if s.len() == 0 {
        assert(false);
    } else if white_char(s[0]) && s.len() >= 2 && white_char(s[1]) {
        assert(c == collapse_spec(s.skip(1)));
        lemma_collapse_occurrence(s.skip(1), w, j);
        let i = choose|i: int|
            0 <= i && i + w.len() <= s.skip(1).len() && #[trigger] s.skip(1).subrange(i, i
                + w.len() as int) == w;
        assert(s.subrange(i + 1, i + 1 + l) =~= s.skip(1).subrange(i, i + l));
    } else {
        let head: char = if white_char(s[0]) {
            ' '
        } else {
            s[0]
        };
        let c1 = collapse_spec(s.skip(1));
        assert(c == seq![head] + c1);
        if j == 0 {
            assert(w[0] == c[0]);
            assert(c[0] == head);
            if white_char(s[0]) {
                assert(w[0] == ' ');
                assert(false);
            }
            assert(c.take(l) =~= c.subrange(0, l));
            lemma_collapse_prefix(s, w);
            assert(s.subrange(0, l) =~= s.take(l));
        } else {
            assert(c1.subrange(j - 1, j - 1 + l) =~= c.subrange(j, j + l));
            lemma_collapse_occurrence(s.skip(1), w, j - 1);
            let i = choose|i: int|
                0 <= i && i + w.len() <= s.skip(1).len() && #[trigger] s.skip(1).subrange(i, i
                    + w.len() as int) == w;
            assert(s.subrange(i + 1, i + 1 + l) =~= s.skip(1).subrange(i, i + l));
        }
    }
}

/// Tag cleanup: when removing the markers leaves no marker behind —
/// the input's marker fragments do not recombine into a fresh one —
/// the cleaned transcript contains no begin-of-stream marker and no
/// numbered timing marker.
pub proof fn lemma_clean_removes_tags(s: Seq<char>)
    requires
        no_beg(strip_tt_spec(strip_beg_spec(s))),
        no_tt(strip_tt_spec(strip_beg_spec(s))),
    ensures
        no_beg(clean_spec(s)),
        no_tt(clean_spec(s)),
{
    let t = strip_tt_spec(strip_beg_spec(s));
    let c = collapse_spec(t);
    let out = clean_spec(s);
    lemma_trim_is_subrange(c);
    let (a, b) = choose|a: int, b: int|
        0 <= a <= b <= c.len() && trim_back_spec(trim_front_spec(c)) == c.subrange(a, b);
    assert(out == c.subrange(a, b));
    assert forall|i: int| !#[trigger] beg_at(out, i) by {
        if beg_at(out, i) {
            let w = out.subrange(i, i + 7);
            assert forall|m: int| 0 <= m < w.len() implies #[trigger] w[m] != ' ' by {
                assert(w[m] == out[i + m]);
            }
            assert(c.subrange(a + i, a + i + 7) =~= w) by {
                assert forall|m: int| 0 <= m < 7 implies c.subrange(a + i, a + i + 7)[m]
                    == w[m] by {
                    assert(out[i + m] == c[a + i + m]);
                }
            }
            lemma_collapse_occurrence(t, w, a + i);
            let i2 = choose|i2: int|
                0 <= i2 && i2 + w.len() <= t.len() && #[trigger] t.subrange(i2, i2 + w.len() as int)
                    == w;
            assert(beg_at(t, i2)) by {
                assert forall|m: int| 0 <= m < 7 implies t[i2 + m] == w[m] by {
                    assert(t.subrange(i2, i2 + 7)[m] == t[i2 + m]);
                }
                assert(w[0] == out[i] && w[1] == out[i + 1] && w[2] == out[i + 2] && w[3] == out[i
                    + 3] && w[4] == out[i + 4] && w[5] == out[i + 5] && w[6] == out[i + 6]);
                assert(t[i2] == '[' && t[i2 + 1] == '_' && t[i2 + 2] == 'B' && t[i2 + 3] == 'E'
                    && t[i2 + 4] == 'G' && t[i2 + 5] == '_' && t[i2 + 6] == ']');
            }
            assert(false);
        }
    }
    assert forall|i: int| 0 <= i <= out.len() implies #[trigger] tt_len(out.skip(i)) == 0 by {
        let rest = out.skip(i);
        if tt_len(rest) != 0 {
            let d = digit_run(rest, 5);
            let l = 5 + d + 1;
            assert(tt_len(rest) == l);
            lemma_digit_run_digits(rest, 5);
            let w = out.subrange(i, i + l);
            assert(w.len() == l);
            assert forall|m: int| 0 <= m < w.len() implies #[trigger] w[m] != ' ' by {
                assert(w[m] == out[i + m]);
                assert(out[i + m] == rest[m]);
                if 5 <= m < 5 + d {
                    assert(is_digit_char(rest[m]));
                }
            }
            assert(c.subrange(a + i, a + i + l) =~= w) by {
                assert forall|m: int| 0 <= m < l implies c.subrange(a + i, a + i + l)[m]
                    == w[m] by {
                    assert(out[i + m] == c[a + i + m]);
                }
            }
            lemma_collapse_occurrence(t, w, a + i);
            let i2 = choose|i2: int|
                0 <= i2 && i2 + w.len() <= t.len() && #[trigger] t.subrange(i2, i2 + w.len() as int)
                    == w;
            let trest = t.skip(i2);
            assert forall|m: int| 0 <= m < l implies trest[m] == w[m] by {
                assert(t.subrange(i2, i2 + l)[m] == t[i2 + m]);
            }
            assert(trest[0] == '[' && trest[1] == '_' && trest[2] == 'T' && trest[3] == 'T'
                && trest[4] == '_') by {
                assert(w[0] == rest[0] && w[1] == rest[1] && w[2] == rest[2] && w[3] == rest[3]
                    && w[4] == rest[4]);
            }
            assert(digit_run(trest, 5) == d) by {
                assert forall|m: int| 5 <= m < 5 + d implies is_digit_char(
                    #[trigger] trest[m],
                ) by {
                    assert(trest[m] == w[m]);
                    assert(w[m] == rest[m]);
                }
                assert(trest[5 + d] == w[5 + d]);
                assert(w[5 + d] == rest[5 + d]);
                assert(rest[5 + d] == ']');
                assert(!is_digit_char(trest[5 + d]));
                lemma_digit_run_exact(trest, 5, d);
            }
            assert(trest[5 + d] == ']');
            assert(tt_len(trest) == l);
            assert(tt_len(t.skip(i2)) == 0);
            assert(false);
        }
    }
}

/// `trim_back_spec` is a prefix of its input.
proof fn lemma_trim_back_is_take(s: Seq<char>)
    ensures
        exists|b: int| 0 <= b <= s.len() && trim_back_spec(s) == s.take(b),
    decreases s.len(),
{
    if s.len() > 0 && white_char(s[s.len() - 1]) {
        let t = s.take(s.len() - 1);
        lemma_trim_back_is_take(t);
        let b = choose|b: int| 0 <= b <= t.len() && trim_back_spec(t) == t.take(b);
        assert(t.take(b) =~= s.take(b));
        assert(trim_back_spec(s) == s.take(b));
    } else {
        assert(s.take(s.len() as int) =~= s);
        assert(trim_back_spec(s) == s.take(s.len() as int));
    }
}

} // verus!
