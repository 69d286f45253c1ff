//! Character classes and text normalization.
//!
//! The engine classifies characters with Unicode predicates and
//! normalizes candidate words by NFKC normalization and lower-casing.
//! Both depend on large Unicode tables, so they are modelled by
//! uninterpreted names (`letter_char`, `white_char`, `lower_of`,
//! `nfkc_of`) that the trusted declarations below tie to the real
//! implementations.

use vstd::prelude::*;
use vstd::string::StrSliceExecFns;
use unicode_normalization::UnicodeNormalization;

verus! {

/// Whether a character has the Unicode `Alphabetic` property.
pub uninterp spec fn letter_char(c: char) -> bool;

/// Whether a character has the Unicode `White_Space` property.
pub uninterp spec fn white_char(c: char) -> bool;

/// The lower-case form of a character sequence.
pub uninterp spec fn lower_of(s: Seq<char>) -> Seq<char>;

/// The Unicode NFKC normalization of a character sequence.
pub uninterp spec fn nfkc_of(s: Seq<char>) -> Seq<char>;

/// Relies on char::is_alphabetic: true exactly for characters with the
/// Unicode `Alphabetic` property.  That property does not hold for
/// whitespace such as the space character, nor for punctuation such as
/// the ASCII apostrophe and the right single quotation mark.
pub assume_specification[ char::is_alphabetic ](c: char) -> (r: bool)
    ensures
        r == letter_char(c),
        c == ' ' ==> !r,
        c == '\'' ==> !r,
        c == '\u{2019}' ==> !r,
;

/// Relies on char::is_whitespace: true exactly for characters with the
/// Unicode `White_Space` property, which the documentation states
/// holds for the space character.
pub assume_specification[ char::is_whitespace ](c: char) -> (r: bool)
    ensures
        r == white_char(c),
        c == ' ' ==> r,
;

/// Relies on str::to_lowercase: the result is a function of the
/// characters alone, and an empty string stays empty.
#[verifier::external_body]
pub fn to_lower(s: &str) -> (r: String)
    ensures
        r@ == lower_of(s@),
        s@.len() == 0 ==> r@.len() == 0,
{
    s.to_lowercase()
}

/// Relies on unicode_normalization's `UnicodeNormalization::nfkc`: the
/// normalized form is a function of the characters alone, and an empty
/// string stays empty.
#[verifier::external_body]
pub fn nfkc(s: &str) -> (r: String)
    ensures
        r@ == nfkc_of(s@),
        s@.len() == 0 ==> r@.len() == 0,
{
    s.nfkc().collect()
}

/// Relies on `String: FromIterator<char>`: collecting characters
/// yields the string of exactly those characters, in order.
#[verifier::external_body]
pub fn string_from_chars(v: &Vec<char>) -> (r: String)
    ensures
        r@ == v@,
{
    v.iter().collect()
}

/// Whether two string slices hold the same characters.
pub fn str_eq(a: &str, b: &str) -> (r: bool)
    ensures
        r == (a@ == b@),
{
    let va = chars_of(a);
    let vb = chars_of(b);
    if va.len() != vb.len() {
        proof {
            assert(a@ != b@);
        }
        return false;
    }
    let mut i: usize = 0;
    while i < va.len()
        invariant
            va@ == a@,
            vb@ == b@,
            va@.len() == vb@.len(),
            i <= va@.len(),
            forall|m: int| 0 <= m < i ==> a@[m] == b@[m],
        decreases va@.len() - i,
    {
        if va[i] != vb[i] {
            proof {
                assert(a@[i as int] != b@[i as int]);
            }
            return false;
        }
        i += 1;
    }
    proof {
        assert(a@ =~= b@);
    }
    true
}

/// Whether some string of `words` reads as `w`.
pub(crate) fn contains_string(words: &Vec<String>, w: &String) -> (r: bool)
    ensures
        r == words@.map_values(|x: String| x@).contains(w@),
{
    let mut k: usize = 0;
    while k < words.len()
        invariant
            k <= words@.len(),
            forall|m: int| 0 <= m < k ==> (#[trigger] words@[m])@ != w@,
        decreases words@.len() - k,
    {
        if words[k].eq(w) {
            proof {
                assert(words@.map_values(|x: String| x@)[k as int] == w@);
            }
            return true;
        }
        k += 1;
    }
    proof {
        let views = words@.map_values(|x: String| x@);
        assert forall|m: int| 0 <= m < views.len() implies views[m] != w@ by {
            assert(views[m] == words@[m]@);
        }
    }
    false
}

/// The characters of `s`, as a vector.
pub fn chars_of(s: &str) -> (r: Vec<char>)
    ensures
        r@ == s@,
{
    let n: usize = s.unicode_len();
    let mut v: Vec<char> = Vec::new();
    let mut i: usize = 0;
    while i < n
        invariant
            n == s@.len(),
            i <= n,
            v@ == s@.take(i as int),
        decreases n - i,
    {
        v.push(s.get_char(i));
        assert(v@ =~= s@.take(i + 1 as int));
        i += 1;
    }
    assert(v@ =~= s@);
    v
}

} // verus!
